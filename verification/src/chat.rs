//! Chat over notes: the scope a turn searches, the workspace context a
//! conversation belongs to, paging of conversation lists, and the
//! embedding configuration that follows the chat provider.
use vstd::prelude::*;
use crate::text::{
    all_ws, chars_of, contains_chars, contains_sub, extend_chars, is_blank, lowercase_str, starts_with_chars, str_lowercase, string_of, trim, trim_chars,
};

verus! {

/// The note fields chat reads.
#[derive(Debug)]
pub struct Note {
    pub id: String,
    pub folder_id: Option<String>,
    pub body: String,
    pub transcript: String,
    pub summary: String,
}

/// What a conversation is anchored to: one note, or the whole library.
#[derive(Debug)]
pub enum ChatTarget {
    Note(String),
    Global,
}

impl ChatTarget {
    /// The anchor note's id, `None` for a library-wide conversation.
    pub fn note_id(&self) -> (r: Option<&str>)
        ensures
            match self {
                ChatTarget::Note(id) => r matches Some(s) && s@ == id@,
                ChatTarget::Global => r is None,
            },
    {
        match self {
            ChatTarget::Note(id) => Some(id.as_str()),
            ChatTarget::Global => None,
        }
    }
}

/// The set of notes a turn's retrieval tools may search.
#[derive(Debug)]
pub enum ToolScope {
    All,
    Folder(String),
    Note(String),
}

/// `note`.
pub open spec fn note_word() -> Seq<char> {
    seq!['n', 'o', 't', 'e']
}

/// `folder`.
pub open spec fn folder_word() -> Seq<char> {
    seq!['f', 'o', 'l', 'd', 'e', 'r']
}

/// `all`.
pub open spec fn all_word() -> Seq<char> {
    seq!['a', 'l', 'l']
}

/// A breadth chat recognises: `note`, `folder` or `all`.
pub open spec fn valid_breadth(b: Seq<char>) -> bool {
    b == note_word() || b == folder_word() || b == all_word()
}

/// Check a stored or requested breadth: `note`, `folder` and `all` pass
/// through, anything else is an error naming it.
pub fn validate_breadth(breadth: &str) -> (r: Result<String, String>)
    ensures
        match r {
            Ok(b) => valid_breadth(breadth@) && b@ == breadth@,
            Err(_) => !valid_breadth(breadth@),
        },
{
    let v = chars_of(breadth);
    let note: Vec<char> = vec!['n', 'o', 't', 'e'];
    let folder: Vec<char> = vec!['f', 'o', 'l', 'd', 'e', 'r'];
    let all: Vec<char> = vec!['a', 'l', 'l'];
    assert(note@ =~= note_word());
    assert(folder@ =~= folder_word());
    assert(all@ =~= all_word());
    if crate::text::chars_eq(&v, &note) || crate::text::chars_eq(&v, &folder)
        || crate::text::chars_eq(&v, &all) {
        Ok(string_of(&v))
    } else {
        let mut m = chars_of("unknown breadth: ");
        extend_chars(&mut m, &v);
        Err(string_of(&m))
    }
}

/// Whether a note currently sits in a (non-empty) folder.
pub open spec fn in_folder(note: Note) -> bool {
    note.folder_id matches Some(f) && f@.len() > 0
}

/// Whether a note currently sits in a (non-empty) folder.
pub fn note_has_folder(note: &Note) -> (b: bool)
    ensures
        b == in_folder(*note),
{
    match &note.folder_id {
        Some(f) => chars_of(f.as_str()).len() > 0,
        None => false,
    }
}

/// The breadth a turn actually runs at, from the conversation's stored
/// breadth, and whether the stored value must be rewritten to it. With an
/// anchor note, a `folder` breadth on a note no longer in a folder heals to
/// `note`; a library-wide conversation is always `all`, whatever was stored.
/// An unknown stored value is an error either way.
pub open spec fn healed_breadth(stored: Seq<char>, note: Option<Note>) -> Option<(Seq<char>, bool)> {
    if !valid_breadth(stored) {
        None
    } else {
        match note {
            Some(n) => if stored == folder_word() && !in_folder(n) {
                Some((note_word(), true))
            } else {
                Some((stored, false))
            },
            None => Some((all_word(), stored != all_word())),
        }
    }
}

/// The effective breadth of a turn and whether the stored row needs
/// rewriting to it (see `healed_breadth`).
pub fn effective_breadth(stored: &str, note: Option<&Note>) -> (r: Result<(String, bool), String>)
    ensures
        match r {
            Ok((b, rewrite)) => healed_breadth(
                stored@,
                match note {
                    Some(n) => Some(*n),
                    None => None,
                },
            ) == Some((b@, rewrite)),
            Err(_) => healed_breadth(
                stored@,
                match note {
                    Some(n) => Some(*n),
                    None => None,
                },
            ) is None,
        },
{
    let b = match validate_breadth(stored) {
        Ok(b) => b,
        Err(e) => {
            return Err(e);
        },
    };
    let v = chars_of(b.as_str());
    let folder: Vec<char> = vec!['f', 'o', 'l', 'd', 'e', 'r'];
    let all: Vec<char> = vec!['a', 'l', 'l'];
    let note_v: Vec<char> = vec!['n', 'o', 't', 'e'];
    assert(folder@ =~= folder_word());
    assert(all@ =~= all_word());
    assert(note_v@ =~= note_word());
    match note {
        Some(n) => {
            if crate::text::chars_eq(&v, &folder) && !note_has_folder(n) {
                Ok((string_of(&note_v), true))
            } else {
                Ok((b, false))
            }
        },
        None => {
            let rewrite = !crate::text::chars_eq(&v, &all);
            Ok((string_of(&all), rewrite))
        },
    }
}

/// Resolve an effective breadth into the scope the retrieval tools get:
/// `all` is the whole library; `folder` is the anchor note's folder, an
/// error when there is no anchor or it has no folder; `note` is the anchor
/// note, an error without one; any other breadth is an error.
pub fn resolve_scope(breadth: &str, note: Option<&Note>) -> (r: Result<ToolScope, String>)
    ensures
        !valid_breadth(breadth@) ==> r is Err,
        breadth@ == all_word() ==> r matches Ok(ToolScope::All),
        breadth@ == folder_word() ==> match note {
            Some(n) if in_folder(*n) => r matches Ok(ToolScope::Folder(f)) && Some(f) == n.folder_id,
            _ => r is Err,
        },
        breadth@ == note_word() ==> match note {
            Some(n) => r matches Ok(ToolScope::Note(id)) && id == n.id,
            None => r is Err,
        },
{
    let b = match validate_breadth(breadth) {
        Ok(b) => b,
        Err(e) => return Err(e),
    };
    let v = chars_of(b.as_str());
    let all: Vec<char> = vec!['a', 'l', 'l'];
    let folder: Vec<char> = vec!['f', 'o', 'l', 'd', 'e', 'r'];
    assert(all@ =~= all_word());
    assert(folder@ =~= folder_word());
    assert(all_word() != folder_word());
    assert(all_word() != note_word());
    assert(folder_word() != note_word());
    if crate::text::chars_eq(&v, &all) {
        Ok(ToolScope::All)
    } else if crate::text::chars_eq(&v, &folder) {
        match note {
            Some(n) => match &n.folder_id {
                Some(f) => {
                    if chars_of(f.as_str()).len() > 0 {
                        Ok(ToolScope::Folder(f.clone()))
                    } else {
                        Err(string_of(
                            &chars_of(
                                "This note isn't in a folder, so \"Folder\" scope isn't available.",
                            ),
                        ))
                    }
                },
                None => Err(string_of(
                    &chars_of("This note isn't in a folder, so \"Folder\" scope isn't available."),
                )),
            },
            None => Err(string_of(
                &chars_of("This note isn't in a folder, so \"Folder\" scope isn't available."),
            )),
        }
    } else {
        match note {
            Some(n) => Ok(ToolScope::Note(n.id.clone())),
            None => Err(string_of(
                &chars_of(
                    "This conversation has no anchor note, so only \"All notes\" scope applies.",
                ),
            )),
        }
    }
}

/// Whether a model id names an embedding-only model: lowercased, it
/// contains `embed` or starts with `bge-`, `all-minilm` or `paraphrase-`.
pub open spec fn embedding_model(model: Seq<char>) -> bool {
    let m = str_lowercase(model);
    ||| contains_sub(m, "embed"@)
    ||| "bge-"@.is_prefix_of(m)
    ||| "all-minilm"@.is_prefix_of(m)
    ||| "paraphrase-"@.is_prefix_of(m)
}

/// Whether a model id is embedding-only (cannot serve chat completions).
pub fn is_embedding_model(model: &str) -> (b: bool)
    ensures
        b == embedding_model(model@),
{
    let m = chars_of(lowercase_str(model).as_str());
    contains_chars(&m, &chars_of("embed")) || starts_with_chars(&m, &chars_of("bge-"))
        || starts_with_chars(&m, &chars_of("all-minilm")) || starts_with_chars(
        &m,
        &chars_of("paraphrase-"),
    )
}

// ---------------------------------------------------------------------------
// Context and conversations
// ---------------------------------------------------------------------------

/// The `conversations.tenant` value of on-device chat.
pub const CHAT_TENANT_PERSONAL: &'static str = "personal";

/// The chat context: on-device (Personal) or one workspace.
#[derive(Debug)]
pub enum ChatContext {
    Personal,
    Workspace(String),
}

impl ChatContext {
    /// The `conversations.tenant` string for this context: the workspace id,
    /// or `CHAT_TENANT_PERSONAL`.
    pub fn tenant(&self) -> (r: &str)
        ensures
            match self {
                ChatContext::Personal => r@ == CHAT_TENANT_PERSONAL@,
                ChatContext::Workspace(id) => r@ == id@,
            },
    {
        match self {
            ChatContext::Personal => CHAT_TENANT_PERSONAL,
            ChatContext::Workspace(id) => id.as_str(),
        }
    }

    /// The workspace id of a workspace context, `None` for Personal.
    pub fn workspace(&self) -> (r: Option<&str>)
        ensures
            match self {
                ChatContext::Personal => r is None,
                ChatContext::Workspace(id) => r matches Some(s) && s@ == id@,
            },
    {
        match self {
            ChatContext::Personal => None,
            ChatContext::Workspace(id) => Some(id.as_str()),
        }
    }
}

/// The conversation fields the session list reads.
#[derive(Debug)]
pub struct Conversation {
    pub id: String,
    pub title: Option<String>,
    pub created_at: i64,
    pub remote_id: Option<String>,
}

/// Whether a conversation has no stored title yet (none, or blank).
pub fn resolved_title_is_unset(c: &Conversation) -> (b: bool)
    ensures
        b == match c.title {
            Some(t) => all_ws(t@),
            None => true,
        },
{
    match &c.title {
        Some(t) => is_blank(&chars_of(t.as_str())),
        None => true,
    }
}

/// A window into a list: skip `offset` rows, then take at most `limit`.
#[derive(Debug, Clone, Copy, PartialEq, Eq, Structural)]
pub struct Page {
    pub limit: u64,
    pub offset: u64,
}

/// The requested window, or `None` for everything: no window without a
/// limit, and a missing offset is 0.
pub fn conversation_page(limit: Option<u32>, offset: Option<u32>) -> (r: Option<Page>)
    ensures
        r == match limit {
            Some(l) => Some(
                Page {
                    limit: l as u64,
                    offset: match offset {
                        Some(o) => o as u64,
                        None => 0,
                    },
                },
            ),
            None => None::<Page>,
        },
{
    match limit {
        Some(l) => {
            let o: u64 = match offset {
                Some(o) => o as u64,
                None => 0,
            };
            Some(Page { limit: l as u64, offset: o })
        },
        None => None,
    }
}

/// `s` through the window `page`: everything without one; else the
/// elements from `offset` on, at most `limit` of them.
pub open spec fn windowed<T>(s: Seq<T>, page: Option<Page>) -> Seq<T> {
    match page {
        None => s,
        Some(p) => {
            let rest = if p.offset >= s.len() {
                seq![]
            } else {
                s.skip(p.offset as int)
            };
            if p.limit >= rest.len() {
                rest
            } else {
                rest.take(p.limit as int)
            }
        },
    }
}

/// Apply a window to an already-materialised list.
pub fn apply_page<T>(all: Vec<T>, page: Option<Page>) -> (r: Vec<T>)
    ensures
        r@ == windowed(all@, page),
{
    match page {
        None => all,
        Some(p) => {
            let mut all = all;
            if p.offset >= all.len() as u64 {
                return Vec::new();
            }
            let from = p.offset as usize;
            let mut rest = all.split_off(from);
            if p.limit < rest.len() as u64 {
                rest.truncate(p.limit as usize);
            }
            rest
        },
    }
}

/// The local workspace handles the server listing left out: those mapped
/// to a server conversation (`remote_id`) whose id the server did not
/// return, in the order they came.
pub open spec fn unlisted(server_ids: Seq<Seq<char>>, handles: Seq<Conversation>) -> Seq<int>
    decreases handles.len(),
{
    if handles.len() == 0 {
        seq![]
    } else {
        let h = handles.last();
        unlisted(server_ids, handles.drop_last()) + match h.remote_id {
            Some(rid) => if server_ids.contains(rid@) {
                seq![]
            } else {
                seq![handles.len() - 1]
            },
            None => seq![],
        }
    }
}

/// Local workspace handles the server's conversation list omitted: those
/// with a `remote_id` not among the server's ids.
pub fn unlisted_legacy_handles<'a>(server_remote_ids: &Vec<String>, local_handles: &'a [Conversation]) -> (r: Vec<&'a Conversation>)
    ensures
        r.len() == unlisted(
            crate::labels::seqs_of_strings(server_remote_ids@),
            local_handles@,
        ).len(),
        forall|j: int|
            0 <= j < r.len() ==> *r@[j] == local_handles@[unlisted(
                crate::labels::seqs_of_strings(server_remote_ids@),
                local_handles@,
            )[j]],
{
    let ghost ids = crate::labels::seqs_of_strings(server_remote_ids@);
    let mut r: Vec<&'a Conversation> = Vec::new();
    let mut i: usize = 0;
    while i < local_handles.len()
        invariant
            i <= local_handles.len(),
            ids == crate::labels::seqs_of_strings(server_remote_ids@),
            r.len() == unlisted(ids, local_handles@.take(i as int)).len(),
            forall|j: int|
                0 <= j < r.len() ==> *r@[j] == local_handles@[unlisted(
                    ids,
                    local_handles@.take(i as int),
                )[j]],
        decreases local_handles.len() - i,
    {
        let ghost pre = local_handles@.take(i as int);
        let ghost nxt = local_handles@.take(i + 1);
        assert(nxt.drop_last() =~= pre);
        assert(nxt.last() == local_handles@[i as int]);
        let h = &local_handles[i];
        match &h.remote_id {
            Some(rid) => {
                let rv = chars_of(rid.as_str());
                let mut k: usize = 0;
                let mut found = false;
                while k < server_remote_ids.len()
                    invariant
                        k <= server_remote_ids.len(),
                        ids == crate::labels::seqs_of_strings(server_remote_ids@),
                        rv@ == rid@,
                        found == exists|j: int| 0 <= j < k && ids[j] == rid@,
                    decreases server_remote_ids.len() - k,
                {
                    let sv = chars_of(server_remote_ids[k].as_str());
                    assert(ids[k as int] == server_remote_ids@[k as int]@);
                    if crate::text::chars_eq(&sv, &rv) {
                        found = true;
                    }
                    k += 1;
                }
                if !found {
                    r.push(h);
                }
                assert forall|j: int| 0 <= j < r.len() implies *r@[j] == local_handles@[unlisted(
                    ids,
                    nxt,
                )[j]] by {
                    if j < unlisted(ids, pre).len() {
                        assert(unlisted(ids, nxt)[j] == unlisted(ids, pre)[j]);
                    }
                }
            },
            None => {
                assert(unlisted(ids, nxt) =~= unlisted(ids, pre));
            },
        }
        i += 1;
    }
    assert(local_handles@.take(local_handles.len() as int) =~= local_handles@);
    r
}

/// Query parameters for the conversations route: the workspace, plus the
/// anchor note when there is one (its absence selects the library-wide
/// list).
pub fn conversation_route_params<'a>(workspace: &'a str, target: &'a ChatTarget) -> (r: Vec<(&'a str, &'a str)>)
    ensures
        r.len() == (if target is Note {
            2int
        } else {
            1int
        }),
        r@[0].0@ == "workspace_id"@,
        r@[0].1@ == workspace@,
        target matches ChatTarget::Note(id) ==> r@[1].0@ == "note_id"@ && r@[1].1@ == id@,
{
    let mut params: Vec<(&'a str, &'a str)> = Vec::new();
    params.push(("workspace_id", workspace));
    match target.note_id() {
        Some(id) => {
            params.push(("note_id", id));
        },
        None => {},
    }
    params
}

// ---------------------------------------------------------------------------
// Sessions
// ---------------------------------------------------------------------------

/// The breadth a target's first-ever session starts with: `note` for a note,
/// `all` for the library (a library-wide thread has no anchor to narrow to).
pub open spec fn default_breadth_for(target: ChatTarget) -> Seq<char> {
    match target {
        ChatTarget::Note(_) => note_word(),
        ChatTarget::Global => all_word(),
    }
}

/// The breadth a target's first-ever session starts with.
pub fn default_breadth(target: &ChatTarget) -> (r: String)
    ensures
        r@ == default_breadth_for(*target),
{
    let w: Vec<char> = match target {
        ChatTarget::Note(_) => vec!['n', 'o', 't', 'e'],
        ChatTarget::Global => vec!['a', 'l', 'l'],
    };
    assert(w@ =~= default_breadth_for(*target));
    string_of(&w)
}

/// The breadth a new session inherits: that of the target's most recent
/// session in the same tenant (`latest_breadth`), else the target's default.
pub fn inherited_breadth(latest_breadth: Option<&str>, target: &ChatTarget) -> (r: String)
    ensures
        r@ == match latest_breadth {
            Some(b) => b@,
            None => default_breadth_for(*target),
        },
{
    match latest_breadth {
        Some(b) => string_of(&chars_of(b)),
        None => default_breadth(target),
    }
}

/// What "new chat" does for a target.
#[derive(Debug)]
pub enum NewSession {
    /// Hand back the most recent session, which has no messages yet.
    ReuseLatest,
    /// Create a session with this breadth.
    Create(String),
}

/// "New chat": an empty most recent session is reused rather than piling up
/// empty sessions; otherwise a fresh one is created that inherits the most
/// recent session's breadth, or the target's default when there is none.
/// `latest` is the most recent session's breadth and message count.
pub fn new_session_plan(latest: Option<(&str, u64)>, target: &ChatTarget) -> (r: NewSession)
    ensures
        match latest {
            Some((b, n)) => if n == 0 {
                r is ReuseLatest
            } else {
                r matches NewSession::Create(x) && x@ == b@
            },
            None => r matches NewSession::Create(x) && x@ == default_breadth_for(*target),
        },
{
    match latest {
        Some((b, n)) => {
            if n == 0 {
                NewSession::ReuseLatest
            } else {
                NewSession::Create(inherited_breadth(Some(b), target))
            }
        },
        None => NewSession::Create(inherited_breadth(None, target)),
    }
}

/// Two targets name the same anchor: the same note, or both the library.
pub open spec fn same_anchor(a: ChatTarget, b: ChatTarget) -> bool {
    match (a, b) {
        (ChatTarget::Note(x), ChatTarget::Note(y)) => x@ == y@,
        (ChatTarget::Global, ChatTarget::Global) => true,
        _ => false,
    }
}

/// The error for a session named from another scope.
pub open spec fn cross_scope_error(target: ChatTarget) -> Seq<char> {
    match target {
        ChatTarget::Note(_) => "That chat session doesn't belong to this note."@,
        ChatTarget::Global => "That chat session isn't a library-wide one."@,
    }
}

/// Check a session named by id against the tenant and target a command
/// works on: it passes only when both match, and a session from another
/// tenant, note or scope is an error, never a silent cross-scope read.
pub fn check_session_scope(
    tenant: &str,
    target: &ChatTarget,
    session_tenant: &str,
    session_target: &ChatTarget,
) -> (r: Result<(), String>)
    ensures
        r is Ok <==> (tenant@ == session_tenant@ && same_anchor(*target, *session_target)),
        r matches Err(e) ==> e@ == cross_scope_error(*target),
{
    let same_tenant = crate::text::chars_eq(&chars_of(tenant), &chars_of(session_tenant));
    let same = match (target, session_target) {
        (ChatTarget::Note(x), ChatTarget::Note(y)) => crate::text::chars_eq(
            &chars_of(x.as_str()),
            &chars_of(y.as_str()),
        ),
        (ChatTarget::Global, ChatTarget::Global) => true,
        _ => false,
    };
    if same_tenant && same {
        Ok(())
    } else {
        match target {
            ChatTarget::Note(_) => Err(string_of(&chars_of("That chat session doesn't belong to this note."))),
            ChatTarget::Global => Err(string_of(&chars_of("That chat session isn't a library-wide one."))),
        }
    }
}

// ---------------------------------------------------------------------------
// Embeddings
// ---------------------------------------------------------------------------

/// Embedding model used with a local (Ollama) chat provider.
pub const OLLAMA_EMBED_MODEL: &'static str = "embeddinggemma";

/// Embedding model used with the cloud (OpenAI) chat provider.
pub const OPENAI_EMBED_MODEL: &'static str = "text-embedding-3-small";

/// The chat provider resolved for one call.
#[derive(Debug)]
pub struct ResolvedChat {
    pub provider: String,
    pub base_url: String,
    pub model: String,
    pub api_key: Option<String>,
    /// Ask a local model to show its reasoning.
    pub think: bool,
}

/// The local chat server's default address.
pub const DEFAULT_LOCAL_LLM_BASE_URL: &'static str = "http://localhost:11434/v1";

/// The cloud chat model used when none is configured.
pub const DEFAULT_CHAT_MODEL: &'static str = "gpt-5.4-mini";

/// A stored setting as the chat resolver reads it: trimmed, and absent when
/// blank.
pub open spec fn setting_value(s: Option<Seq<char>>) -> Option<Seq<char>> {
    match s {
        Some(v) => if trim(v).len() > 0 {
            Some(trim(v))
        } else {
            None
        },
        None => None,
    }
}

/// `c` is `lower` or `upper`.
pub open spec fn either(c: char, lower: char, upper: char) -> bool {
    c == lower || c == upper
}

/// The trimmed setting reads `true` in any ASCII case.
pub open spec fn says_true(s: Option<Seq<char>>) -> bool {
    match s {
        Some(v) => {
            let t = trim(v);
            &&& t.len() == 4
            &&& either(t[0], 't', 'T')
            &&& either(t[1], 'r', 'R')
            &&& either(t[2], 'u', 'U')
            &&& either(t[3], 'e', 'E')
        },
        None => false,
    }
}

/// A resolved chat provider as plain values: provider, base URL, model, key
/// and whether to think.
pub open spec fn resolved_view(r: ResolvedChat) -> (Seq<char>, Seq<char>, Seq<char>, Option<Seq<char>>, bool) {
    (r.provider@, r.base_url@, r.model@, match r.api_key {
        Some(k) => Some(k@),
        None => None,
    }, r.think)
}

/// The chat provider for one call, from the raw settings: `ollama` runs on
/// the local server (its address setting, else the default), needs a model
/// and refuses an embedding-only one; any other provider (default `openai`)
/// needs an API key and falls back to the default model.
pub open spec fn chat_resolution(
    provider: Option<Seq<char>>,
    model: Option<Seq<char>>,
    local_base_url: Option<Seq<char>>,
    local_think: Option<Seq<char>>,
    openai_api_key: Option<Seq<char>>,
    openai_base: Seq<char>,
) -> Result<(Seq<char>, Seq<char>, Seq<char>, Option<Seq<char>>, bool), Seq<char>> {
    let p = match setting_value(provider) {
        Some(v) => v,
        None => "openai"@,
    };
    let m = setting_value(model);
    if p == "ollama"@ {
        match m {
            None => Err("No chat model configured \u{2014} pick one in Settings \u{2192} Chat."@),
            Some(mv) => if embedding_model(mv) {
                Err(
                    "\u{201c}"@ + mv + "\u{201d} is an embedding model and can't chat \u{2014} pick a chat model in Settings \u{2192} Chat."@,
                )
            } else {
                Ok(
                    (
                        p,
                        match setting_value(local_base_url) {
                            Some(b) => b,
                            None => DEFAULT_LOCAL_LLM_BASE_URL@,
                        },
                        mv,
                        None,
                        says_true(local_think),
                    ),
                )
            },
        }
    } else {
        match openai_api_key {
            Some(k) => if k.len() > 0 {
                Ok(
                    (
                        p,
                        openai_base,
                        match m {
                            Some(mv) => mv,
                            None => DEFAULT_CHAT_MODEL@,
                        },
                        Some(k),
                        false,
                    ),
                )
            } else {
                Err("OpenAI API key not set \u{2014} add one in Settings \u{2192} Chat."@)
            },
            None => Err("OpenAI API key not set \u{2014} add one in Settings \u{2192} Chat."@),
        }
    }
}

fn says_true_exec(s: Option<&str>) -> (b: bool)
    ensures
        b == says_true(str_opt(s)),
{
    match s {
        Some(x) => {
            let t = trim_chars(&chars_of(x));
            t.len() == 4 && (t[0] == 't' || t[0] == 'T') && (t[1] == 'r' || t[1] == 'R') && (t[2] == 'u'
                || t[2] == 'U') && (t[3] == 'e' || t[3] == 'E')
        },
        None => false,
    }
}

fn read_setting(s: Option<&str>) -> (r: Option<Vec<char>>)
    ensures
        match r {
            Some(v) => Some(v@),
            None => None::<Seq<char>>,
        } == setting_value(str_opt(s)),
{
    match s {
        Some(x) => {
            let t = trim_chars(&chars_of(x));
            if t.len() > 0 {
                Some(t)
            } else {
                None
            }
        },
        None => None,
    }
}



/// The chat provider for one call, from the raw stored settings (provider,
/// model, local server address, local think flag), the stored OpenAI key and
/// the OpenAI API base URL: `ollama` runs on the local server and needs a
/// chat-capable model; any other provider (default `openai`) needs the key
/// and falls back to the default model.
pub fn resolve_chat(
    provider: Option<&str>,
    model: Option<&str>,
    local_base_url: Option<&str>,
    local_think: Option<&str>,
    openai_api_key: Option<&str>,
    openai_base: &str,
) -> (r: Result<ResolvedChat, String>)
    ensures
        match r {
            Ok(rc) => chat_resolution(
                str_opt(provider),
                str_opt(model),
                str_opt(local_base_url),
                str_opt(local_think),
                str_opt(openai_api_key),
                openai_base@,
            ) == Ok::<_, Seq<char>>(resolved_view(rc)),
            Err(m) => chat_resolution(
                str_opt(provider),
                str_opt(model),
                str_opt(local_base_url),
                str_opt(local_think),
                str_opt(openai_api_key),
                openai_base@,
            ) == Err::<(Seq<char>, Seq<char>, Seq<char>, Option<Seq<char>>, bool), Seq<char>>(m@),
        },
{
    let p = match read_setting(provider) {
        Some(v) => v,
        None => chars_of("openai"),
    };
    let m = read_setting(model);
    if crate::text::chars_eq(&p, &chars_of("ollama")) {
        let mv = match m {
            Some(mv) => mv,
            None => {
                return Err(string_of(&chars_of("No chat model configured \u{2014} pick one in Settings \u{2192} Chat.")));
            },
        };
        let ms = string_of(&mv);
        if is_embedding_model(ms.as_str()) {
            let mut e = chars_of("\u{201c}");
            extend_chars(&mut e, &mv);
            extend_chars(
                &mut e,
                &chars_of("\u{201d} is an embedding model and can't chat \u{2014} pick a chat model in Settings \u{2192} Chat."),
            );
            return Err(string_of(&e));
        }
        let base = match read_setting(local_base_url) {
            Some(b) => b,
            None => chars_of(DEFAULT_LOCAL_LLM_BASE_URL),
        };
        Ok(ResolvedChat {
            provider: string_of(&p),
            base_url: string_of(&base),
            model: ms,
            api_key: None,
            think: says_true_exec(local_think),
        })
    } else {
        match openai_api_key {
            Some(k) => {
                let kv = chars_of(k);
                if kv.len() == 0 {
                    return Err(string_of(&chars_of("OpenAI API key not set \u{2014} add one in Settings \u{2192} Chat.")));
                }
                let model_v = match m {
                    Some(mv) => mv,
                    None => chars_of(DEFAULT_CHAT_MODEL),
                };
                Ok(ResolvedChat {
                    provider: string_of(&p),
                    base_url: string_of(&chars_of(openai_base)),
                    model: string_of(&model_v),
                    api_key: Some(string_of(&kv)),
                    think: false,
                })
            },
            None => Err(string_of(&chars_of("OpenAI API key not set \u{2014} add one in Settings \u{2192} Chat."))),
        }
    }
}

/// An optional string as plain characters.
pub open spec fn str_opt(s: Option<&str>) -> Option<Seq<char>> {
    match s {
        Some(x) => Some(x@),
        None => None,
    }
}

/// Where and how note text is embedded.
#[derive(Debug)]
pub struct EmbedConfig {
    pub provider: String,
    pub model: String,
    pub base_url: String,
    pub api_key: Option<String>,
}

/// The embedding config that follows the chat provider: local chat embeds
/// with `OLLAMA_EMBED_MODEL` on the same server and no key; any other
/// provider embeds with `OPENAI_EMBED_MODEL` on the same base URL and key.
pub fn resolve_embed(resolved: &ResolvedChat) -> (r: EmbedConfig)
    ensures
        r.base_url@ == resolved.base_url@,
        resolved.provider@ == "ollama"@ ==> r.provider@ == "ollama"@ && r.model@
            == OLLAMA_EMBED_MODEL@ && r.api_key is None,
        resolved.provider@ != "ollama"@ ==> r.provider@ == "openai"@ && r.model@
            == OPENAI_EMBED_MODEL@ && r.api_key == resolved.api_key,
{
    let p = chars_of(resolved.provider.as_str());
    if crate::text::chars_eq(&p, &chars_of("ollama")) {
        EmbedConfig {
            provider: "ollama".to_owned(),
            model: OLLAMA_EMBED_MODEL.to_owned(),
            base_url: resolved.base_url.clone(),
            api_key: None,
        }
    } else {
        EmbedConfig {
            provider: "openai".to_owned(),
            model: OPENAI_EMBED_MODEL.to_owned(),
            base_url: resolved.base_url.clone(),
            api_key: crate::types::copy_opt_string(&resolved.api_key),
        }
    }
}

/// Synchronous result of sending a chat turn: which conversation it landed
/// in and whether its grounding had to be truncated.
#[derive(Debug)]
pub struct ChatSendResult {
    pub conversation_id: String,
    pub truncated: bool,
}

/// One row of a note's conversation list.
#[derive(Debug)]
pub struct ConversationMeta {
    pub id: String,
    pub title: String,
    pub breadth: String,
    /// The pinned authorship filter's user id, empty for none.
    pub owner_filter: String,
    pub updated_at: i64,
    pub message_count: i64,
}

} // verus!
