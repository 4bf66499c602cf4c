//! The cloud account and workspace layer: what the UI is shown about the
//! signed-in user and workspaces, and guards on server-controlled values.
use vstd::prelude::*;
use crate::labels::seqs_of_strings;
use crate::text::{all_ws, chars_eq, chars_of, contains_chars, contains_sub, is_blank, pos_of, string_of};

verus! {

/// The signed-in user as the UI sees it.
#[derive(Debug, Clone)]
pub struct CloudUser {
    pub id: String,
    pub email: String,
    pub name: String,
    /// Whether the user has confirmed their email.
    pub verified: bool,
}

/// One workspace the user belongs to.
#[derive(Debug, Clone)]
pub struct CloudWorkspace {
    pub id: String,
    pub name: String,
    pub role: String,
    /// Subscription status: "active", "trialing", "past_due", "canceled" or "none".
    pub plan_status: String,
    /// Billed seats, when the server reports a usable count.
    pub seats: Option<u32>,
}

/// The managed chat add-on the server advertises.
#[derive(Debug, Default, PartialEq, Eq)]
pub struct ChatAddon {
    pub available: bool,
    pub price_id: Option<String>,
    pub price_cents: Option<u32>,
    pub currency: Option<String>,
}

/// Everything the account screen shows about the cloud connection.
#[derive(Debug)]
pub struct CloudStatus {
    /// A server URL is configured.
    pub configured: bool,
    /// A valid session is held or can be acquired.
    pub logged_in: bool,
    pub base_url: String,
    pub user: Option<CloudUser>,
    pub current_workspace: Option<CloudWorkspace>,
    pub workspaces: Vec<CloudWorkspace>,
    /// The server enforces billing.
    pub billing_enabled: bool,
    /// Per-seat price in the smallest currency unit.
    pub seat_price_cents: Option<u32>,
    /// Lowercase ISO currency of `seat_price_cents`.
    pub seat_currency: Option<String>,
    pub chat_addon: Option<ChatAddon>,
}

/// One member of a workspace.
#[derive(Debug)]
pub struct CloudMember {
    pub id: String,
    pub email: String,
    pub name: String,
    pub role: String,
}

/// The teammate currently recording a note.
#[derive(Debug, Clone)]
pub struct RecordingLockStatus {
    pub holder_id: String,
    pub holder_name: String,
}

/// An authenticated cloud session.
#[derive(Debug)]
pub struct Session {
    pub token: String,
    pub user_id: String,
    pub email: String,
    pub name: String,
    pub verified: bool,
}

/// A character allowed in a server-controlled path segment: an ASCII
/// letter or digit, `.`, `_` or `-`.
pub open spec fn seg_char(c: char) -> bool {
    ('a' <= c <= 'z') || ('A' <= c <= 'Z') || ('0' <= c <= '9') || c == '.' || c == '_' || c
        == '-'
}

/// A server-controlled path segment that cannot traverse or rewrite a path:
/// non-empty, no `..`, only ASCII letters, digits, `.`, `_` and `-`.
pub open spec fn safe_segment(s: Seq<char>) -> bool {
    &&& s.len() > 0
    &&& !contains_sub(s, seq!['.', '.'])
    &&& forall|i: int| 0 <= i < s.len() ==> seg_char(#[trigger] s[i])
}

/// Whether a server-controlled path segment (a record id or stored file
/// name) is safe to use in a path.
pub fn safe_path_seg(s: &str) -> (b: bool)
    ensures
        b == safe_segment(s@),
{
    let v = chars_of(s);
    if v.len() == 0 {
        return false;
    }
    let dots: Vec<char> = vec!['.', '.'];
    assert(dots@ =~= seq!['.', '.']);
    if contains_chars(&v, &dots) {
        return false;
    }
    let mut i: usize = 0;
    while i < v.len()
        invariant
            i <= v.len(),
            v@ == s@,
            v.len() > 0,
            !contains_sub(v@, seq!['.', '.']),
            forall|j: int| 0 <= j < i ==> seg_char(#[trigger] v@[j]),
        decreases v.len() - i,
    {
        let c = v[i];
        let ok = ('a' <= c && c <= 'z') || ('A' <= c && c <= 'Z') || ('0' <= c && c <= '9') || c
            == '.' || c == '_' || c == '-';
        if !ok {
            assert(!seg_char(v@[i as int]));
            return false;
        }
        i += 1;
    }
    true
}

/// The part of an email before its first `@` (all of it without one).
pub open spec fn email_local(email: Seq<char>) -> Seq<char> {
    let k = pos_of(email, '@');
    if k < 0 {
        email
    } else {
        email.take(k)
    }
}

/// How a teammate is named to others: their display name when it is not
/// blank, else the local part of their email when that is not empty, else
/// `a teammate`.
pub open spec fn shown_name(name: Seq<char>, email: Seq<char>) -> Seq<char> {
    if !all_ws(name) {
        name
    } else if email_local(email).len() > 0 {
        email_local(email)
    } else {
        "a teammate"@
    }
}

/// How the session's user is named to teammates (for example as the holder
/// of a recording lock).
pub fn display_name(s: &Session) -> (r: String)
    ensures
        r@ == shown_name(s.name@, s.email@),
{
    if !is_blank(&chars_of(s.name.as_str())) {
        return s.name.clone();
    }
    let e = chars_of(s.email.as_str());
    let local = match crate::text::find_char(&e, '@') {
        Some(k) => crate::text::slice_sub(&e, 0, k),
        None => e,
    };
    proof {
        crate::text::lemma_pos_of_props(s.email@, '@');
        if pos_of(s.email@, '@') >= 0 {
            assert(local@ =~= s.email@.take(pos_of(s.email@, '@')));
        }
    }
    if local.len() > 0 {
        string_of(&local)
    } else {
        string_of(&chars_of("a teammate"))
    }
}

/// A recording session record pulled from the server.
#[derive(Debug)]
pub struct RemoteSession {
    pub pb_id: String,
    /// The client-side session id, used as a path segment on disk.
    pub client_id: String,
    pub index: u32,
    pub started_at_ms: i64,
    pub duration_ms: u64,
    pub streams: Vec<String>,
    pub deleted: bool,
    /// Stored file name per file field; empty when the field is unset.
    pub files: Vec<(String, String)>,
}

/// Indices `< n` of the records whose `client_id` is a safe path segment.
pub open spec fn safe_upto(records: Seq<RemoteSession>, n: int) -> Seq<int>
    decreases n,
{
    if n <= 0 {
        seq![]
    } else {
        safe_upto(records, n - 1) + if safe_segment(records[n - 1].client_id@) {
            seq![n - 1]
        } else {
            seq![]
        }
    }
}

/// Drop every pulled session record whose server-controlled `client_id`
/// is not a safe path segment (it is used verbatim as a directory name).
pub fn retain_safe_sessions(records: Vec<RemoteSession>) -> (r: Vec<RemoteSession>)
    ensures
        r.len() == safe_upto(records@, records@.len() as int).len(),
        forall|j: int|
            0 <= j < r.len() ==> #[trigger] r@[j] == records@[safe_upto(records@, records@.len() as int)[j]],
{
    let ghost orig = records@;
    let mut out: Vec<RemoteSession> = Vec::new();
    let mut rest = records;
    let mut taken: Vec<RemoteSession> = Vec::new();
    // Take the records from the back so each can be moved, then restore order.
    let n = rest.len();
    let mut k: usize = n;
    while k > 0
        invariant
            k <= n,
            n == orig.len(),
            rest@ == orig.take(k as int),
            taken.len() == n - k,
            forall|j: int| 0 <= j < taken.len() ==> #[trigger] taken@[j] == orig[n - 1 - j],
        decreases k,
    {
        let x = rest.pop().unwrap();
        assert(orig.take(k as int).drop_last() =~= orig.take(k - 1));
        taken.push(x);
        k -= 1;
    }
    let mut i: usize = 0;
    while i < n
        invariant
            i <= n,
            n == orig.len(),
            taken.len() == n - i,
            forall|j: int| 0 <= j < taken.len() ==> #[trigger] taken@[j] == orig[n - 1 - j],
            out.len() == safe_upto(orig, i as int).len(),
            forall|j: int| 0 <= j < out.len() ==> #[trigger] out@[j] == orig[safe_upto(orig, i as int)[j]],
        decreases n - i,
    {
        assert(taken@[taken.len() - 1] == orig[i as int]);
        let x = taken.pop().unwrap();
        assert(x == orig[i as int]);
        let keep = safe_path_seg(x.client_id.as_str());
        if keep {
            out.push(x);
        }
        assert forall|j: int| 0 <= j < out.len() implies #[trigger] out@[j] == orig[safe_upto(orig, i + 1)[j]] by {
            if j < safe_upto(orig, i as int).len() {
                assert(safe_upto(orig, i + 1)[j] == safe_upto(orig, i as int)[j]);
            }
        }
        i += 1;
    }
    out
}

// ---------------------------------------------------------------------------
// Provider keys
// ---------------------------------------------------------------------------

/// Outcome of testing a provider API key.
#[derive(Debug)]
pub struct TestResult {
    pub ok: bool,
    pub status: u16,
    pub error: Option<String>,
}

/// A user's role in a workspace record: `owner` when they own it, else
/// `admin` or `viewer` when listed so, else `member`.
pub open spec fn role_of(
    owner: Option<Seq<char>>,
    admins: Seq<Seq<char>>,
    viewers: Seq<Seq<char>>,
    user_id: Seq<char>,
) -> Seq<char> {
    if owner == Some(user_id) {
        "owner"@
    } else if admins.contains(user_id) {
        "admin"@
    } else if viewers.contains(user_id) {
        "viewer"@
    } else {
        "member"@
    }
}

fn listed(ids: &[String], user_id: &Vec<char>) -> (b: bool)
    ensures
        b == seqs_of_strings(ids@).contains(user_id@),
{
    let mut i: usize = 0;
    while i < ids.len()
        invariant
            i <= ids.len(),
            forall|j: int| 0 <= j < i ==> (#[trigger] ids@[j])@ != user_id@,
        decreases ids.len() - i,
    {
        if chars_eq(&chars_of(ids[i].as_str()), user_id) {
            assert(seqs_of_strings(ids@)[i as int] == user_id@);
            return true;
        }
        i += 1;
    }
    assert forall|j: int| 0 <= j < ids.len() implies seqs_of_strings(ids@)[j] != user_id@ by {
        assert(seqs_of_strings(ids@)[j] == ids@[j]@);
    }
    false
}

/// A user's role in a workspace from the record's owner, admin and viewer
/// ids.
pub fn derive_role(owner: Option<&str>, admins: &[String], viewers: &[String], user_id: &str) -> (r: String)
    ensures
        r@ == role_of(
            match owner {
                Some(o) => Some(o@),
                None => None,
            },
            seqs_of_strings(admins@),
            seqs_of_strings(viewers@),
            user_id@,
        ),
{
    let uid = chars_of(user_id);
    let is_owner = match owner {
        Some(o) => chars_eq(&chars_of(o), &uid),
        None => false,
    };
    if is_owner {
        return string_of(&chars_of("owner"));
    }
    if listed(admins, &uid) {
        return string_of(&chars_of("admin"));
    }
    if listed(viewers, &uid) {
        return string_of(&chars_of("viewer"));
    }
    string_of(&chars_of("member"))
}

/// Why a direct cloud request produced no JSON body: a transport or session
/// failure, already a user-facing message; or a non-2xx response with its
/// HTTP status code and the server's `{reason, error}` pair.
#[derive(Debug)]
pub enum CloudReqError {
    Unreachable(String),
    Status { status: u16, reason: String, server_message: String },
}

impl CloudReqError {
    /// True only for a 404: the endpoint is not on this server.
    pub fn is_not_found(&self) -> (b: bool)
        ensures
            b == (*self matches CloudReqError::Status { status, .. } && status == 404),
    {
        match self {
            CloudReqError::Status { status, .. } => *status == 404,
            CloudReqError::Unreachable(_) => false,
        }
    }

    /// Render with the caller's error wording: a transport or session failure
    /// passes through verbatim, a server status hands its reason and message
    /// to `map`.
    pub fn message<F: Fn(&str, &str) -> String>(self, map: F) -> (r: String)
        requires
            forall|a: &str, b: &str| call_requires(map, (a, b)),
        ensures
            match self {
                CloudReqError::Unreachable(m) => r == m,
                CloudReqError::Status { reason, server_message, .. } => exists|a: &str, b: &str|
                    #![trigger call_ensures(map, (a, b), r)]
                    a@ == reason@ && b@ == server_message@ && call_ensures(map, (a, b), r),
            },
    {
        match self {
            CloudReqError::Unreachable(m) => m,
            CloudReqError::Status { reason, server_message, .. } => map(reason.as_str(), server_message.as_str()),
        }
    }
}

/// A provider id the key store accepts.
pub open spec fn known_provider(s: Seq<char>) -> bool {
    s == "openai"@ || s == "deepgram"@ || s == "groq"@ || s == "local"@
}

/// Map a provider string from the UI to a trusted static id: `openai`,
/// `deepgram`, `groq` and `local` map to themselves, anything else is
/// rejected.
pub fn canonical_provider_id(s: &str) -> (r: Option<&'static str>)
    ensures
        match r {
            Some(id) => known_provider(s@) && id@ == s@,
            None => !known_provider(s@),
        },
{
    let v = chars_of(s);
    let ids: [&'static str; 4] = ["openai", "deepgram", "groq", "local"];
    let mut i: usize = 0;
    while i < 4
        invariant
            i <= 4,
            ids@ == seq!["openai", "deepgram", "groq", "local"],
            v@ == s@,
            forall|j: int| 0 <= j < i ==> ids@[j]@ != s@,
        decreases 4 - i,
    {
        let c = chars_of(ids[i]);
        if crate::text::chars_eq(&v, &c) {
            return Some(ids[i]);
        }
        i += 1;
    }
    None
}

// ---------------------------------------------------------------------------
// Uploading a note's session assets
// ---------------------------------------------------------------------------

/// Whether a note's recorded sessions go to the cloud: never for a personal
/// note (no workspace), and not when the `sync_audio` setting is `false`.
pub fn session_upload_wanted(sync_audio: Option<&str>, workspace_id: &str) -> (b: bool)
    ensures
        b == (!(sync_audio matches Some(v) && v@ == "false"@) && workspace_id@.len() > 0),
{
    let off = match sync_audio {
        Some(v) => crate::text::chars_eq(&chars_of(v), &chars_of("false")),
        None => false,
    };
    let ws = chars_of(workspace_id);
    !off && ws.len() > 0
}

/// Every local session id is among the remote records' client ids.
pub fn sessions_synced(wanted: &[String], have: &[String]) -> (b: bool)
    ensures
        b == forall|i: int| 0 <= i < wanted.len() ==> seqs_of_strings(have@).contains(#[trigger] wanted@[i]@),
{
    let mut i: usize = 0;
    while i < wanted.len()
        invariant
            i <= wanted.len(),
            forall|k: int| 0 <= k < i ==> seqs_of_strings(have@).contains(#[trigger] wanted@[k]@),
        decreases wanted.len() - i,
    {
        let w = chars_of(wanted[i].as_str());
        let mut j: usize = 0;
        let mut found = false;
        while j < have.len()
            invariant
                j <= have.len(),
                w@ == wanted@[i as int]@,
                found ==> seqs_of_strings(have@).contains(w@),
                !found ==> forall|m: int| 0 <= m < j ==> have@[m]@ != w@,
            decreases have.len() - j,
        {
            if !found && crate::text::chars_eq(&chars_of(have[j].as_str()), &w) {
                found = true;
                assert(seqs_of_strings(have@)[j as int] == w@);
            }
            j += 1;
        }
        if !found {
            assert forall|m: int| 0 <= m < seqs_of_strings(have@).len() implies seqs_of_strings(have@)[m] != w@ by {
                assert(seqs_of_strings(have@)[m] == have@[m]@);
            }
            return false;
        }
        i += 1;
    }
    true
}

/// How many times the upload looks for a remote record before it stops.
pub const SYNC_WAIT_ROUNDS: u32 = 20;

/// The pause between two looks, in milliseconds.
pub const SYNC_WAIT_PAUSE_MS: u64 = 1500;

/// What the upload does after one look for the remote records it needs.
#[derive(Debug, Clone, Copy, PartialEq, Eq, Structural)]
pub enum SyncWait {
    /// They are there: go on.
    Proceed,
    /// Not yet: pause `SYNC_WAIT_PAUSE_MS` and look again.
    Retry,
    /// Still missing after `SYNC_WAIT_ROUNDS` looks: stop waiting.
    GiveUp,
}

/// The decision after look number `round` (counting from 0): go on once the
/// records are found, else look again until `SYNC_WAIT_ROUNDS` looks have
/// been made.
pub fn sync_wait_step(round: u32, found: bool) -> (r: SyncWait)
    ensures
        r == (if found {
            SyncWait::Proceed
        } else if round + 1 < SYNC_WAIT_ROUNDS {
            SyncWait::Retry
        } else {
            SyncWait::GiveUp
        }),
{
    if found {
        SyncWait::Proceed
    } else if round < SYNC_WAIT_ROUNDS - 1 {
        SyncWait::Retry
    } else {
        SyncWait::GiveUp
    }
}

} // verus!
