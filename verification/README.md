# humla_core

The verified core of a meeting recorder's transcript pipeline. Each public
function carries a contract (preconditions and postconditions) that the
verifier proves against its body.

## Layout

- `src/` — the library:
  - `text`, `types` — character-level helpers and the recording data
    (chunks, word timings, diarizer segments, labelled pieces);
  - `labels`, `numbering`, `diarize`, `hints`, `order` — speaker numbering
    from diarizer segments (with the proof that the two streams' labels never
    collide), per-capture-mode chunk splitting, speaker-count hints;
  - `capture`, `diagnostics` — the shared capture slot, what each diarize
    outcome does to the labels, re-diarize refusals, and the per-word
    speaker ids and bridge changes the diagnostics dump records;
  - `pieces`, `merge`, `transcript` — bridging short interjections,
    continuation chains, run-on sentence repair, echo removal and the
    labelled transcript;
  - `filters`, `intake` — hallucination, repetition-loop and caption-credit
    filters, the language vote, and the screening of each transcribed chunk;
  - `speakers`, `sessions`, `timeline`, `unify`, `renames`, `rerun` —
    multi-take notes: label offsets, session modes, the playback timeline,
    the note-wide unify pass, the carry-over of user renames, and the proof
    that running the pass again on its own output changes nothing;
  - `repair`, `edits` — transcript/timeline coverage, orphan repair and
    per-turn text edits;
  - `chat`, `cloud`, `roles`, `locks`, `notes` — chat provider, scopes,
    paging and session reuse, cloud account helpers, workspace membership and
    roles, the recording-lock claim protocol, note titles.
- `tests/` — integration tests run against the compiled library.
- `app/` — a small command-line front end that reads and writes timeline
  files and transcripts and hands the library plain values.
