//! The recording data the transcript passes work on: chunks of transcribed
//! audio from the two capture streams, their word timings, the diarizer's
//! speaker segments, and the labelled pieces a chunk is split into.
use vstd::prelude::*;

verus! {

/// Which capture stream a chunk came from.
#[derive(Clone, Copy, Debug, PartialEq, Eq, Structural)]
pub enum ChunkSource {
    Mic,
    Sys,
}

/// One transcribed word with chunk-relative millisecond bounds.
#[derive(Debug)]
pub struct ChunkWord {
    pub text: String,
    pub start_ms: u64,
    pub end_ms: u64,
}

/// One VAD-bounded chunk of transcribed audio.
#[derive(Debug)]
pub struct ChunkRecord {
    pub source: ChunkSource,
    /// Stream-relative start of the chunk.
    pub start_ms: u64,
    pub text: String,
    pub words: Vec<ChunkWord>,
    /// Language the transcription provider detected for this chunk, if any.
    pub detected_language: Option<String>,
}

/// One diarizer segment: a stretch of a stream attributed to one speaker id.
#[derive(Debug)]
pub struct Segment {
    pub start_ms: u64,
    pub end_ms: u64,
    pub speaker_id: String,
}

/// One contiguous run of words within a chunk that belong to one speaker.
/// `words` stay chunk-relative and may be empty (whole-chunk fallback).
#[derive(Debug)]
pub struct LabelledPiece {
    pub label: Option<String>,
    pub text: String,
    pub words: Vec<ChunkWord>,
}

/// A copy of an optional `String`.
pub fn copy_opt_string(s: &Option<String>) -> (r: Option<String>)
    ensures
        r == *s,
{
    match s {
        Some(x) => Some(x.clone()),
        None => None,
    }
}

impl ChunkWord {
    /// A field-by-field copy.
    pub fn copy(&self) -> (r: ChunkWord)
        ensures
            r == *self,
    {
        ChunkWord { text: self.text.clone(), start_ms: self.start_ms, end_ms: self.end_ms }
    }
}

/// A copy of a word list.
pub fn copy_words(ws: &Vec<ChunkWord>) -> (r: Vec<ChunkWord>)
    ensures
        r@ == ws@,
{
    let mut r: Vec<ChunkWord> = Vec::new();
    let mut i: usize = 0;
    while i < ws.len()
        invariant
            i <= ws.len(),
            r@ == ws@.take(i as int),
        decreases ws.len() - i,
    {
        r.push(ws[i].copy());
        assert(ws@.take(i as int).push(ws@[i as int]) =~= ws@.take(i + 1));
        i += 1;
    }
    assert(ws@.take(ws.len() as int) =~= ws@);
    r
}

impl ChunkRecord {
    /// Same source, start, text, words and detected language.
    pub open spec fn same(self, o: ChunkRecord) -> bool {
        &&& self.source == o.source
        &&& self.start_ms == o.start_ms
        &&& self.text == o.text
        &&& self.words@ == o.words@
        &&& self.detected_language == o.detected_language
    }

    /// A field-by-field copy.
    pub fn copy(&self) -> (r: ChunkRecord)
        ensures
            r.same(*self),
    {
        ChunkRecord {
            source: self.source,
            start_ms: self.start_ms,
            text: self.text.clone(),
            words: copy_words(&self.words),
            detected_language: copy_opt_string(&self.detected_language),
        }
    }
}

impl LabelledPiece {
    /// Same label, text and words.
    pub open spec fn same(self, o: LabelledPiece) -> bool {
        &&& self.label == o.label
        &&& self.text == o.text
        &&& self.words@ == o.words@
    }

    /// A field-by-field copy.
    pub fn copy(&self) -> (r: LabelledPiece)
        ensures
            r.same(*self),
    {
        LabelledPiece {
            label: copy_opt_string(&self.label),
            text: self.text.clone(),
            words: copy_words(&self.words),
        }
    }
}

} // verus!
