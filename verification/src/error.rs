//! Failure conditions shared by the codec, the indexed view and the patch
//! engine.

use vstd::prelude::*;

verus! {

/// Everything that can go wrong while decoding, encoding or patching a
/// keyframe-motion graph.
///
/// - `Format`: malformed binary input (truncation, a magic mismatch, an
///   unknown transition code, or bytes that are not valid UTF-8).
/// - `Encoding`: a value that the wire format cannot carry (a non-ASCII
///   string, or a sequence too long for its 4-byte count).
/// - `DuplicateId`: two clips, or two transitions of one clip, share the
///   carried id while the indexed view is built.
/// - `Conflict`: an `add` instruction targets the carried id, which already
///   exists.
/// - `NotFound`: an instruction resolved the carried id but no record with
///   that id exists any more.
///
/// An error carries its kind and, where one id explains it, that id. A
/// failure is localized not by a message chain but by the contract of the
/// function that returns it, which pins for every input exactly which
/// error comes back.
#[derive(Clone, Copy, PartialEq, Eq, Structural, Debug)]
pub enum KfmError {
    Format,
    Encoding,
    DuplicateId(u32),
    Conflict(u32),
    NotFound(u32),
}

} // verus!
