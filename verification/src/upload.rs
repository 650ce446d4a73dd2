//! The owner's chunked upload of a model pack and its tokenizer: chunks are
//! written in order without gaps, a chunk already received may be sent again
//! only with the same bytes, and warm-up starts only on a complete upload whose
//! tokenizer matches the manifest.
use vstd::prelude::*;
use crate::pack::MAX_PACK_BYTES;
use crate::types::{digest_eq, hash, sha256, Digest, Error, SpecialTokens};

verus! {

/// Largest chunk accepted.
pub const MAX_CHUNK_BYTES: usize = 1048576;
/// Largest tokenizer accepted.
pub const MAX_TOKENIZER_BYTES: u64 = 33554432;

/// An upload in progress: the manifest, the byte counts of the pack and the
/// tokenizer stored after it, how much has arrived, and the tokenizer's special ids.
pub struct Upload {
    pub manifest: Vec<u8>,
    pub tokenizer_length: u64,
    pub model_length: u64,
    pub received: u64,
    pub special: SpecialTokens,
}

impl Upload {
    /// Bytes the whole upload takes.
    pub open spec fn total(&self) -> int {
        self.model_length + self.tokenizer_length
    }

    /// Lengths within their limits and the received prefix within the upload.
    pub open spec fn wf(&self) -> bool {
        &&& self.model_length <= MAX_PACK_BYTES && 0 < self.tokenizer_length <= MAX_TOKENIZER_BYTES
        &&& self.received <= self.total()
    }
}

/// Starts an upload of a pack whose validated manifest `manifest` declares
/// `model_length` bytes and the classification token id `cls_token_id`: the
/// tokenizer's `[CLS]` id must match it and the tokenizer must be 1 byte to
/// 32 MiB long. Returns the upload and the pack's bundle id, the manifest's hash.
pub fn begin_upload(
    manifest: Vec<u8>,
    model_length: u64,
    cls_token_id: u32,
    tokenizer_length: u64,
    special: SpecialTokens,
) -> (r: Result<(Upload, Digest), Error>)
    requires
        model_length <= MAX_PACK_BYTES,
    ensures
        special.cls != cls_token_id ==> r == Err::<(Upload, Digest), Error>(Error::BindingMismatch),
        special.cls == cls_token_id && (tokenizer_length == 0 || tokenizer_length > MAX_TOKENIZER_BYTES)
            ==> r == Err::<(Upload, Digest), Error>(Error::TooLong),
        r is Ok <==> special.cls == cls_token_id && 0 < tokenizer_length <= MAX_TOKENIZER_BYTES,
        r matches Ok((u, bundle)) ==> u.wf() && u.received == 0 && u.model_length == model_length
            && u.tokenizer_length == tokenizer_length && u.manifest@ == manifest@ && u.special == special
            && bundle@ == sha256(manifest@),
{
    if special.cls != cls_token_id {
        return Err(Error::BindingMismatch);
    }
    if tokenizer_length == 0 || tokenizer_length > MAX_TOKENIZER_BYTES {
        return Err(Error::TooLong);
    }
    let bundle = hash(manifest.as_slice());
    Ok((Upload { manifest, tokenizer_length, model_length, received: 0, special }, bundle))
}

/// What to do with a chunk.
#[derive(Debug, Clone, Copy, PartialEq, Eq, Structural)]
pub enum ChunkStep {
    /// Write the chunk at its offset; the upload then holds `end` bytes.
    Append { end: u64 },
    /// The chunk lies inside what arrived: compare it with the stored bytes.
    Replay,
}

/// The step for `len` bytes at `offset`: `TooLong` for an empty or oversized
/// chunk, one past the end of the upload, or an offset that overflows;
/// `Transition` with no upload; `IdConflict` for a chunk that straddles what
/// arrived; `NonceGap` for one that leaves a gap; else append or replay.
pub fn chunk_step(upload: &Option<Upload>, offset: u64, len: usize) -> (r: Result<ChunkStep, Error>)
    requires
        upload matches Some(u) ==> u.wf(),
    ensures
        len == 0 || len > MAX_CHUNK_BYTES ==> r == Err::<ChunkStep, Error>(Error::TooLong),
        0 < len <= MAX_CHUNK_BYTES && upload is None ==> r == Err::<ChunkStep, Error>(Error::Transition),
        0 < len <= MAX_CHUNK_BYTES && upload is Some ==> {
            let u = upload->Some_0;
            let end = offset + len;
            &&& end > u.total() ==> r == Err::<ChunkStep, Error>(Error::TooLong)
            &&& end <= u.total() && offset < u.received && end > u.received ==> r == Err::<ChunkStep, Error>(Error::IdConflict)
            &&& end <= u.total() && end <= u.received ==> r == Ok::<ChunkStep, Error>(ChunkStep::Replay)
            &&& end <= u.total() && offset > u.received ==> r == Err::<ChunkStep, Error>(Error::NonceGap)
            &&& end <= u.total() && offset == u.received ==> r == Ok::<ChunkStep, Error>(ChunkStep::Append { end: end as u64 })
        },
{
    if len == 0 || len > MAX_CHUNK_BYTES {
        return Err(Error::TooLong);
    }
    let u = match upload {
        Some(u) => u,
        None => {
            return Err(Error::Transition);
        },
    };
    if offset > u64::MAX - len as u64 {
        return Err(Error::TooLong);
    }
    let end = offset + len as u64;
    if end > u.model_length + u.tokenizer_length {
        return Err(Error::TooLong);
    }
    if offset < u.received {
        if end > u.received {
            return Err(Error::IdConflict);
        }
        return Ok(ChunkStep::Replay);
    }
    if offset != u.received {
        return Err(Error::NonceGap);
    }
    Ok(ChunkStep::Append { end })
}

impl Upload {
    /// Records an appended chunk: the upload now holds `end` bytes.
    pub fn commit(&mut self, end: u64)
        requires
            old(self).wf(),
            old(self).received < end <= old(self).total(),
        ensures
            final(self).wf(),
            final(self).received == end,
            final(self).model_length == old(self).model_length && final(self).tokenizer_length == old(self).tokenizer_length,
            final(self).manifest == old(self).manifest && final(self).special == old(self).special,
    {
        self.received = end;
    }

    /// The answer to a replayed chunk: what arrived so far when the stored
    /// bytes are the same, `IdConflict` otherwise.
    pub fn replay(&self, same: bool) -> (r: Result<u64, Error>)
        ensures
            same ==> r == Ok::<u64, Error>(self.received),
            !same ==> r == Err::<u64, Error>(Error::IdConflict),
    {
        if same { Ok(self.received) } else { Err(Error::IdConflict) }
    }

    /// Every byte has arrived.
    pub fn complete(&self) -> (r: bool)
        requires
            self.wf(),
        ensures
            r == (self.received == self.total()),
    {
        self.received == self.model_length + self.tokenizer_length
    }
}

/// Warm-up may start: an upload exists and is complete.
pub fn warmup_ready(upload: &Option<Upload>) -> (r: Result<(), Error>)
    requires
        upload is Some ==> upload->Some_0.wf(),
    ensures
        r is Ok <==> (upload is Some && upload->Some_0.received == upload->Some_0.total()),
        r matches Err(e) ==> e == Error::Transition,
{
    match upload {
        Some(u) => if u.complete() { Ok(()) } else { Err(Error::Transition) },
        None => Err(Error::Transition),
    }
}

/// The stored tokenizer is the one the manifest names.
pub fn check_tokenizer(bytes: &[u8], expected: &Digest) -> (r: Result<(), Error>)
    ensures
        r is Ok <==> sha256(bytes@) == expected@,
        r matches Err(e) ==> e == Error::BindingMismatch,
{
    let d = hash(bytes);
    if digest_eq(&d, expected) { Ok(()) } else { Err(Error::BindingMismatch) }
}

/// Appends never skip or rewrite bytes: an accepted append starts exactly
/// where the upload stands and leaves it longer, within the upload.
pub proof fn law_appends_are_gapless(u: Upload, offset: u64, len: usize, end: u64)
    requires
        u.wf(),
        0 < len <= MAX_CHUNK_BYTES,
        offset + len <= u.total(),
        offset == u.received,
        end == offset + len,
    ensures
        u.received < end <= u.total(),
{
}

} // verus!
