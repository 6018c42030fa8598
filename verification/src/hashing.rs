//! Content digesting.
//!
//! A file's content fingerprint is its md5 digest: 16 bytes, a function of
//! the byte stream alone, so identical content always yields the identical
//! digest. The digest itself is computed by the `md5` crate; this module
//! wraps it behind a small trusted surface and builds the verified
//! incremental [`Hasher`] on top, so that feeding a stream chunk by chunk
//! provably digests the concatenation of the chunks.

use vstd::prelude::*;

verus! {

/// The md5 crate's incremental digest state, opaque to the verifier.
#[verifier::external_type_specification]
#[verifier::external_body]
pub struct ExMd5Context(md5::Context);

/// The 16-byte md5 digest of a byte sequence. The digest is a function of
/// the bytes alone, which is exactly what this name claims; what the bytes
/// map to is never stated, only computed by the `md5` crate.
pub uninterp spec fn md5_of(bytes: Seq<u8>) -> Seq<u8>;

/// The bytes a digest context has been fed since its creation. A context's
/// state is a function of these bytes alone.
pub uninterp spec fn consumed(c: md5::Context) -> Seq<u8>;

/// Relies on `md5::Context::new`: a fresh context has been fed nothing.
#[verifier::external_body]
fn ctx_new() -> (c: md5::Context)
    ensures
        consumed(c) == Seq::<u8>::empty(),
{
    md5::Context::new()
}

/// Relies on `md5::Context::consume`: feeding bytes appends them to what
/// the context has been fed.
#[verifier::external_body]
fn ctx_consume(c: &mut md5::Context, data: &[u8])
    ensures
        consumed(*final(c)) == consumed(*old(c)) + data@,
{
    c.consume(data);
}

/// Relies on `md5::Context::compute`: the digest is 16 bytes and depends
/// on the fed bytes alone.
#[verifier::external_body]
fn ctx_compute(c: md5::Context) -> (d: Vec<u8>)
    ensures
        d@ == md5_of(consumed(c)),
        d@.len() == 16,
{
    c.compute().0.to_vec()
}

/// Incremental content digest: feed a byte stream in chunks of any size,
/// then read off the digest of the whole stream.
pub struct Hasher {
    ctx: md5::Context,
}

impl View for Hasher {
    type V = Seq<u8>;

    /// The bytes fed so far.
    closed spec fn view(&self) -> Seq<u8> {
        consumed(self.ctx)
    }
}

impl Hasher {
    /// A hasher that has been fed nothing.
    pub fn new() -> (h: Hasher)
        ensures
            h@ == Seq::<u8>::empty(),
    {
        Hasher { ctx: ctx_new() }
    }

    /// Feed one chunk of the stream.
    pub fn update(&mut self, chunk: &[u8])
        ensures
            final(self)@ == old(self)@ + chunk@,
    {
        ctx_consume(&mut self.ctx, chunk);
    }

    /// The digest of everything fed.
    pub fn finish(self) -> (d: Vec<u8>)
        ensures
            d@ == md5_of(self@),
            d@.len() == 16,
    {
        ctx_compute(self.ctx)
    }
}

/// The digest of a byte string given whole.
pub fn digest_of_bytes(data: &[u8]) -> (d: Vec<u8>)
    ensures
        d@ == md5_of(data@),
        d@.len() == 16,
{
    let mut h = Hasher::new();
    h.update(data);
    assert(h@ =~= data@);
    h.finish()
}

/// The concatenation of a sequence of chunks.
pub open spec fn concat_of(chunks: Seq<Seq<u8>>) -> Seq<u8>
    decreases chunks.len(),
{
    if chunks.len() == 0 {
        Seq::empty()
    } else {
        concat_of(chunks.drop_last()) + chunks.last()
    }
}

/// The digest of a stream given as a sequence of chunks: the digest of
/// their concatenation, however the stream was cut.
pub fn digest_of_chunks(chunks: &Vec<Vec<u8>>) -> (d: Vec<u8>)
    ensures
        d@ == md5_of(concat_of(chunks@.map_values(|c: Vec<u8>| c@))),
        d@.len() == 16,
{
    let ghost all = chunks@.map_values(|c: Vec<u8>| c@);
    let mut h = Hasher::new();
    let mut i: usize = 0;
    while i < chunks.len()
        invariant
            i <= chunks.len(),
            all == chunks@.map_values(|c: Vec<u8>| c@),
            h@ == concat_of(all.take(i as int)),
        decreases chunks.len() - i,
    {
        h.update(chunks[i].as_slice());
        proof {
            assert(all.take(i + 1).drop_last() =~= all.take(i as int));
            assert(all.take(i + 1).last() == chunks@[i as int]@);
        }
        i = i + 1;
    }
    proof {
        assert(all.take(chunks@.len() as int) =~= all);
    }
    h.finish()
}

} // verus!
