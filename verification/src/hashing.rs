//! The 20-byte content identifier, computed over the exact original bytes
//! of a span of the input buffer — never over a re-encoding.

use vstd::prelude::*;

verus! {

/// The 20-byte digest the announce protocol identifies content by: a pure
/// function of the hashed bytes alone, the same in every process and on
/// every machine.
pub uninterp spec fn sha1_of(b: Seq<u8>) -> Seq<u8>;

/// Relies on `sha1::Sha1` through `digest::Digest::digest`: the digest is
/// 20 bytes and depends on the input bytes alone.
#[verifier::external_body]
fn sha1_digest(data: &Vec<u8>) -> (r: Vec<u8>)
    ensures
        r@ == sha1_of(data@),
        r@.len() == 20,
{
    <sha1::Sha1 as sha1::Digest>::digest(data.as_slice()).to_vec()
}

/// Computes the content identifier over `bytes[start..end]`: the verbatim
/// bytes of that span, exactly as they stand in the original buffer.
pub fn compute(bytes: &Vec<u8>, start: usize, end: usize) -> (r: Vec<u8>)
    requires
        start <= end <= bytes@.len(),
    ensures
        r@ == sha1_of(bytes@.subrange(start as int, end as int)),
        r@.len() == 20,
{
    let mut region: Vec<u8> = Vec::new();
    let mut i: usize = start;
    assert(region@ =~= bytes@.subrange(start as int, start as int));
    while i < end
        invariant
            start <= i <= end <= bytes@.len(),
            region@ == bytes@.subrange(start as int, i as int),
        decreases end - i,
    {
        region.push(bytes[i]);
        assert(region@ =~= bytes@.subrange(start as int, i + 1 as int));
        i = i + 1;
    }
    sha1_digest(&region)
}

/// The content identifier depends only on the bytes inside the span: two
/// buffers that agree on `[start, end)` get the same identifier, however
/// much they differ outside it; and a fixed buffer gets the same identifier
/// on every computation.
pub proof fn lemma_content_id_depends_on_span_only(b1: Seq<u8>, b2: Seq<u8>, start: int, end: int)
    requires
        0 <= start <= end <= b1.len(),
        end <= b2.len(),
        b1.subrange(start, end) == b2.subrange(start, end),
    ensures
        sha1_of(b1.subrange(start, end)) == sha1_of(b2.subrange(start, end)),
{
}

} // verus!
