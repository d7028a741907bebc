//! Helpers of the command line: the label hash used to derive per-condition
//! seeds, and comma-separated lists.

use vstd::prelude::*;

use crate::text::{chars_of, seqs, split, split_chars, string_of, trim, trim_chars, Sep};

verus! {

/// The 64-bit FNV-1a offset basis.
pub const FNV_OFFSET: u64 = 0xcbf29ce484222325;

/// The 64-bit FNV-1a prime.
pub const FNV_PRIME: u64 = 0x100000001b3;

/// 64-bit FNV-1a of a byte string.
pub open spec fn fnv1a(bytes: Seq<u8>) -> u64
    decreases bytes.len(),
{
    if bytes.len() == 0 {
        FNV_OFFSET
    } else {
        vstd::wrapping::u64_specs::wrapping_mul(
            fnv1a(bytes.drop_last()) ^ (bytes.last() as u64),
            FNV_PRIME,
        )
    }
}

/// The hash of a label (FNV-1a over its UTF-8 bytes), an explicit identity
/// for deriving seeds.
pub fn label_hash(label: &str) -> (h: u64)
    ensures
        h == fnv1a(vstd::utf8::encode_utf8(label@)),
{
    let bytes = label.as_bytes();
    let mut h: u64 = FNV_OFFSET;
    for i in 0..bytes.len()
        invariant
            bytes@ == vstd::utf8::encode_utf8(label@),
            h == fnv1a(bytes@.take(i as int)),
    {
        assert(bytes@.take(i + 1).drop_last() =~= bytes@.take(i as int));
        h ^= bytes[i] as u64;
        h = h.wrapping_mul(FNV_PRIME);
    }
    assert(bytes@.take(bytes@.len() as int) =~= bytes@);
    h
}

/// The trimmed, non-empty items of comma-separated pieces.
pub open spec fn csv_items(pieces: Seq<Seq<char>>) -> Seq<Seq<char>>
    decreases pieces.len(),
{
    if pieces.len() == 0 {
        Seq::empty()
    } else {
        let r = csv_items(pieces.drop_last());
        let t = trim(pieces.last());
        if t.len() > 0 {
            r.push(t)
        } else {
            r
        }
    }
}

/// A comma-separated list: the items between commas, trimmed, with empty
/// items dropped.
pub fn split_csv(s: &str) -> (r: Vec<String>)
    ensures
        r.len() == csv_items(split(s@, Sep::Comma)).len(),
        forall|i: int|
            0 <= i < r.len() ==> (#[trigger] r[i])@ == csv_items(split(s@, Sep::Comma))[i],
{
    let pieces = split_chars(&chars_of(s), Sep::Comma);
    let ghost all = seqs(pieces@);
    let mut r: Vec<String> = Vec::new();
    for i in 0..pieces.len()
        invariant
            all == seqs(pieces@),
            all == split(s@, Sep::Comma),
            r.len() == csv_items(all.take(i as int)).len(),
            forall|j: int|
                0 <= j < r.len() ==> (#[trigger] r[j])@ == csv_items(all.take(i as int))[j],
    {
        assert(all.take(i + 1).drop_last() =~= all.take(i as int));
        assert(all.take(i + 1).last() == pieces[i as int]@);
        let t = trim_chars(&pieces[i]);
        if t.len() > 0 {
            r.push(string_of(&t));
        }
    }
    assert(all.take(all.len() as int) =~= all);
    r
}

} // verus!
