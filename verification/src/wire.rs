//! Little-endian byte helpers and the lexicographic order on byte sequences
//! that governs map key ordering on the wire.

use vstd::bytes::spec_u32_from_le_bytes;
use vstd::bytes::spec_u32_to_le_bytes;
use vstd::bytes::u32_from_le_bytes;
use vstd::bytes::u32_to_le_bytes;
use vstd::prelude::*;

verus! {

/// Append every byte of `src` to `out`.
pub fn push_bytes(out: &mut Vec<u8>, src: &[u8])
    ensures
        final(out)@ == old(out)@ + src@,
{
    let ghost start = out@;
    let mut i: usize = 0;
    while i < src.len()
        invariant
            i <= src@.len(),
            out@ == start + src@.subrange(0, i as int),
        decreases src@.len() - i,
    {
        out.push(src[i]);
        assert(start + src@.subrange(0, i as int) + seq![src@[i as int]] =~= start
            + src@.subrange(0, i as int + 1));
        i = i + 1;
    }
    assert(start + src@.subrange(0, src@.len() as int) =~= start + src@);
}

/// Append the four-byte little-endian encoding of `v` to `out`.
pub fn push_u32_le(out: &mut Vec<u8>, v: u32)
    ensures
        final(out)@ == old(out)@ + spec_u32_to_le_bytes(v),
{
    let b = u32_to_le_bytes(v);
    push_bytes(out, b.as_slice());
}

/// Read the four bytes at `pos` as a little-endian unsigned 32-bit integer.
pub fn read_u32_at(bytes: &[u8], pos: usize) -> (v: u32)
    requires
        pos + 4 <= bytes@.len(),
    ensures
        v == spec_u32_from_le_bytes(bytes@.subrange(pos as int, pos as int + 4)),
{
    let n = bytes.len();
    assert(pos + 4 <= n);
    let s = vstd::slice::slice_subrange(bytes, pos, pos + 4);
    u32_from_le_bytes(s)
}

/// Copy `len` bytes starting at `start` into a fresh vector.
pub fn copy_range(bytes: &[u8], start: usize, len: usize) -> (out: Vec<u8>)
    requires
        start + len <= bytes@.len(),
    ensures
        out@ == bytes@.subrange(start as int, start as int + len as int),
{
    let mut out: Vec<u8> = Vec::new();
    let n = bytes.len();
    let mut i: usize = 0;
    while i < len
        invariant
            i <= len,
            n == bytes@.len(),
            start + len <= n,
            out@ == bytes@.subrange(start as int, start as int + i as int),
        decreases len - i,
    {
        out.push(bytes[start + i]);
        assert(bytes@.subrange(start as int, start as int + i as int) + seq![bytes@[start as int
            + i as int]] =~= bytes@.subrange(start as int, start as int + i as int + 1));
        i = i + 1;
    }
    out
}

/// Strict lexicographic order on byte sequences: the order in which a map's
/// keys appear on the wire.
pub open spec fn lex_less(a: Seq<u8>, b: Seq<u8>) -> bool
    decreases a.len(),
{
    if b.len() == 0 {
        false
    } else if a.len() == 0 {
        true
    } else if a[0] < b[0] {
        true
    } else if a[0] > b[0] {
        false
    } else {
        lex_less(a.drop_first(), b.drop_first())
    }
}

/// Exactly one of `lex_less(a, b)`, `lex_less(b, a)`, `a == b` holds.
pub proof fn lemma_lex_trichotomy(a: Seq<u8>, b: Seq<u8>)
    ensures
        lex_less(a, b) || lex_less(b, a) || a =~= b,
        lex_less(a, b) ==> !lex_less(b, a) && !(a =~= b),
        a =~= b ==> !lex_less(a, b),
    decreases a.len(),
{
    if a.len() == 0 || b.len() == 0 {
    } else if a[0] == b[0] {
        lemma_lex_trichotomy(a.drop_first(), b.drop_first());
        if a.drop_first() =~= b.drop_first() {
            assert forall|i: int| 0 <= i < a.len() implies a[i] == b[i] by {
                if i > 0 {
                    assert(a[i] == a.drop_first()[i - 1]);
                    assert(b[i] == b.drop_first()[i - 1]);
                }
            }
            assert(a =~= b);
        }
        if a =~= b {
            assert(a.drop_first() =~= b.drop_first());
        }
    }
}

/// The lexicographic order is transitive.
pub proof fn lemma_lex_transitive(a: Seq<u8>, b: Seq<u8>, c: Seq<u8>)
    requires
        lex_less(a, b),
        lex_less(b, c),
    ensures
        lex_less(a, c),
    decreases a.len(),
{
    if a.len() == 0 {
    } else if b.len() == 0 {
    } else if a[0] == b[0] && b[0] == c[0] {
        lemma_lex_transitive(a.drop_first(), b.drop_first(), c.drop_first());
    }
}

/// Three-way comparison result of two byte slices.
#[derive(Clone, Copy, PartialEq, Eq, Debug)]
pub enum ByteOrder {
    Less,
    Equal,
    Greater,
}

/// Compare two byte slices in lexicographic order.
pub fn lex_cmp(a: &[u8], b: &[u8]) -> (o: ByteOrder)
    ensures
        o == ByteOrder::Less ==> lex_less(a@, b@),
        o == ByteOrder::Greater ==> lex_less(b@, a@),
        o == ByteOrder::Equal ==> a@ == b@,
{
    let mut i: usize = 0;
    proof {
        assert(a@.subrange(0, a@.len() as int) =~= a@);
        assert(b@.subrange(0, b@.len() as int) =~= b@);
        assert(a@.subrange(0, 0) =~= b@.subrange(0, 0));
    }
    loop
        invariant
            i <= a@.len(),
            i <= b@.len(),
            a@.subrange(0, i as int) == b@.subrange(0, i as int),
            lex_less(a@, b@) == lex_less(a@.subrange(i as int, a@.len() as int), b@.subrange(i as int, b@.len() as int)),
            lex_less(b@, a@) == lex_less(b@.subrange(i as int, b@.len() as int), a@.subrange(i as int, a@.len() as int)),
        decreases a@.len() - i,
    {
        let a_done = i >= a.len();
        let b_done = i >= b.len();
        if a_done && b_done {
            proof {
                assert(a@ =~= a@.subrange(0, i as int));
                assert(b@ =~= b@.subrange(0, i as int));
            }
            return ByteOrder::Equal;
        }
        if a_done {
            return ByteOrder::Less;
        }
        if b_done {
            return ByteOrder::Greater;
        }
        let x = a[i];
        let y = b[i];
        if x < y {
            return ByteOrder::Less;
        }
        if x > y {
            return ByteOrder::Greater;
        }
        proof {
            let ra = a@.subrange(i as int, a@.len() as int);
            let rb = b@.subrange(i as int, b@.len() as int);
            assert(ra.drop_first() =~= a@.subrange(i as int + 1, a@.len() as int));
            assert(rb.drop_first() =~= b@.subrange(i as int + 1, b@.len() as int));
            assert(a@.subrange(0, i as int).push(a@[i as int]) =~= a@.subrange(0, i as int + 1));
            assert(b@.subrange(0, i as int).push(b@[i as int]) =~= b@.subrange(0, i as int + 1));
        }
        i = i + 1;
    }
}

} // verus!
