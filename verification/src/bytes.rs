//! Serialization of candidate values to the flat little-endian byte sequences
//! that back GPU buffers.

use vstd::bytes::spec_u32_to_le_bytes;
use vstd::bytes::u32_to_le_bytes;
use vstd::prelude::*;

verus! {

/// The little-endian serialization of a sequence of 32-bit words: four bytes
/// per word, in order.
pub open spec fn bytes_of_u32s(s: Seq<u32>) -> Seq<u8>
    decreases s.len(),
{
    if s.len() == 0 {
        Seq::empty()
    } else {
        spec_u32_to_le_bytes(s[0]) + bytes_of_u32s(s.drop_first())
    }
}

pub proof fn lemma_bytes_of_u32s_len(s: Seq<u32>)
    ensures
        bytes_of_u32s(s).len() == 4 * s.len(),
    decreases s.len(),
{
    if s.len() == 0 {
    } else {
        vstd::bytes::lemma_auto_spec_u32_to_from_le_bytes();
        lemma_bytes_of_u32s_len(s.drop_first());
    }
}

pub proof fn lemma_bytes_of_u32s_push(s: Seq<u32>, x: u32)
    ensures
        bytes_of_u32s(s.push(x)) == bytes_of_u32s(s) + spec_u32_to_le_bytes(x),
    decreases s.len(),
{
    let p = s.push(x);
    if s.len() == 0 {
        assert(p[0] == x);
        assert(p.drop_first() =~= Seq::<u32>::empty());
        assert(bytes_of_u32s(p.drop_first()) == Seq::<u8>::empty());
        assert(bytes_of_u32s(p) == spec_u32_to_le_bytes(x) + Seq::<u8>::empty());
        assert(bytes_of_u32s(s) == Seq::<u8>::empty());
        assert(bytes_of_u32s(p) =~= bytes_of_u32s(s) + spec_u32_to_le_bytes(x));
    } else {
        assert(p[0] == s[0]);
        assert(p.drop_first() =~= s.drop_first().push(x));
        lemma_bytes_of_u32s_push(s.drop_first(), x);
        assert(bytes_of_u32s(p) == spec_u32_to_le_bytes(s[0]) + (bytes_of_u32s(s.drop_first())
            + spec_u32_to_le_bytes(x)));
        assert(bytes_of_u32s(p) =~= bytes_of_u32s(s) + spec_u32_to_le_bytes(x));
    }
}

/// Law (round trip): serialization is injective, so together with the
/// contracts of [`serialize_u32s`] and [`deserialize_u32s`] — a serialized
/// vector always deserializes, and whatever deserializes re-serializes to
/// the same bytes — reading back a serialized vector yields exactly the
/// words that went in.
pub proof fn lemma_bytes_of_u32s_injective(a: Seq<u32>, b: Seq<u32>)
    requires
        bytes_of_u32s(a) == bytes_of_u32s(b),
    ensures
        a == b,
    decreases a.len(),
{
    lemma_bytes_of_u32s_len(a);
    lemma_bytes_of_u32s_len(b);
    vstd::bytes::lemma_auto_spec_u32_to_from_le_bytes();
    if a.len() == 0 {
        assert(a =~= b);
    } else {
        let bs = bytes_of_u32s(a);
        assert(bs == spec_u32_to_le_bytes(a[0]) + bytes_of_u32s(a.drop_first()));
        assert(bs == spec_u32_to_le_bytes(b[0]) + bytes_of_u32s(b.drop_first()));
        assert(spec_u32_to_le_bytes(a[0]) =~= bs.subrange(0, 4));
        assert(spec_u32_to_le_bytes(b[0]) =~= bs.subrange(0, 4));
        assert(a[0] == vstd::bytes::spec_u32_from_le_bytes(spec_u32_to_le_bytes(a[0])));
        assert(a[0] == b[0]);
        assert(bytes_of_u32s(a.drop_first()) =~= bs.subrange(4, bs.len() as int));
        assert(bytes_of_u32s(b.drop_first()) =~= bs.subrange(4, bs.len() as int));
        lemma_bytes_of_u32s_injective(a.drop_first(), b.drop_first());
        assert(a.len() == b.len());
        assert forall|i: int| 0 <= i < a.len() implies a[i] == b[i] by {
            if i > 0 {
                assert(a.drop_first()[i - 1] == a[i]);
                assert(b.drop_first()[i - 1] == b[i]);
            }
        };
        assert(a =~= b);
    }
}

/// Serializes a vector of 32-bit words to little-endian bytes.
pub fn serialize_u32s(v: &Vec<u32>) -> (r: Vec<u8>)
    ensures
        r@ == bytes_of_u32s(v@),
        r@.len() == 4 * v@.len(),
{
    let mut r: Vec<u8> = Vec::new();
    let mut i: usize = 0;
    while i < v.len()
        invariant
            i <= v@.len(),
            r@ == bytes_of_u32s(v@.subrange(0, i as int)),
        decreases v@.len() - i,
    {
        let word = u32_to_le_bytes(v[i]);
        let mut k: usize = 0;
        while k < 4
            invariant
                k <= 4,
                word@ == spec_u32_to_le_bytes(v@[i as int]),
                word@.len() == 4,
                i < v@.len(),
                r@ == bytes_of_u32s(v@.subrange(0, i as int)) + word@.subrange(0, k as int),
            decreases 4 - k,
        {
            r.push(word[k]);
            assert(word@.subrange(0, k + 1) =~= word@.subrange(0, k as int).push(word@[k as int]));
            assert(r@ =~= bytes_of_u32s(v@.subrange(0, i as int)) + word@.subrange(0, k + 1));
            k += 1;
        }
        proof {
            lemma_bytes_of_u32s_push(v@.subrange(0, i as int), v@[i as int]);
            assert(v@.subrange(0, i + 1) =~= v@.subrange(0, i as int).push(v@[i as int]));
            assert(word@.subrange(0, 4) =~= word@);
            assert(r@ =~= bytes_of_u32s(v@.subrange(0, i + 1)));
        }
        i += 1;
    }
    proof {
        assert(v@.subrange(0, v@.len() as int) =~= v@);
        lemma_bytes_of_u32s_len(v@);
    }
    r
}

/// Reads back a serialized vector of 32-bit words.
pub fn deserialize_u32s(bytes: &Vec<u8>) -> (r: Option<Vec<u32>>)
    ensures
        bytes@.len() % 4 == 0 <==> r is Some,
        r matches Some(v) ==> bytes@ == bytes_of_u32s(v@),
{
    if bytes.len() % 4 != 0 {
        return None;
    }
    let n = bytes.len() / 4;
    let mut v: Vec<u32> = Vec::new();
    let mut i: usize = 0;
    while i < n
        invariant
            i <= n,
            n == bytes@.len() / 4,
            bytes@.len() % 4 == 0,
            bytes@.len() <= usize::MAX,
            v@.len() == i,
            bytes@.subrange(0, 4 * i as int) == bytes_of_u32s(v@),
        decreases n - i,
    {
        proof {
            vstd::arithmetic::div_mod::lemma_fundamental_div_mod(bytes@.len() as int, 4);
            assert(4 * (n as int) == bytes@.len());
            assert(4 * (i as int) + 3 < bytes@.len());
        }
        let mut word: Vec<u8> = Vec::new();
        word.push(bytes[4 * i]);
        word.push(bytes[4 * i + 1]);
        word.push(bytes[4 * i + 2]);
        word.push(bytes[4 * i + 3]);
        assert(word@ =~= bytes@.subrange(4 * i as int, 4 * i as int + 4));
        let x = vstd::bytes::u32_from_le_bytes(word.as_slice());
        proof {
            vstd::bytes::lemma_auto_spec_u32_to_from_le_bytes();
            assert(spec_u32_to_le_bytes(x) =~= bytes@.subrange(4 * i as int, 4 * i as int + 4));
            lemma_bytes_of_u32s_push(v@, x);
            assert(bytes@.subrange(0, 4 * (i + 1) as int) =~= bytes@.subrange(0, 4 * i as int)
                + bytes@.subrange(4 * i as int, 4 * i as int + 4));
        }
        v.push(x);
        assert(bytes@.subrange(0, 4 * (i + 1) as int) =~= bytes_of_u32s(v@));
        i += 1;
    }
    proof {
        assert(bytes@.subrange(0, 4 * (n as int)) =~= bytes@);
    }
    Some(v)
}

} // verus!
