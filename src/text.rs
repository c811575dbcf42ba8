//! Cutting a `str` after a number of characters in constant time, by byte
//! offsets proved to fall on character boundaries.
use vstd::prelude::*;
use vstd::utf8::{
    char_is_scalar, encode_scalar, encode_utf8, encode_utf8_decode_utf8, encode_utf8_first_scalar,
    encode_utf8_valid_utf8, is_char_boundary, length_of_first_scalar, pop_first_scalar,
};
use vstd::string::StringSliceAdditionalSpecFns;

verus! {

/// The number of bytes that UTF-8 takes for `c`.
pub fn utf8_width(c: char) -> (r: usize)
    ensures
        r == encode_scalar(c as u32).len(),
{
    proof {
        char_is_scalar(c);
    }
    let u = c as u32;
    if u <= 0x7f {
        1
    } else if u <= 0x7ff {
        2
    } else if u <= 0xffff {
        3
    } else {
        4
    }
}

/// The UTF-8 encoding of a prefix of `cs` is a prefix of its encoding, and
/// ends on a character boundary.
pub proof fn lemma_encode_prefix(cs: Seq<char>, k: int)
    requires
        0 <= k <= cs.len(),
    ensures
        encode_utf8(cs) == encode_utf8(cs.subrange(0, k)) + encode_utf8(
            cs.subrange(k, cs.len() as int),
        ),
        is_char_boundary(encode_utf8(cs), encode_utf8(cs.subrange(0, k)).len() as int),
    decreases k,
{
    broadcast use encode_utf8_valid_utf8;

    if k == 0 {
        assert(cs.subrange(0, 0) =~= Seq::<char>::empty());
        assert(cs.subrange(0, cs.len() as int) =~= cs);
        assert(encode_utf8(cs.subrange(0, 0)) =~= Seq::<u8>::empty());
        assert(encode_utf8(cs) =~= Seq::<u8>::empty() + encode_utf8(cs));
    } else {
        let tail = cs.drop_first();
        lemma_encode_prefix(tail, k - 1);
        assert(cs.subrange(0, k).drop_first() =~= tail.subrange(0, k - 1));
        assert(cs.subrange(k, cs.len() as int) =~= tail.subrange(k - 1, tail.len() as int));
        assert(cs.subrange(0, k)[0] == cs[0]);
        let head = encode_scalar(cs[0] as u32);
        assert(encode_utf8(cs.subrange(0, k)) == head + encode_utf8(tail.subrange(0, k - 1)));
        assert(encode_utf8(cs) =~= encode_utf8(cs.subrange(0, k)) + encode_utf8(
            cs.subrange(k, cs.len() as int),
        ));
        let bytes = encode_utf8(cs);
        encode_utf8_first_scalar(cs);
        assert(pop_first_scalar(bytes) =~= encode_utf8(tail));
        assert(length_of_first_scalar(bytes) == head.len());
    }
}

/// The first character of `cs` takes as many bytes as its encoding.
pub proof fn lemma_encode_one(cs: Seq<char>)
    requires
        cs.len() >= 1,
    ensures
        encode_utf8(cs.subrange(0, 1)).len() == encode_scalar(cs[0] as u32).len(),
{
    let one = cs.subrange(0, 1);
    assert(one.drop_first() =~= Seq::<char>::empty());
    assert(encode_utf8(one.drop_first()) =~= Seq::<u8>::empty());
    assert(encode_utf8(one) == encode_scalar(one[0] as u32) + encode_utf8(one.drop_first()));
}

/// Encoding one more character adds the bytes of that character.
pub proof fn lemma_encode_extend(cs: Seq<char>, i: int)
    requires
        0 <= i < cs.len(),
    ensures
        encode_utf8(cs.subrange(0, i + 1)).len() == encode_utf8(cs.subrange(0, i)).len()
            + encode_scalar(cs[i] as u32).len(),
        encode_utf8(cs.subrange(0, i + 1)).len() <= encode_utf8(cs).len(),
{
    let x = cs.subrange(0, i + 1);
    lemma_encode_prefix(x, i);
    assert(x.subrange(0, i) =~= cs.subrange(0, i));
    lemma_encode_one(x.subrange(i, i + 1));
    assert(x.subrange(i, i + 1).subrange(0, 1) =~= x.subrange(i, i + 1));
    lemma_encode_prefix(cs, i + 1);
}

/// Cuts `s` after its first `k` characters, which take `n` bytes.
pub fn split_after<'a>(s: &'a str, Ghost(k): Ghost<int>, n: usize) -> (r: (&'a str, &'a str))
    requires
        0 <= k <= s@.len(),
        n == encode_utf8(s@.subrange(0, k)).len(),
    ensures
        r.0@ == s@.subrange(0, k),
        r.1@ == s@.subrange(k, s@.len() as int),
{
    proof {
        lemma_encode_prefix(s@, k);
    }
    let r = s.split_at(n);
    proof {
        let bytes = encode_utf8(s@);
        assert(r.0.spec_bytes() =~= encode_utf8(s@.subrange(0, k)));
        assert(r.1.spec_bytes() =~= encode_utf8(s@.subrange(k, s@.len() as int)));
        encode_utf8_decode_utf8(r.0@);
        encode_utf8_decode_utf8(r.1@);
        encode_utf8_decode_utf8(s@.subrange(0, k));
        encode_utf8_decode_utf8(s@.subrange(k, s@.len() as int));
    }
    r
}

} // verus!
