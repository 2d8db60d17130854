//! Cutting a `&str` at a character, in time proportional to what precedes it.

use vstd::prelude::*;
use vstd::utf8;

verus! {

broadcast use vstd::string::group_string_axioms;

/// The UTF-8 encoding of a concatenation is the concatenation of the encodings.
pub proof fn lemma_encode_concat(a: Seq<char>, b: Seq<char>)
    ensures
        utf8::encode_utf8(a + b) == utf8::encode_utf8(a) + utf8::encode_utf8(b),
    decreases a.len(),
{
    if a.len() == 0 {
        assert(a + b =~= b);
        assert(utf8::encode_utf8(a) + utf8::encode_utf8(b) =~= utf8::encode_utf8(b));
    } else {
        assert((a + b).drop_first() =~= a.drop_first() + b);
        lemma_encode_concat(a.drop_first(), b);
        let head = utf8::encode_scalar(a[0] as u32);
        let mid = utf8::encode_utf8(a.drop_first());
        let tail = utf8::encode_utf8(b);
        assert(head + (mid + tail) =~= (head + mid) + tail);
    }
}

/// Every character takes at least one byte.
pub proof fn lemma_encode_len(s: Seq<char>)
    ensures
        s.len() <= utf8::encode_utf8(s).len(),
    decreases s.len(),
{
    if s.len() > 0 {
        lemma_encode_len(s.drop_first());
    }
}

/// The encodings of two neighbouring texts meet at a character boundary.
proof fn lemma_boundary(a: Seq<char>, b: Seq<char>)
    ensures
        utf8::is_char_boundary(utf8::encode_utf8(a + b), utf8::encode_utf8(a).len() as int),
    decreases a.len(),
{
    let bytes = utf8::encode_utf8(a + b);
    utf8::encode_utf8_valid_utf8(a + b);
    if a.len() == 0 {
        utf8::is_char_boundary_start_end_of_seq(bytes);
    } else {
        utf8::encode_utf8_first_scalar(a + b);
        let rest = utf8::encode_utf8(a.drop_first() + b);
        assert((a + b).drop_first() =~= a.drop_first() + b);
        assert(utf8::pop_first_scalar(bytes) =~= rest);
        lemma_boundary(a.drop_first(), b);
        lemma_encode_concat(a, b);
    }
}

/// Texts with the same encoding are the same.
proof fn lemma_encode_injective(a: Seq<char>, b: Seq<char>)
    requires
        utf8::encode_utf8(a) == utf8::encode_utf8(b),
    ensures
        a == b,
{
    utf8::encode_utf8_decode_utf8(a);
    utf8::encode_utf8_decode_utf8(b);
}

/// How many bytes `c` takes in UTF-8.
fn width(c: char) -> (r: usize)
    ensures
        r == utf8::encode_scalar(c as u32).len(),
{
    let v = c as u32;
    if v < 0x80 {
        1
    } else if v < 0x800 {
        2
    } else if v < 0x10000 {
        3
    } else {
        4
    }
}

/// The first `n` characters of `s`, and what follows them.
pub fn split_chars(s: &str, n: usize) -> (r: (&str, &str))
    requires
        n <= s@.len(),
    ensures
        r.0@ == s@.take(n as int),
        r.1@ == s@.skip(n as int),
{
    let bytes = s.as_bytes();
    let mut it = s.chars();
    let mut mid: usize = 0;
    let mut i: usize = 0;
    assert(s@.take(0) =~= seq![]);
    assert(s@.skip(0) =~= s@);
    while i < n
        invariant
            bytes@ == utf8::encode_utf8(s@),
            i <= n <= s@.len(),
            vstd::std_specs::iter::IteratorSpec::obeys_prophetic_iter_laws(&it),
            vstd::std_specs::iter::IteratorSpec::remaining(&it) == s@.skip(i as int),
            mid == utf8::encode_utf8(s@.take(i as int)).len(),
        decreases n - i,
    {
        match it.next() {
            Some(c) => {
                proof {
                    let head = s@.take(i as int);
                    assert(c == s@[i as int]);
                    assert(s@.take(i + 1) =~= head + seq![c]);
                    lemma_encode_concat(head, seq![c]);
                    assert(seq![c].drop_first() =~= Seq::<char>::empty());
                    assert(utf8::encode_utf8(Seq::<char>::empty()) =~= seq![]);
                    assert(utf8::encode_utf8(seq![c]) =~= utf8::encode_scalar(c as u32));
                    assert(s@ =~= s@.take(i + 1) + s@.skip(i + 1));
                    lemma_encode_concat(s@.take(i + 1), s@.skip(i + 1));
                    assert(bytes.len() == bytes@.len());
                    assert(s@.skip(i as int).drop_first() =~= s@.skip(i + 1));
                }
                mid += width(c);
            },
            None => {
                assert(false);
            },
        }
        i += 1;
    }
    proof {
        let a = s@.take(n as int);
        let b = s@.skip(n as int);
        assert(s@ =~= a + b);
        lemma_boundary(a, b);
        lemma_encode_concat(a, b);
    }
    let r = s.split_at(mid);
    proof {
        let a = s@.take(n as int);
        let b = s@.skip(n as int);
        assert(utf8::encode_utf8(r.0@) =~= utf8::encode_utf8(a));
        assert(utf8::encode_utf8(r.1@) =~= utf8::encode_utf8(b));
        lemma_encode_injective(r.0@, a);
        lemma_encode_injective(r.1@, b);
    }
    r
}

} // verus!
