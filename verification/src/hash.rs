//! Content hashes.

use crate::numerals;
use vstd::prelude::*;

verus! {

broadcast use vstd::string::group_string_axioms;

/// The djb2 hash of a byte sequence: from 5381 on, each byte is added to
/// thirty-three times what came before, in 64 bits.
pub open spec fn djb2(bytes: Seq<u8>) -> nat
    decreases bytes.len(),
{
    if bytes.len() == 0 {
        5381
    } else {
        (djb2(bytes.drop_last()) * 33 + bytes.last() as nat) % 0x1_0000_0000_0000_0000
    }
}

/// The content hash of a text: the djb2 hash of its UTF-8 bytes as sixteen
/// hexadecimal digits.
pub open spec fn hash_text(s: Seq<char>) -> Seq<char> {
    numerals::hex_text(djb2(vstd::utf8::encode_utf8(s)), 16)
}

/// A content hash is sixteen lower-case hexadecimal digits.
pub proof fn law_hash_is_hexadecimal(s: Seq<char>)
    ensures
        hash_text(s).len() == 16,
        forall|i: int| 0 <= i < 16 ==> numerals::hex_digit(#[trigger] hash_text(s)[i]),
{
    numerals::law_hex_digits(djb2(vstd::utf8::encode_utf8(s)), 16);
}

/// The content hash of `s`.
pub fn content_hash(s: &str) -> (r: String)
    ensures
        r@ == hash_text(s@),
{
    let bytes = s.as_bytes();
    let mut h: u64 = 5381;
    let mut i: usize = 0;
    assert(bytes@.take(0) =~= seq![]);
    while i < bytes.len()
        invariant
            i <= bytes@.len(),
            h == djb2(bytes@.take(i as int)),
        decreases bytes@.len() - i,
    {
        assert(bytes@.take(i + 1).drop_last() =~= bytes@.take(i as int));
        h = h.wrapping_mul(33).wrapping_add(bytes[i] as u64);
        i += 1;
    }
    assert(bytes@.take(i as int) =~= bytes@);
    numerals::hex(h, 16)
}

// ---------------------------------------------------------------------------
// Laws
// ---------------------------------------------------------------------------

/// The number that the hash of a text writes.
pub open spec fn hash_value(s: Seq<char>) -> nat {
    numerals::value(hash_text(s), 16)
}

/// What one more byte makes of a hash: thirty-three times as much and the byte,
/// in 64 bits.
pub open spec fn next_value(h: nat, byte: u8) -> nat {
    (33 * h + byte as nat) % 0x1_0000_0000_0000_0000
}

proof fn lemma_hash_value(s: Seq<char>)
    ensures
        hash_value(s) == djb2(vstd::utf8::encode_utf8(s)),
        hash_value(s) < 0x1_0000_0000_0000_0000,
{
    numerals::law_hex_value(djb2(vstd::utf8::encode_utf8(s)));
}

proof fn lemma_encode_push(s: Seq<char>, c: char)
    ensures
        vstd::utf8::encode_utf8(s.push(c)) == vstd::utf8::encode_utf8(s)
            + vstd::utf8::encode_scalar(c as u32),
{
    crate::cut::lemma_encode_concat(s, seq![c]);
    assert(s + seq![c] =~= s.push(c));
    assert(seq![c].drop_first() =~= Seq::<char>::empty());
    assert(vstd::utf8::encode_utf8(Seq::<char>::empty()) =~= seq![]);
    assert(vstd::utf8::encode_utf8(seq![c]) =~= vstd::utf8::encode_scalar(c as u32));
}

proof fn lemma_djb2_push(bytes: Seq<u8>, b: u8)
    ensures
        djb2(bytes.push(b)) == next_value(djb2(bytes), b),
{
    assert(bytes.push(b).drop_last() =~= bytes);
}

/// Every byte counts: the hash of a text and one more character is that of the
/// text with each byte of the character taken in turn. The empty text has the
/// value 5381.
pub proof fn law_every_byte_counts(s: Seq<char>, c: char)
    ensures
        hash_value(seq![]) == 5381,
        ({
            let e = vstd::utf8::encode_scalar(c as u32);
            let h = next_value(hash_value(s), e[0]);
            &&& 1 <= e.len() <= 4
            &&& hash_value(s.push(c)) == (if e.len() == 1 {
                h
            } else if e.len() == 2 {
                next_value(h, e[1])
            } else if e.len() == 3 {
                next_value(next_value(h, e[1]), e[2])
            } else {
                next_value(next_value(next_value(h, e[1]), e[2]), e[3])
            })
        }),
        (c as nat) < 128 ==> hash_value(s.push(c)) == (33 * hash_value(s) + c as nat)
            % 0x1_0000_0000_0000_0000,
{
    lemma_hash_value(seq![]);
    assert(vstd::utf8::encode_utf8(Seq::<char>::empty()) =~= seq![]);
    lemma_hash_value(s);
    lemma_hash_value(s.push(c));
    lemma_encode_push(s, c);
    let e = vstd::utf8::encode_scalar(c as u32);
    let b0 = vstd::utf8::encode_utf8(s);
    let b1 = b0.push(e[0]);
    lemma_djb2_push(b0, e[0]);
    if e.len() == 1 {
        assert(b0 + e =~= b1);
    } else {
        let b2 = b1.push(e[1]);
        lemma_djb2_push(b1, e[1]);
        if e.len() == 2 {
            assert(b0 + e =~= b2);
        } else {
            let b3 = b2.push(e[2]);
            lemma_djb2_push(b2, e[2]);
            if e.len() == 3 {
                assert(b0 + e =~= b3);
            } else {
                lemma_djb2_push(b3, e[3]);
                assert(b0 + e =~= b3.push(e[3]));
            }
        }
    }
    if (c as nat) < 128 {
        assert(vstd::utf8::is_ascii_chars(seq![c]));
        vstd::utf8::is_ascii_chars_encode_utf8(seq![c]);
        assert(seq![c][0] as u8 == vstd::utf8::encode_utf8(seq![c])[0]);
        assert(seq![c].drop_first() =~= Seq::<char>::empty());
        assert(vstd::utf8::encode_utf8(seq![c]) =~= e);
    }
}

proof fn lemma_step_is_injective(a: u64, b: u64, byte: u8)
    requires
        next_value(a as nat, byte) == next_value(b as nat, byte),
    ensures
        a == b,
{
    assert((33 * a + byte) % 0x1_0000_0000_0000_0000 == (33 * b + byte) % 0x1_0000_0000_0000_0000
        ==> a == b) by (bit_vector);
}

proof fn lemma_difference_stays(x: Seq<u8>, y: Seq<u8>, b: Seq<u8>)
    requires
        djb2(x) != djb2(y),
        djb2(x) < 0x1_0000_0000_0000_0000,
        djb2(y) < 0x1_0000_0000_0000_0000,
    ensures
        djb2(x + b) != djb2(y + b),
    decreases b.len(),
{
    if b.len() == 0 {
        assert(x + b =~= x);
        assert(y + b =~= y);
    } else {
        let t = b.drop_last();
        lemma_difference_stays(x, y, t);
        lemma_djb2_push(x + t, b.last());
        lemma_djb2_push(y + t, b.last());
        assert((x + t).push(b.last()) =~= x + b);
        assert((y + t).push(b.last()) =~= y + b);
        if djb2(x + b) == djb2(y + b) {
            lemma_step_is_injective(djb2(x + t) as u64, djb2(y + t) as u64, b.last());
        }
    }
}

/// Texts with different hashes still have different hashes when the same text
/// follows both.
pub proof fn law_difference_stays(x: Seq<char>, y: Seq<char>, t: Seq<char>)
    requires
        hash_text(x) != hash_text(y),
    ensures
        hash_text(x + t) != hash_text(y + t),
{
    lemma_hash_value(x);
    lemma_hash_value(y);
    lemma_hash_value(x + t);
    lemma_hash_value(y + t);
    crate::cut::lemma_encode_concat(x, t);
    crate::cut::lemma_encode_concat(y, t);
    lemma_difference_stays(
        vstd::utf8::encode_utf8(x),
        vstd::utf8::encode_utf8(y),
        vstd::utf8::encode_utf8(t),
    );
}

/// An edit of one ASCII character shows in the hash, wherever in the text it is.
pub proof fn law_edits_show(a: Seq<char>, c: char, d: char, t: Seq<char>)
    requires
        (c as nat) < 128,
        (d as nat) < 128,
        c != d,
    ensures
        hash_text(a.push(c) + t) != hash_text(a.push(d) + t),
{
    law_every_byte_counts(a, c);
    law_every_byte_counts(a, d);
    lemma_hash_value(a);
    assert(hash_value(a.push(c)) != hash_value(a.push(d)));
    law_difference_stays(a.push(c), a.push(d), t);
}

} // verus!
