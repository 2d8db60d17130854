//! Lower case.

use vstd::prelude::*;

verus! {

/// The lower-case form of an ASCII character.
pub open spec fn ascii_lower(c: char) -> char {
    if 'A' <= c <= 'Z' {
        (c as int + 32) as char
    } else {
        c
    }
}

/// The lower-case form of a text with characters outside ASCII, as
/// `str::to_lowercase` gives it.
pub uninterp spec fn unicode_lowercased(s: Seq<char>) -> Seq<char>;

/// The lower-case form of a text.
pub open spec fn lowercased(s: Seq<char>) -> Seq<char> {
    if vstd::utf8::is_ascii_chars(s) {
        s.map_values(|c: char| ascii_lower(c))
    } else {
        unicode_lowercased(s)
    }
}

/// `str::to_lowercase`: the lower-case form of `s`, which depends on `s` alone.
/// Of ASCII text it is claimed that the letters `A` to `Z` become `a` to `z`
/// and that every other character stays. What becomes of other text is only
/// given a name.
#[verifier::external_body]
pub(crate) fn to_lowercase(s: &str) -> (r: String)
    ensures
        vstd::utf8::is_ascii_chars(s@) ==> r@ == s@.map_values(|c: char| ascii_lower(c)),
        !vstd::utf8::is_ascii_chars(s@) ==> r@ == unicode_lowercased(s@),
{
    s.to_lowercase()
}

/// Whether a text is ASCII without capital letters.
pub open spec fn plain_lower(s: Seq<char>) -> bool {
    forall|i: int| 0 <= i < s.len() ==> '\0' <= #[trigger] s[i] <= '\x7f' && !('A' <= s[i] <= 'Z')
}

/// Lower case leaves ASCII text without capital letters as it is.
pub proof fn law_lower_case_stays(s: Seq<char>)
    requires
        plain_lower(s),
    ensures
        lowercased(s) == s,
{
    assert(vstd::utf8::is_ascii_chars(s));
    assert(lowercased(s) =~= s);
}

/// Each capital letter of an ASCII text gives its small letter, in its place, and
/// every other character stays.
pub proof fn law_lower_case_of_ascii(a: Seq<char>, c: char, b: Seq<char>)
    requires
        vstd::utf8::is_ascii_chars(a),
        vstd::utf8::is_ascii_chars(b),
        c <= '\x7f',
    ensures
        lowercased(a.push(c) + b) == lowercased(a).push(
            if 'A' <= c <= 'Z' {
                (c as int - 'A' as int + 'a' as int) as char
            } else {
                c
            },
        ) + lowercased(b),
{
    let s = a.push(c) + b;
    assert forall|i: int| 0 <= i < s.len() implies '\0' <= #[trigger] s[i] <= '\x7f' by {
        if i < a.len() {
            assert(s[i] == a[i]);
        } else if i > a.len() {
            assert(s[i] == b[i - a.len() - 1]);
        }
    }
    assert(vstd::utf8::is_ascii_chars(s));
    assert(lowercased(s) =~= lowercased(a).push(ascii_lower(c)) + lowercased(b));
}

/// Lower case is in lower case already, and makes no white space out of a
/// letter.
pub proof fn law_lower_case_of_lower_case(s: Seq<char>)
    requires
        vstd::utf8::is_ascii_chars(s),
    ensures
        lowercased(lowercased(s)) == lowercased(s),
        lowercased(s).len() == s.len(),
        plain_lower(lowercased(s)),
        forall|i: int|
            0 <= i < s.len() && !('a' <= lowercased(s)[i] <= 'z') ==> #[trigger] lowercased(s)[i]
                == s[i],
{
    let t = lowercased(s);
    assert forall|i: int| 0 <= i < t.len() implies '\0' <= #[trigger] t[i] <= '\x7f' && !('A'
        <= t[i] <= 'Z') by {
        assert('\0' <= s[i] <= '\x7f');
        assert(t[i] == ascii_lower(s[i]));
    }
    law_lower_case_stays(t);
}

} // verus!
