//! Text primitives. Each is a spec function on character sequences with an
//! executable counterpart on `&str`.

use crate::cut;
use vstd::prelude::*;

verus! {

broadcast use vstd::string::group_string_axioms;

// ---------------------------------------------------------------------------
// Characters
// ---------------------------------------------------------------------------

/// The Unicode property `White_Space`.
pub open spec fn white_space(c: char) -> bool {
    ||| '\u{9}' <= c <= '\u{d}'
    ||| c == ' '
    ||| c == '\u{85}'
    ||| c == '\u{a0}'
    ||| c == '\u{1680}'
    ||| '\u{2000}' <= c <= '\u{200a}'
    ||| c == '\u{2028}'
    ||| c == '\u{2029}'
    ||| c == '\u{202f}'
    ||| c == '\u{205f}'
    ||| c == '\u{3000}'
}

/// Whether `c` is white space.
pub fn is_whitespace(c: char) -> (r: bool)
    ensures
        r == white_space(c),
{
    ('\u{9}' <= c && c <= '\u{d}') || c == ' ' || c == '\u{85}' || c == '\u{a0}' || c == '\u{1680}'
        || ('\u{2000}' <= c && c <= '\u{200a}') || c == '\u{2028}' || c == '\u{2029}' || c
        == '\u{202f}' || c == '\u{205f}' || c == '\u{3000}'
}

/// The sets of characters at which text is trimmed or cut.
#[derive(Clone, Copy)]
pub enum CharSet {
    /// White space.
    Space,
    /// A single character.
    One(char),
    /// What ends a tag name: white space, `>` or `/`.
    TagNameEnd,
    /// What ends a declared name: white space, `=`, `:` or `;`.
    DeclarationNameEnd,
    /// What ends a function name: white space or `(`.
    FunctionNameEnd,
    /// What separates the parts of a path: `/` or `\`.
    PathSeparator,
}

impl CharSet {
    /// Whether `c` is in the set.
    pub open spec fn has(self, c: char) -> bool {
        match self {
            CharSet::Space => white_space(c),
            CharSet::One(d) => c == d,
            CharSet::TagNameEnd => white_space(c) || c == '>' || c == '/',
            CharSet::DeclarationNameEnd => white_space(c) || c == '=' || c == ':' || c == ';',
            CharSet::FunctionNameEnd => white_space(c) || c == '(',
            CharSet::PathSeparator => c == '/' || c == '\\',
        }
    }

    /// Whether `c` is in the set.
    pub fn contains(self, c: char) -> (r: bool)
        ensures
            r == self.has(c),
    {
        match self {
            CharSet::Space => is_whitespace(c),
            CharSet::One(d) => c == d,
            CharSet::TagNameEnd => is_whitespace(c) || c == '>' || c == '/',
            CharSet::DeclarationNameEnd => is_whitespace(c) || c == '=' || c == ':' || c == ';',
            CharSet::FunctionNameEnd => is_whitespace(c) || c == '(',
            CharSet::PathSeparator => c == '/' || c == '\\',
        }
    }
}

/// The characters of `s`, one by one.
pub fn chars_of(s: &str) -> (r: Vec<char>)
    ensures
        r@ == s@,
{
    let mut r: Vec<char> = Vec::new();
    for c in it: s.chars()
        invariant
            it.seq() == s@,
            r@ == s@.take(it.index() as int),
    {
        r.push(c);
    }
    r
}

/// Whether two texts hold the same characters.
pub fn same_text(a: &str, b: &str) -> (r: bool)
    ensures
        r == (a@ == b@),
{
    let x = chars_of(a);
    let y = chars_of(b);
    if x.len() != y.len() {
        return false;
    }
    let mut i: usize = 0;
    while i < x.len()
        invariant
            x@ == a@,
            y@ == b@,
            i <= x@.len(),
            x@.len() == y@.len(),
            forall|j: int| 0 <= j < i ==> x@[j] == y@[j],
        decreases x@.len() - i,
    {
        if x[i] != y[i] {
            assert(x@[i as int] != y@[i as int]);
            return false;
        }
        i += 1;
    }
    assert(x@ =~= y@);
    true
}

// ---------------------------------------------------------------------------
// Cutting at characters
// ---------------------------------------------------------------------------

/// How many characters precede the first one of `set` in `s`: all of them
/// where `s` has none.
pub open spec fn first_in(s: Seq<char>, set: CharSet) -> nat
    decreases s.len(),
{
    if s.len() == 0 || set.has(s[0]) {
        0
    } else {
        1 + first_in(s.drop_first(), set)
    }
}

/// How many characters follow the last one of `set` in `s`: all of them where
/// `s` has none.
pub open spec fn after_last_in(s: Seq<char>, set: CharSet) -> nat
    decreases s.len(),
{
    if s.len() == 0 || set.has(s.last()) {
        0
    } else {
        1 + after_last_in(s.drop_last(), set)
    }
}

/// `s` without its leading characters of `set`.
pub open spec fn without_leading(s: Seq<char>, set: CharSet) -> Seq<char>
    decreases s.len(),
{
    if s.len() > 0 && set.has(s[0]) {
        without_leading(s.drop_first(), set)
    } else {
        s
    }
}

/// `s` without its trailing characters of `set`.
pub open spec fn without_trailing(s: Seq<char>, set: CharSet) -> Seq<char>
    decreases s.len(),
{
    if s.len() > 0 && set.has(s.last()) {
        without_trailing(s.drop_last(), set)
    } else {
        s
    }
}

/// `s` without its leading and trailing characters of `set`.
pub open spec fn without_ends(s: Seq<char>, set: CharSet) -> Seq<char> {
    without_trailing(without_leading(s, set), set)
}

/// `s` without leading and trailing white space.
pub open spec fn trimmed(s: Seq<char>) -> Seq<char> {
    without_ends(s, CharSet::Space)
}

/// The place of the first character of `set` lies within `s`, no character
/// before it is in `set`, and it is itself unless it is the end of `s`.
pub proof fn lemma_first_in(s: Seq<char>, set: CharSet)
    ensures
        first_in(s, set) <= s.len(),
        first_in(s, set) < s.len() ==> set.has(s[first_in(s, set) as int]),
        forall|j: int| 0 <= j < first_in(s, set) ==> !set.has(#[trigger] s[j]),
    decreases s.len(),
{
    if s.len() > 0 && !set.has(s[0]) {
        let t = s.drop_first();
        lemma_first_in(t, set);
        assert forall|j: int| 0 <= j < first_in(s, set) implies !set.has(#[trigger] s[j]) by {
            if j > 0 {
                assert(s[j] == t[j - 1]);
            }
        }
    }
}

/// Text without characters of `set` reaches up to the first one behind it.
pub proof fn lemma_first_in_concat(a: Seq<char>, b: Seq<char>, set: CharSet)
    requires
        forall|i: int| 0 <= i < a.len() ==> !set.has(#[trigger] a[i]),
    ensures
        first_in(a + b, set) == a.len() + first_in(b, set),
    decreases a.len(),
{
    if a.len() == 0 {
        assert(a + b =~= b);
    } else {
        assert((a + b).drop_first() =~= a.drop_first() + b);
        assert forall|i: int| 0 <= i < a.drop_first().len() implies !set.has(
            #[trigger] a.drop_first()[i],
        ) by {
            assert(a.drop_first()[i] == a[i + 1]);
        }
        lemma_first_in_concat(a.drop_first(), b, set);
    }
}

/// What follows the last character of `set` lies within `s`, has no character
/// of `set`, and comes right after one unless it is all of `s`.
pub proof fn lemma_after_last_in(s: Seq<char>, set: CharSet)
    ensures
        after_last_in(s, set) <= s.len(),
        after_last_in(s, set) < s.len() ==> set.has(s[s.len() - 1 - after_last_in(s, set)]),
        forall|j: int|
            s.len() - after_last_in(s, set) <= j < s.len() ==> !set.has(#[trigger] s[j]),
    decreases s.len(),
{
    if s.len() > 0 && !set.has(s.last()) {
        lemma_after_last_in(s.drop_last(), set);
        assert forall|j: int| s.len() - after_last_in(s, set) <= j < s.len() implies !set.has(
            #[trigger] s[j],
        ) by {
            if j < s.len() - 1 {
                assert(s[j] == s.drop_last()[j]);
            }
        }
    }
}

/// Trimming at the start leaves a suffix that does not begin with a character
/// of `set`.
pub proof fn lemma_without_leading(s: Seq<char>, set: CharSet)
    ensures
        without_leading(s, set).len() <= s.len(),
        without_leading(s, set) == s.skip(s.len() - without_leading(s, set).len()),
        without_leading(s, set).len() > 0 ==> !set.has(without_leading(s, set)[0]),
    decreases s.len(),
{
    if s.len() > 0 && set.has(s[0]) {
        let t = s.drop_first();
        lemma_without_leading(t, set);
        let n = without_leading(t, set).len();
        assert(s.skip(s.len() - n) =~= t.skip(t.len() - n));
    } else {
        assert(s.skip(0) =~= s);
    }
}

/// Trimming at the end leaves a prefix that does not end with a character of
/// `set`.
pub proof fn lemma_without_trailing(s: Seq<char>, set: CharSet)
    ensures
        without_trailing(s, set).len() <= s.len(),
        without_trailing(s, set) == s.take(without_trailing(s, set).len() as int),
        without_trailing(s, set).len() > 0 ==> !set.has(without_trailing(s, set).last()),
    decreases s.len(),
{
    if s.len() > 0 && set.has(s.last()) {
        let t = s.drop_last();
        lemma_without_trailing(t, set);
        let n = without_trailing(t, set).len() as int;
        assert(s.take(n) =~= t.take(n));
    } else {
        assert(s.take(s.len() as int) =~= s);
    }
}

/// What is left after trimming neither begins nor ends with a character of
/// `set`, so that trimming again changes nothing.
pub proof fn lemma_without_ends(s: Seq<char>, set: CharSet)
    ensures
        without_ends(s, set).len() > 0 ==> !set.has(without_ends(s, set)[0]) && !set.has(
            without_ends(s, set).last(),
        ),
        without_ends(without_ends(s, set), set) == without_ends(s, set),
{
    lemma_without_leading(s, set);
    lemma_without_trailing(without_leading(s, set), set);
}

/// What follows the last character of `set` in two texts is what follows it in
/// the second one, and where that has none, also what follows it in the first.
pub proof fn lemma_after_last_in_concat(a: Seq<char>, b: Seq<char>, set: CharSet)
    ensures
        after_last_in(a + b, set) == (if after_last_in(b, set) < b.len() {
            after_last_in(b, set)
        } else {
            b.len() + after_last_in(a, set)
        }),
    decreases b.len(),
{
    lemma_after_last_in(b, set);
    if b.len() == 0 {
        assert(a + b =~= a);
    } else if !set.has(b.last()) {
        assert((a + b).drop_last() =~= a + b.drop_last());
        lemma_after_last_in_concat(a, b.drop_last(), set);
    }
}

/// How many characters precede the first one of `set`.
pub fn find_in(s: &str, set: CharSet) -> (r: usize)
    ensures
        r == first_in(s@, set),
        r <= s@.len(),
{
    let bytes = s.as_bytes();
    let mut it = s.chars();
    let mut i: usize = 0;
    assert(s@.skip(0) =~= s@);
    proof {
        cut::lemma_encode_len(s@);
    }
    loop
        invariant
            s@.len() <= bytes@.len(),
            i <= s@.len(),
            vstd::std_specs::iter::IteratorSpec::obeys_prophetic_iter_laws(&it),
            vstd::std_specs::iter::IteratorSpec::remaining(&it) == s@.skip(i as int),
            first_in(s@, set) == i + first_in(s@.skip(i as int), set),
        decreases s@.len() - i,
    {
        match it.next() {
            Some(c) => {
                assert(s@.skip(i as int).drop_first() =~= s@.skip(i + 1));
                if set.contains(c) {
                    return i;
                }
                assert(bytes.len() == bytes@.len());
                i += 1;
            },
            None => {
                return i;
            },
        }
    }
}

/// How many characters follow the last one of `set`.
pub fn find_back_in(s: &str, set: CharSet) -> (r: usize)
    ensures
        r == after_last_in(s@, set),
        r <= s@.len(),
{
    let v = chars_of(s);
    let mut i: usize = v.len();
    assert(s@.take(i as int) =~= s@);
    while i > 0
        invariant
            v@ == s@,
            i <= v@.len(),
            after_last_in(s@, set) == v@.len() - i + after_last_in(s@.take(i as int), set),
        decreases i,
    {
        assert(s@.take(i as int).drop_last() =~= s@.take(i - 1));
        if set.contains(v[i - 1]) {
            return v.len() - i;
        }
        i -= 1;
    }
    v.len() - i
}

/// `s` without its leading characters of `set`.
pub fn trim_start_matches(s: &str, set: CharSet) -> (r: &str)
    ensures
        r@ == without_leading(s@, set),
{
    let v = chars_of(s);
    let mut i: usize = 0;
    assert(s@.skip(0) =~= s@);
    while i < v.len() && set.contains(v[i])
        invariant
            v@ == s@,
            i <= v@.len(),
            without_leading(s@, set) == without_leading(s@.skip(i as int), set),
        decreases v@.len() - i,
    {
        assert(s@.skip(i as int).drop_first() =~= s@.skip(i + 1));
        i += 1;
    }
    skip(s, i)
}

/// `s` without its trailing characters of `set`.
pub fn trim_end_matches(s: &str, set: CharSet) -> (r: &str)
    ensures
        r@ == without_trailing(s@, set),
{
    let v = chars_of(s);
    let mut i: usize = v.len();
    assert(s@.take(i as int) =~= s@);
    while i > 0 && set.contains(v[i - 1])
        invariant
            v@ == s@,
            i <= v@.len(),
            without_trailing(s@, set) == without_trailing(s@.take(i as int), set),
        decreases i,
    {
        assert(s@.take(i as int).drop_last() =~= s@.take(i - 1));
        i -= 1;
    }
    take(s, i)
}

/// `s` without its leading and trailing characters of `set`.
pub fn trim_matches(s: &str, set: CharSet) -> (r: &str)
    ensures
        r@ == without_ends(s@, set),
{
    trim_end_matches(trim_start_matches(s, set), set)
}

/// `s` without leading and trailing white space.
pub fn trim(s: &str) -> (r: &str)
    ensures
        r@ == trimmed(s@),
{
    trim_matches(s, CharSet::Space)
}

/// The first `n` characters of `s`.
pub fn take(s: &str, n: usize) -> (r: &str)
    requires
        n <= s@.len(),
    ensures
        r@ == s@.take(n as int),
{
    cut::split_chars(s, n).0
}

/// `s` without its first `n` characters.
pub fn skip(s: &str, n: usize) -> (r: &str)
    requires
        n <= s@.len(),
    ensures
        r@ == s@.skip(n as int),
{
    cut::split_chars(s, n).1
}

// ---------------------------------------------------------------------------
// Searching for text
// ---------------------------------------------------------------------------

/// Whether `pattern` stands in `s` at the place `i`.
pub open spec fn occurs_at(s: Seq<char>, pattern: Seq<char>, i: int) -> bool {
    0 <= i && i + pattern.len() <= s.len() && s.subrange(i, i + pattern.len()) == pattern
}

/// The place at which `pattern` first stands in `s`.
pub open spec fn position(s: Seq<char>, pattern: Seq<char>) -> Option<nat>
    decreases s.len(),
{
    if pattern.is_prefix_of(s) {
        Some(0)
    } else if s.len() == 0 {
        None
    } else {
        match position(s.drop_first(), pattern) {
            Some(i) => Some(i + 1),
            None => None,
        }
    }
}

/// The parts of `s` before and after the first `pattern`.
pub open spec fn split_around(s: Seq<char>, pattern: Seq<char>) -> Option<(Seq<char>, Seq<char>)> {
    match position(s, pattern) {
        Some(i) => Some((s.take(i as int), s.skip((i + pattern.len()) as int))),
        None => None,
    }
}

/// What follows the prefix `prefix` of `s`.
pub open spec fn after_prefix(s: Seq<char>, prefix: Seq<char>) -> Option<Seq<char>> {
    if prefix.is_prefix_of(s) {
        Some(s.skip(prefix.len() as int))
    } else {
        None
    }
}

/// What precedes the suffix `suffix` of `s`.
pub open spec fn before_suffix(s: Seq<char>, suffix: Seq<char>) -> Option<Seq<char>> {
    if suffix.is_suffix_of(s) {
        Some(s.take(s.len() - suffix.len()))
    } else {
        None
    }
}

/// How often `pattern` stands in `s`, read from the left without overlap.
pub open spec fn occurrences(s: Seq<char>, pattern: Seq<char>) -> nat
    decreases s.len(),
{
    if s.len() == 0 || pattern.len() == 0 {
        0
    } else if pattern.is_prefix_of(s) {
        1 + occurrences(s.skip(pattern.len() as int), pattern)
    } else {
        occurrences(s.drop_first(), pattern)
    }
}

/// `position` is the least place at which the pattern stands, and is `None`
/// only where it stands nowhere.
pub proof fn lemma_position(s: Seq<char>, pattern: Seq<char>)
    ensures
        position(s, pattern) matches Some(i) ==> {
            &&& occurs_at(s, pattern, i as int)
            &&& forall|j: int| 0 <= j < i ==> !occurs_at(s, pattern, j)
        },
        position(s, pattern) is None ==> forall|j: int| !occurs_at(s, pattern, j),
    decreases s.len(),
{
    assert(occurs_at(s, pattern, 0) == pattern.is_prefix_of(s));
    if s.len() > 0 {
        let t = s.drop_first();
        lemma_position(t, pattern);
        assert forall|j: int| j > 0 implies occurs_at(s, pattern, j) == #[trigger] occurs_at(
            t,
            pattern,
            j - 1,
        ) by {
            if j + pattern.len() <= s.len() {
                assert(s.subrange(j, j + pattern.len()) =~= t.subrange(
                    j - 1,
                    j - 1 + pattern.len(),
                ));
            }
        }
        assert forall|j: int| j > 0 && occurs_at(s, pattern, j) implies occurs_at(
            t,
            pattern,
            j - 1,
        ) by {}
        match position(t, pattern) {
            Some(i) => {
                if !pattern.is_prefix_of(s) {
                    assert(occurs_at(s, pattern, (i + 1) as int) == occurs_at(t, pattern, i + 1 - 1));
                }
            },
            None => {},
        }
    }
}

/// The two parts around a pattern and the pattern between them are the text.
pub proof fn lemma_split_around(s: Seq<char>, pattern: Seq<char>)
    ensures
        split_around(s, pattern) matches Some(parts) ==> s == parts.0 + pattern + parts.1,
{
    lemma_position(s, pattern);
    match position(s, pattern) {
        Some(i) => {
            assert(s =~= s.take(i as int) + s.subrange(i as int, i as int + pattern.len()) + s.skip(
                (i + pattern.len()) as int,
            ));
        },
        None => {},
    }
}

/// Whether `p` stands in `v` at the place `i`.
fn matches_at(v: &Vec<char>, p: &Vec<char>, i: usize) -> (r: bool)
    requires
        i <= v@.len(),
    ensures
        r == p@.is_prefix_of(v@.skip(i as int)),
{
    if p.len() > v.len() - i {
        return false;
    }
    let mut j: usize = 0;
    while j < p.len()
        invariant
            j <= p@.len(),
            i + p@.len() <= v.len(),
            forall|k: int| 0 <= k < j ==> p@[k] == v@[i + k],
        decreases p@.len() - j,
    {
        if v[i + j] != p[j] {
            assert(v@.skip(i as int).subrange(0, p@.len() as int)[j as int] == v@[i + j]);
            return false;
        }
        j += 1;
    }
    assert(p@ =~= v@.skip(i as int).subrange(0, p@.len() as int));
    true
}

/// The place at which `pattern` first stands in `s`.
pub fn find(s: &str, pattern: &str) -> (r: Option<usize>)
    ensures
        r is Some == position(s@, pattern@) is Some,
        r matches Some(i) ==> position(s@, pattern@) == Some(i as nat) && i + pattern@.len()
            <= s@.len(),
{
    let v = chars_of(s);
    let p = chars_of(pattern);
    let mut i: usize = 0;
    assert(s@.skip(0) =~= s@);
    loop
        invariant
            v@ == s@,
            p@ == pattern@,
            i <= v@.len(),
            position(s@, p@) == (match position(s@.skip(i as int), p@) {
                Some(k) => Some(k + i as nat),
                None => None,
            }),
        decreases v@.len() - i,
    {
        if matches_at(&v, &p, i) {
            return Some(i);
        }
        if i == v.len() {
            return None;
        }
        assert(s@.skip(i as int).drop_first() =~= s@.skip(i + 1));
        i += 1;
    }
}

/// The parts of `s` before and after the first `pattern`.
pub fn split_once<'a>(s: &'a str, pattern: &str) -> (r: Option<(&'a str, &'a str)>)
    ensures
        r.deep_view() == split_around(s@, pattern@),
{
    match find(s, pattern) {
        Some(i) => {
            let tail = skip(s, i);
            assert(tail@.skip(pattern@.len() as int) =~= s@.skip(i + pattern@.len()));
            Some((take(s, i), skip(tail, pattern.unicode_len())))
        },
        None => None,
    }
}

/// Whether `s` begins with `prefix`.
pub fn starts_with(s: &str, prefix: &str) -> (r: bool)
    ensures
        r == prefix@.is_prefix_of(s@),
{
    let v = chars_of(s);
    let p = chars_of(prefix);
    assert(s@.skip(0) =~= s@);
    matches_at(&v, &p, 0)
}

/// Whether `s` ends with `suffix`.
pub fn ends_with(s: &str, suffix: &str) -> (r: bool)
    ensures
        r == suffix@.is_suffix_of(s@),
{
    let v = chars_of(s);
    let p = chars_of(suffix);
    if p.len() > v.len() {
        return false;
    }
    let i: usize = v.len() - p.len();
    let ghost tail = s@.skip(i as int);
    assert(tail.subrange(0, p@.len() as int) =~= tail);
    matches_at(&v, &p, i)
}

/// What follows the prefix `prefix` of `s`.
pub fn strip_prefix<'a>(s: &'a str, prefix: &str) -> (r: Option<&'a str>)
    ensures
        r.deep_view() == after_prefix(s@, prefix@),
{
    if starts_with(s, prefix) {
        Some(skip(s, prefix.unicode_len()))
    } else {
        None
    }
}

/// What precedes the suffix `suffix` of `s`.
pub fn strip_suffix<'a>(s: &'a str, suffix: &str) -> (r: Option<&'a str>)
    ensures
        r.deep_view() == before_suffix(s@, suffix@),
{
    if ends_with(s, suffix) {
        Some(take(s, s.unicode_len() - suffix.unicode_len()))
    } else {
        None
    }
}

/// How often `pattern` stands in `s`, read from the left without overlap.
pub fn count_matches(s: &str, pattern: &str) -> (r: usize)
    requires
        pattern@.len() > 0,
    ensures
        r == occurrences(s@, pattern@),
{
    let v = chars_of(s);
    let p = chars_of(pattern);
    let mut i: usize = 0;
    let mut n: usize = 0;
    assert(s@.skip(0) =~= s@);
    while i < v.len()
        invariant
            v@ == s@,
            p@ == pattern@,
            p@.len() > 0,
            n <= i <= v@.len(),
            occurrences(s@, p@) == n + occurrences(s@.skip(i as int), p@),
        decreases v@.len() - i,
    {
        if matches_at(&v, &p, i) {
            assert(s@.skip(i as int).skip(p@.len() as int) =~= s@.skip(i + p@.len()));
            i += p.len();
            n += 1;
        } else {
            assert(s@.skip(i as int).drop_first() =~= s@.skip(i + 1));
            i += 1;
        }
    }
    n
}

// ---------------------------------------------------------------------------
// Laws
// ---------------------------------------------------------------------------

/// Whether every character of `s` is in `set`.
pub open spec fn all_in(s: Seq<char>, set: CharSet) -> bool {
    forall|i: int| 0 <= i < s.len() ==> set.has(#[trigger] s[i])
}

/// Whether no character of `s` is in `set`.
pub open spec fn none_in(s: Seq<char>, set: CharSet) -> bool {
    forall|i: int| 0 <= i < s.len() ==> !set.has(#[trigger] s[i])
}

/// Whether `s` is not empty and neither begins nor ends with a character of
/// `set`.
pub open spec fn bare_of(s: Seq<char>, set: CharSet) -> bool {
    s.len() > 0 && !set.has(s[0]) && !set.has(s.last())
}

/// The first character of a set is found behind any text without one, and at the
/// end where there is none.
pub proof fn law_first_is_found(a: Seq<char>, c: char, b: Seq<char>, set: CharSet)
    requires
        none_in(a, set),
    ensures
        first_in(a, set) == a.len(),
        set.has(c) ==> first_in(a.push(c) + b, set) == a.len(),
{
    lemma_first_in_concat(a, seq![], set);
    assert(a + seq![] =~= a);
    if set.has(c) {
        lemma_first_in_concat(a, seq![c] + b, set);
        assert(a.push(c) + b =~= a + (seq![c] + b));
        assert((seq![c] + b)[0] == c);
    }
}

/// The last character of a set is found before any text without one, and at the
/// start where there is none.
pub proof fn law_last_is_found(a: Seq<char>, c: char, b: Seq<char>, set: CharSet)
    requires
        none_in(b, set),
    ensures
        after_last_in(b, set) == b.len(),
        set.has(c) ==> after_last_in(a.push(c) + b, set) == b.len(),
{
    lemma_after_last_in(b, set);
    if after_last_in(b, set) < b.len() {
        assert(set.has(b[b.len() - 1 - after_last_in(b, set)]));
    }
    if set.has(c) {
        lemma_after_last_in_concat(a.push(c), b, set);
        assert(a.push(c).last() == c);
    }
}

/// Trimming at the start gives back a text behind any characters of the set.
pub proof fn law_trim_start(pre: Seq<char>, x: Seq<char>, set: CharSet)
    requires
        all_in(pre, set),
        x.len() > 0 ==> !set.has(x[0]),
    ensures
        without_leading(pre + x, set) == x,
    decreases pre.len(),
{
    if pre.len() == 0 {
        assert(pre + x =~= x);
    } else {
        let t = pre.drop_first();
        assert((pre + x).drop_first() =~= t + x);
        assert((pre + x)[0] == pre[0]);
        assert forall|i: int| 0 <= i < t.len() implies set.has(#[trigger] t[i]) by {
            assert(t[i] == pre[i + 1]);
        }
        law_trim_start(t, x, set);
    }
}

/// Trimming at the end gives back a text before any characters of the set.
pub proof fn law_trim_end(x: Seq<char>, post: Seq<char>, set: CharSet)
    requires
        all_in(post, set),
        x.len() > 0 ==> !set.has(x.last()),
    ensures
        without_trailing(x + post, set) == x,
    decreases post.len(),
{
    if post.len() == 0 {
        assert(x + post =~= x);
    } else {
        let t = post.drop_last();
        assert((x + post).drop_last() =~= x + t);
        assert((x + post).last() == post.last());
        assert forall|i: int| 0 <= i < t.len() implies set.has(#[trigger] t[i]) by {
            assert(t[i] == post[i]);
        }
        law_trim_end(x, t, set);
    }
}

/// Trimming at both ends gives back a text from between any characters of the
/// set, and nothing of a text that has no others.
pub proof fn law_trim(pre: Seq<char>, x: Seq<char>, post: Seq<char>, set: CharSet)
    requires
        all_in(pre, set),
        all_in(post, set),
        x.len() == 0 || bare_of(x, set),
    ensures
        without_ends(pre + x + post, set) == x,
        without_ends(x, set) == x,
{
    if x.len() == 0 {
        let s = pre + x + post;
        assert(s =~= pre + post);
        assert forall|i: int| 0 <= i < s.len() implies set.has(#[trigger] s[i]) by {
            if i < pre.len() {
                assert(s[i] == pre[i]);
            } else {
                assert(s[i] == post[i - pre.len()]);
            }
        }
        law_trim_start(s, seq![], set);
        assert(s + seq![] =~= s);
        assert(x =~= seq![]);
    } else {
        assert(pre + x + post =~= pre + (x + post));
        assert((x + post)[0] == x[0]);
        law_trim_start(pre, x + post, set);
        law_trim_end(x, post, set);
    }
}

/// Whether `p` stands nowhere in `a + p` but at its end.
pub open spec fn stands_first_behind(a: Seq<char>, p: Seq<char>) -> bool {
    forall|j: int| 0 <= j < a.len() ==> !occurs_at(a + p, p, j)
}

/// Whether `p` stands nowhere in `s`.
pub open spec fn stands_nowhere(s: Seq<char>, p: Seq<char>) -> bool {
    forall|j: int| !occurs_at(s, p, j)
}

proof fn lemma_position_is(s: Seq<char>, p: Seq<char>, n: nat)
    requires
        occurs_at(s, p, n as int),
        forall|j: int| 0 <= j < n ==> !occurs_at(s, p, j),
    ensures
        position(s, p) == Some(n),
{
    lemma_position(s, p);
}

proof fn lemma_stands_first(a: Seq<char>, p: Seq<char>, b: Seq<char>)
    requires
        stands_first_behind(a, p),
    ensures
        occurs_at(a + p + b, p, a.len() as int),
        forall|j: int| 0 <= j < a.len() ==> !occurs_at(a + p + b, p, j),
{
    let s = a + p + b;
    assert(s.subrange(a.len() as int, a.len() as int + p.len()) =~= p);
    assert forall|j: int| 0 <= j < a.len() implies !occurs_at(s, p, j) by {
        assert(!occurs_at(a + p, p, j));
        assert(s.subrange(j, j + p.len()) =~= (a + p).subrange(j, j + p.len()));
    }
}

/// A pattern is found where it first stands, whatever follows it, and a text is
/// split around it there.
pub proof fn law_pattern_is_found(a: Seq<char>, p: Seq<char>, b: Seq<char>)
    requires
        stands_first_behind(a, p),
    ensures
        position(a + p + b, p) == Some(a.len()),
        split_around(a + p + b, p) == Some((a, b)),
{
    let s = a + p + b;
    assert(position(s, p) == Some(a.len())) by {
        lemma_stands_first(a, p, b);
        lemma_position_is(s, p, a.len());
    }
    assert(s.take(a.len() as int) =~= a);
    assert(s.skip((a.len() + p.len()) as int) =~= b);
}

/// A pattern is not found exactly where it stands nowhere.
pub proof fn law_pattern_is_missing(s: Seq<char>, p: Seq<char>)
    ensures
        position(s, p) is None <==> stands_nowhere(s, p),
        split_around(s, p) is None <==> stands_nowhere(s, p),
{
    lemma_position(s, p);
}

/// A text is split around a pattern whose first character it does not hold
/// before.
pub proof fn law_split_gives_the_parts(a: Seq<char>, p: Seq<char>, b: Seq<char>)
    requires
        p.len() > 0,
        none_in(a, CharSet::One(p[0])),
    ensures
        split_around(a + p + b, p) == Some((a, b)),
{
    assert forall|j: int| 0 <= j < a.len() implies !occurs_at(a + p, p, j) by {
        assert((a + p)[j] == a[j]);
        if occurs_at(a + p, p, j) {
            assert((a + p).subrange(j, j + p.len())[0] == p[0]);
        }
    }
    law_pattern_is_found(a, p, b);
}

/// A text without the first character of a pattern is not split around it.
pub proof fn law_no_split_without_the_pattern(s: Seq<char>, p: Seq<char>)
    requires
        p.len() > 0,
        none_in(s, CharSet::One(p[0])),
    ensures
        split_around(s, p) is None,
{
    assert forall|j: int| !occurs_at(s, p, j) by {
        if occurs_at(s, p, j) {
            assert(s.subrange(j, j + p.len())[0] == p[0]);
            assert(s[j] == p[0]);
        }
    }
    law_pattern_is_missing(s, p);
}

/// A prefix is taken off, and so is a suffix.
pub proof fn law_affixes_come_off(a: Seq<char>, b: Seq<char>)
    ensures
        after_prefix(a + b, a) == Some(b),
        before_suffix(a + b, b) == Some(a),
{
    assert((a + b).subrange(0, a.len() as int) =~= a);
    assert((a + b).skip(a.len() as int) =~= b);
    assert((a + b).subrange((a + b).len() - b.len(), (a + b).len() as int) =~= b);
    assert((a + b).take((a + b).len() - b.len()) =~= a);
}

/// A pattern that stands nowhere is counted zero times. One more than behind it
/// is counted where it first stands.
pub proof fn law_occurrences_are_counted(a: Seq<char>, p: Seq<char>, b: Seq<char>)
    requires
        p.len() > 0,
    ensures
        stands_nowhere(a, p) ==> occurrences(a, p) == 0,
        stands_first_behind(a, p) ==> occurrences(a + p + b, p) == 1 + occurrences(b, p),
{
    if stands_nowhere(a, p) {
        lemma_no_occurrences(a, p);
    }
    if stands_first_behind(a, p) {
        law_pattern_is_found(a, p, b);
        lemma_first_occurrence(a + p + b, p);
        assert((a + p + b).skip((a.len() + p.len()) as int) =~= b);
    }
}

proof fn lemma_no_occurrences(s: Seq<char>, p: Seq<char>)
    requires
        p.len() > 0,
        stands_nowhere(s, p),
    ensures
        occurrences(s, p) == 0,
    decreases s.len(),
{
    if s.len() > 0 {
        assert(!occurs_at(s, p, 0));
        let t = s.drop_first();
        assert forall|j: int| !occurs_at(t, p, j) by {
            assert(!occurs_at(s, p, j + 1));
            if occurs_at(t, p, j) {
                assert(s.subrange(j + 1, j + 1 + p.len()) =~= t.subrange(j, j + p.len()));
            }
        }
        lemma_no_occurrences(t, p);
    }
}

proof fn lemma_first_occurrence(s: Seq<char>, p: Seq<char>)
    requires
        p.len() > 0,
        position(s, p) is Some,
    ensures
        position(s, p)->0 + p.len() <= s.len(),
        occurrences(s, p) == 1 + occurrences(s.skip(position(s, p)->0 as int + p.len()), p),
    decreases s.len(),
{
    if !p.is_prefix_of(s) {
        let t = s.drop_first();
        lemma_first_occurrence(t, p);
        let i = position(t, p)->0;
        assert(t.skip(i as int + p.len()) =~= s.skip(i as int + 1 + p.len()));
    }
}

/// Trimming keeps every character that is not in the set.
pub proof fn law_trim_keeps(s: Seq<char>, set: CharSet, i: int)
    requires
        0 <= i < s.len(),
        !set.has(s[i]),
    ensures
        without_ends(s, set).contains(s[i]),
{
    lemma_leading_keeps(s, set, i);
    let t = without_leading(s, set);
    let j = choose|j: int| 0 <= j < t.len() && t[j] == s[i];
    lemma_trailing_keeps(t, set, j);
}

proof fn lemma_leading_keeps(s: Seq<char>, set: CharSet, i: int)
    requires
        0 <= i < s.len(),
        !set.has(s[i]),
    ensures
        without_leading(s, set).contains(s[i]),
    decreases s.len(),
{
    if set.has(s[0]) {
        let t = s.drop_first();
        assert(t[i - 1] == s[i]);
        lemma_leading_keeps(t, set, i - 1);
    } else {
        assert(without_leading(s, set) == s);
    }
}

proof fn lemma_trailing_keeps(s: Seq<char>, set: CharSet, i: int)
    requires
        0 <= i < s.len(),
        !set.has(s[i]),
    ensures
        without_trailing(s, set).contains(s[i]),
    decreases s.len(),
{
    if set.has(s.last()) {
        let t = s.drop_last();
        assert(t[i] == s[i]);
        lemma_trailing_keeps(t, set, i);
    } else {
        assert(without_trailing(s, set) == s);
    }
}

/// What is left of a text without a prefix or a suffix is the rest of it, and
/// there is none where the text does not begin or end so.
pub proof fn law_affixes_are_there(s: Seq<char>, p: Seq<char>)
    ensures
        after_prefix(s, p) matches Some(rest) ==> s == p + rest,
        before_suffix(s, p) matches Some(rest) ==> s == rest + p,
        after_prefix(s, p) is Some <==> p.is_prefix_of(s),
        before_suffix(s, p) is Some <==> p.is_suffix_of(s),
{
    if p.is_prefix_of(s) {
        assert(s =~= p + s.skip(p.len() as int));
    }
    if p.is_suffix_of(s) {
        assert(s =~= s.take(s.len() - p.len()) + p);
    }
}

} // verus!
