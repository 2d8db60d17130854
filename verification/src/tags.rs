//! Tags and their attributes.

use crate::case;
use crate::cut;
use crate::pieces;
use crate::text;
use crate::text::CharSet;
use vstd::prelude::*;

verus! {

broadcast use vstd::string::group_string_axioms;

// ---------------------------------------------------------------------------
// Tags
// ---------------------------------------------------------------------------

/// How many characters of `s` precede the `>` that ends a tag: the first one
/// that no quote encloses, where `quote` is the quote open at the start. All of
/// them where there is none.
pub open spec fn tag_length(s: Seq<char>, quote: Option<char>) -> nat
    decreases s.len(),
{
    if s.len() == 0 {
        0
    } else {
        match quote {
            Some(q) => 1 + tag_length(
                s.drop_first(),
                if s[0] == q {
                    None
                } else {
                    quote
                },
            ),
            None => if s[0] == '>' {
                0
            } else {
                1 + tag_length(
                    s.drop_first(),
                    if s[0] == '"' || s[0] == '\'' {
                        Some(s[0])
                    } else {
                        None
                    },
                )
            },
        }
    }
}

/// The attribute text of a tag, from what follows its name: what precedes the
/// `>` that ends the tag, without leading white space. Where no `>` ends it, it
/// reaches to the end of the line, without surrounding white space and trailing
/// `>`.
pub open spec fn opening_attrs(tail: Seq<char>) -> Seq<char> {
    let n = tag_length(tail, None);
    if n < tail.len() {
        text::without_leading(tail.take(n as int), CharSet::Space)
    } else {
        text::without_trailing(text::trimmed(tail), CharSet::One('>'))
    }
}

/// The lower-case name and the attribute text of the tag that a line opens
/// with. A line opens a tag where, after white space, a `<` is followed by a
/// name that is not empty and does not begin with `!`.
pub open spec fn opening_tag(line: Seq<char>) -> Option<(Seq<char>, Seq<char>)> {
    match text::after_prefix(text::without_leading(line, CharSet::Space), "<"@) {
        Some(rest) => {
            let n = text::first_in(rest, CharSet::TagNameEnd) as int;
            if n == 0 || rest[0] == '!' {
                None
            } else {
                Some((case::lowercased(rest.take(n)), opening_attrs(rest.skip(n))))
            }
        },
        None => None,
    }
}

/// The lower-case name and the attribute text of a tag, from what stands
/// between its `<` and its `>`. A closing tag, a comment or declaration, and a
/// segment without a name have none.
pub open spec fn tag_of_segment(segment: Seq<char>) -> Option<(Seq<char>, Seq<char>)> {
    let body = text::trimmed(segment);
    let n = text::first_in(body, CharSet::TagNameEnd) as int;
    if n == 0 || body[0] == '!' {
        None
    } else {
        Some(
            (
                case::lowercased(body.take(n)),
                text::trimmed(
                    text::without_trailing(text::trimmed(body.skip(n)), CharSet::One('/')),
                ),
            ),
        )
    }
}

proof fn lemma_tag_length_concat(s: Seq<char>, more: Seq<char>, quote: Option<char>)
    requires
        tag_length(s, quote) < s.len(),
    ensures
        tag_length(s + more, quote) == tag_length(s, quote),
    decreases s.len(),
{
    assert((s + more)[0] == s[0]);
    assert((s + more).drop_first() =~= s.drop_first() + more);
    match quote {
        Some(q) => {
            let next = if s[0] == q {
                None
            } else {
                quote
            };
            lemma_tag_length_concat(s.drop_first(), more, next);
        },
        None => {
            if s[0] != '>' {
                let next = if s[0] == '"' || s[0] == '\'' {
                    Some(s[0])
                } else {
                    None
                };
                lemma_tag_length_concat(s.drop_first(), more, next);
            }
        },
    }
}

/// What stands behind the `>` that ends a tag makes no difference to its
/// attributes.
pub proof fn law_attrs_end_with_the_tag(tail: Seq<char>, more: Seq<char>)
    requires
        tag_length(tail, None) < tail.len(),
    ensures
        opening_attrs(tail + more) == opening_attrs(tail),
{
    lemma_tag_length_concat(tail, more, None);
    let n = tag_length(tail, None) as int;
    assert((tail + more).take(n) =~= tail.take(n));
}

/// How many characters of `s` precede the `>` that ends a tag.
fn find_tag_length(s: &str) -> (r: usize)
    ensures
        r == tag_length(s@, None),
        r <= s@.len(),
{
    let chars = text::chars_of(s);
    let mut quote: Option<char> = None;
    let mut i: usize = 0;
    assert(s@.skip(0) =~= s@);
    while i < chars.len()
        invariant
            chars@ == s@,
            i <= chars@.len(),
            tag_length(s@, None) == i + tag_length(s@.skip(i as int), quote),
        decreases chars@.len() - i,
    {
        let c = chars[i];
        assert(s@.skip(i as int)[0] == c);
        assert(s@.skip(i as int).drop_first() =~= s@.skip(i + 1));
        match quote {
            Some(q) => {
                if c == q {
                    quote = None;
                }
            },
            None => {
                if c == '>' {
                    return i;
                }
                if c == '"' || c == '\'' {
                    quote = Some(c);
                }
            },
        }
        i += 1;
    }
    i
}

/// The attribute text of a tag, from what follows its name.
fn find_opening_attrs(tail: &str) -> (r: &str)
    ensures
        r@ == opening_attrs(tail@),
{
    let n = find_tag_length(tail);
    let (inside, rest) = cut::split_chars(tail, n);
    if rest.is_empty() {
        text::trim_end_matches(text::trim(tail), CharSet::One('>'))
    } else {
        text::trim_start_matches(inside, CharSet::Space)
    }
}

/// Parses the tag that `line` opens with into its lower-case name and its
/// attribute text.
pub fn parse_tag_open(line: &str) -> (r: Option<(String, String)>)
    ensures
        r.deep_view() == opening_tag(line@),
{
    let start = text::trim_start_matches(line, CharSet::Space);
    match text::strip_prefix(start, "<") {
        Some(rest) => {
            let n = text::find_in(rest, CharSet::TagNameEnd);
            if n == 0 || rest.get_char(0) == '!' {
                return None;
            }
            let (tag, tail) = cut::split_chars(rest, n);
            Some((case::to_lowercase(tag), find_opening_attrs(tail).to_string()))
        },
        None => None,
    }
}

/// Parses what stands between `<` and `>` into the tag's lower-case name and
/// its attribute text.
pub fn parse_tag_segment(segment: &str) -> (r: Option<(String, String)>)
    ensures
        r.deep_view() == tag_of_segment(segment@),
{
    let body = text::trim(segment);
    let n = text::find_in(body, CharSet::TagNameEnd);
    if n == 0 || body.get_char(0) == '!' {
        return None;
    }
    let (tag, tail) = cut::split_chars(body, n);
    let attrs = text::trim(text::trim_end_matches(text::trim(tail), CharSet::One('/')));
    Some((case::to_lowercase(tag), attrs.to_string()))
}

// ---------------------------------------------------------------------------
// Attributes
// ---------------------------------------------------------------------------

/// Whether an attribute is `keyword`, alone or with a value.
pub open spec fn is_attr(attr: Seq<char>, keyword: Seq<char>) -> bool {
    ||| case::lowercased(attr) == keyword
    ||| (keyword + "="@).is_prefix_of(case::lowercased(attr))
}

/// Whether one of the attributes is `keyword`, alone or with a value.
pub open spec fn has_attr(attrs: Seq<char>, keyword: Seq<char>) -> bool {
    exists|i: int|
        0 <= i < pieces::words(attrs).len() && is_attr(#[trigger] pieces::words(attrs)[i], keyword)
}

/// The value of a `lang` attribute, in lower case and without quotes.
pub open spec fn lang_value(attr: Seq<char>) -> Option<Seq<char>> {
    match text::after_prefix(case::lowercased(attr), "lang="@) {
        Some(value) => Some(
            text::without_ends(text::without_ends(value, CharSet::One('"')), CharSet::One('\'')),
        ),
        None => None,
    }
}

/// The value of the first `lang` attribute.
pub open spec fn first_lang(attrs: Seq<Seq<char>>) -> Option<Seq<char>>
    decreases attrs.len(),
{
    if attrs.len() == 0 {
        None
    } else {
        match lang_value(attrs[0]) {
            Some(value) => Some(value),
            None => first_lang(attrs.drop_first()),
        }
    }
}

/// The label of a block: its tag, then `setup`, `scoped` and the language as
/// far as the attributes give them, with `:` between them.
pub open spec fn label_text(tag: Seq<char>, attrs: Seq<char>) -> Seq<char> {
    let setup = if has_attr(attrs, "setup"@) {
        seq!["setup"@]
    } else {
        seq![]
    };
    let scoped = if has_attr(attrs, "scoped"@) {
        seq!["scoped"@]
    } else {
        seq![]
    };
    let lang = match first_lang(pieces::words(attrs)) {
        Some(value) => seq![value],
        None => seq![],
    };
    pieces::joined(seq![tag] + setup + scoped + lang, ":"@)
}

/// A label is the tag, followed by `:setup`, `:scoped` and the language behind a
/// `:` as far as the attributes give them. Without them it is the tag alone.
pub proof fn law_label_is_tag_with_markers(tag: Seq<char>, attrs: Seq<char>)
    ensures
        label_text(tag, attrs) == tag + (if has_attr(attrs, "setup"@) {
            ":"@ + "setup"@
        } else {
            seq![]
        }) + (if has_attr(attrs, "scoped"@) {
            ":"@ + "scoped"@
        } else {
            seq![]
        }) + (match first_lang(pieces::words(attrs)) {
            Some(lang) => ":"@ + lang,
            None => seq![],
        }),
{
    let setup = if has_attr(attrs, "setup"@) {
        seq!["setup"@]
    } else {
        seq![]
    };
    let scoped = if has_attr(attrs, "scoped"@) {
        seq!["scoped"@]
    } else {
        seq![]
    };
    let lang = match first_lang(pieces::words(attrs)) {
        Some(value) => seq![value],
        None => seq![],
    };
    let sep = ":"@;
    pieces::lemma_joined_more(seq![tag], setup, sep);
    pieces::lemma_joined_more(seq![tag] + setup, scoped, sep);
    pieces::lemma_joined_more(seq![tag] + setup + scoped, lang, sep);
    assert(pieces::joined(seq![tag], sep) == tag);
    assert(label_text(tag, attrs) =~= tag + (if has_attr(attrs, "setup"@) {
        ":"@ + "setup"@
    } else {
        seq![]
    }) + (if has_attr(attrs, "scoped"@) {
        ":"@ + "scoped"@
    } else {
        seq![]
    }) + (match first_lang(pieces::words(attrs)) {
        Some(lang) => ":"@ + lang,
        None => seq![],
    }));
}

/// Whether one of the attributes in `attrs` is `keyword`, alone or with a value.
pub fn attr_contains(attrs: &str, keyword: &str) -> (r: bool)
    ensures
        r == has_attr(attrs@, keyword@),
{
    let parts = pieces::split_whitespace(attrs);
    let mut assigned = keyword.to_string();
    assigned.append("=");
    let mut i: usize = 0;
    while i < parts.len()
        invariant
            parts.deep_view() == pieces::words(attrs@),
            assigned@ == keyword@ + "="@,
            i <= parts@.len(),
            forall|j: int|
                0 <= j < i ==> !is_attr(#[trigger] pieces::words(attrs@)[j], keyword@),
        decreases parts@.len() - i,
    {
        assert(pieces::words(attrs@)[i as int] == parts@[i as int]@);
        let lower = case::to_lowercase(parts[i]);
        if text::same_text(lower.as_str(), keyword) || text::starts_with(
            lower.as_str(),
            assigned.as_str(),
        ) {
            return true;
        }
        i += 1;
    }
    false
}

/// The value of the first `lang` attribute in `attrs`.
pub fn attr_lang(attrs: &str) -> (r: Option<String>)
    ensures
        r.deep_view() == first_lang(pieces::words(attrs@)),
{
    let parts = pieces::split_whitespace(attrs);
    let ghost all = pieces::words(attrs@);
    let mut i: usize = 0;
    assert(all.skip(0) =~= all);
    while i < parts.len()
        invariant
            all == pieces::words(attrs@),
            parts.deep_view() == all,
            i <= parts@.len(),
            first_lang(all) == first_lang(all.skip(i as int)),
        decreases parts@.len() - i,
    {
        assert(all.skip(i as int)[0] == parts@[i as int]@);
        assert(all.skip(i as int).drop_first() =~= all.skip(i + 1));
        let lower = case::to_lowercase(parts[i]);
        match text::strip_prefix(lower.as_str(), "lang=") {
            Some(value) => {
                let bare = text::trim_matches(
                    text::trim_matches(value, CharSet::One('"')),
                    CharSet::One('\''),
                );
                return Some(bare.to_string());
            },
            None => {},
        }
        i += 1;
    }
    None
}

/// The label of a block with the given tag and attributes.
pub fn build_label(tag: &str, attrs: &str) -> (r: String)
    ensures
        r@ == label_text(tag@, attrs@),
{
    let mut parts: Vec<&str> = Vec::new();
    parts.push(tag);
    let ghost mut want = seq![tag@];
    assert(parts.deep_view() =~= want);
    if attr_contains(attrs, "setup") {
        parts.push("setup");
        proof {
            want = want + seq!["setup"@];
        }
    } else {
        proof {
            want = want + seq![];
        }
    }
    assert(parts.deep_view() =~= want);
    if attr_contains(attrs, "scoped") {
        parts.push("scoped");
        proof {
            want = want + seq!["scoped"@];
        }
    } else {
        proof {
            want = want + seq![];
        }
    }
    assert(parts.deep_view() =~= want);
    match attr_lang(attrs) {
        Some(lang) => {
            parts.push(lang.as_str());
            assert(parts.deep_view() =~= want + seq![lang@]);
            let n = parts.len();
            assert(parts.deep_view().subrange(0, n as int) =~= parts.deep_view());
            pieces::join(&parts, 0, n, ":")
        },
        None => {
            let n = parts.len();
            assert(parts.deep_view() =~= want + seq![]);
            assert(parts.deep_view().subrange(0, n as int) =~= parts.deep_view());
            pieces::join(&parts, 0, n, ":")
        },
    }
}

/// The label of an attribute: its name, and its value without quotes and
/// braces where it has one. An attribute without a name has no label.
pub open spec fn attr_label(attr: Seq<char>) -> Option<Seq<char>> {
    let clean = text::trimmed(
        text::without_trailing(
            text::without_trailing(text::trimmed(attr), CharSet::One('>')),
            CharSet::One('/'),
        ),
    );
    let (name, value) = match text::split_around(clean, "="@) {
        Some(parts) => (text::trimmed(parts.0), parts.1),
        None => (text::trimmed(clean), seq![]),
    };
    if name.len() == 0 {
        None
    } else if value.len() == 0 {
        Some(name)
    } else {
        Some(name + "="@ + bare_value(value))
    }
}

/// The value of an attribute without the quotes and braces around it.
pub open spec fn bare_value(value: Seq<char>) -> Seq<char> {
    let unquoted = text::without_ends(
        text::without_ends(text::trimmed(value), CharSet::One('"')),
        CharSet::One('\''),
    );
    text::without_ends(text::without_ends(unquoted, CharSet::One('{')), CharSet::One('}'))
}

/// The labels of those attributes that have one.
pub open spec fn attr_labels(attrs: Seq<Seq<char>>) -> Seq<Seq<char>>
    decreases attrs.len(),
{
    if attrs.len() == 0 {
        seq![]
    } else {
        match attr_label(attrs.last()) {
            Some(label) => attr_labels(attrs.drop_last()).push(label),
            None => attr_labels(attrs.drop_last()),
        }
    }
}

/// The label of one attribute.
fn parse_attr_label(attr: &str) -> (r: Option<String>)
    ensures
        r.deep_view() == attr_label(attr@),
{
    let clean = text::trim(
        text::trim_end_matches(
            text::trim_end_matches(text::trim(attr), CharSet::One('>')),
            CharSet::One('/'),
        ),
    );
    match text::split_once(clean, "=") {
        Some((left, value)) => {
            let name = text::trim(left);
            if name.is_empty() {
                None
            } else if value.is_empty() {
                Some(name.to_string())
            } else {
                let unquoted = text::trim_matches(
                    text::trim_matches(text::trim(value), CharSet::One('"')),
                    CharSet::One('\''),
                );
                let bare = text::trim_matches(
                    text::trim_matches(unquoted, CharSet::One('{')),
                    CharSet::One('}'),
                );
                let mut label = name.to_string();
                label.append("=");
                label.append(bare);
                Some(label)
            }
        },
        None => {
            let name = text::trim(clean);
            if name.is_empty() {
                None
            } else {
                Some(name.to_string())
            }
        },
    }
}

/// The labels of the attributes in `attrs`.
pub fn parse_attr_labels(attrs: &str) -> (r: Vec<String>)
    ensures
        r.deep_view() == attr_labels(pieces::words(attrs@)),
{
    let parts = pieces::split_whitespace(attrs);
    let ghost all = pieces::words(attrs@);
    let mut r: Vec<String> = Vec::new();
    let mut i: usize = 0;
    assert(r.deep_view() =~= seq![]);
    while i < parts.len()
        invariant
            parts.deep_view() == all,
            i <= parts@.len(),
            r.deep_view() == attr_labels(all.take(i as int)),
        decreases parts@.len() - i,
    {
        let ghost before = r.deep_view();
        assert(all.take(i + 1).last() == parts@[i as int]@);
        assert(all.take(i + 1).drop_last() =~= all.take(i as int));
        match parse_attr_label(parts[i]) {
            Some(label) => {
                r.push(label);
                assert(r.deep_view() =~= before.push(label@));
            },
            None => {},
        }
        i += 1;
    }
    assert(all.take(i as int) =~= all);
    r
}

// ---------------------------------------------------------------------------
// Laws
// ---------------------------------------------------------------------------

/// Whether a text can be the name of a tag.
pub open spec fn tag_name(name: Seq<char>) -> bool {
    &&& name.len() > 0
    &&& name[0] != '!'
    &&& forall|i: int|
        0 <= i < name.len() ==> !text::white_space(#[trigger] name[i]) && name[i] != '>' && name[i]
            != '/'
}

proof fn lemma_name_is_cut(name: Seq<char>, tail: Seq<char>)
    requires
        text::none_in(name, CharSet::TagNameEnd),
        tail.len() > 0 ==> CharSet::TagNameEnd.has(tail[0]),
    ensures
        text::first_in(name + tail, CharSet::TagNameEnd) == name.len(),
        (name + tail).take(name.len() as int) == name,
        (name + tail).skip(name.len() as int) == tail,
{
    text::lemma_first_in_concat(name, tail, CharSet::TagNameEnd);
    assert(text::first_in(tail, CharSet::TagNameEnd) == 0);
    assert((name + tail).take(name.len() as int) =~= name);
    assert((name + tail).skip(name.len() as int) =~= tail);
}

/// What stands between `<` and `>` is a name and attributes. They come out as
/// they stand, the name in lower case: without the white space around them, and
/// without the slashes before the `>`.
pub proof fn law_segment_parts(
    pre: Seq<char>,
    name: Seq<char>,
    gap: Seq<char>,
    attrs: Seq<char>,
    space: Seq<char>,
    slashes: Seq<char>,
    post: Seq<char>,
)
    requires
        text::all_in(pre, CharSet::Space),
        text::all_in(gap, CharSet::Space),
        text::all_in(space, CharSet::Space),
        text::all_in(slashes, CharSet::One('/')),
        text::all_in(post, CharSet::Space),
        tag_name(name),
        attrs.len() == 0 || (text::bare_of(attrs, CharSet::Space) && attrs.last() != '/'),
        gap.len() == 0 <==> attrs.len() == 0,
        slashes.len() == 0 ==> space.len() == 0,
    ensures
        tag_of_segment(pre + (name + (gap + attrs + space + slashes)) + post) == Some(
            (case::lowercased(name), attrs),
        ),
{
    let tail = gap + attrs + space + slashes;
    let body = name + tail;
    assert(!CharSet::TagNameEnd.has(name[0]) && !CharSet::TagNameEnd.has(name.last()));
    assert(body[0] == name[0]);
    if slashes.len() > 0 {
        assert(body.last() == slashes.last());
        assert(CharSet::One('/').has(slashes.last()));
    } else if attrs.len() > 0 {
        assert(body.last() == attrs.last());
    } else {
        assert(body.last() == name.last());
    }
    text::law_trim(pre, body, post, CharSet::Space);
    if tail.len() > 0 {
        if gap.len() > 0 {
            assert(tail[0] == gap[0]);
            assert(CharSet::Space.has(gap[0]));
        } else if space.len() > 0 {
            assert(tail[0] == space[0]);
            assert(CharSet::Space.has(space[0]));
        } else {
            assert(tail[0] == slashes[0]);
            assert(CharSet::One('/').has(slashes[0]));
        }
    }
    lemma_name_is_cut(name, tail);
    if attrs.len() > 0 {
        let m = attrs + space + slashes;
        assert(m[0] == attrs[0]);
        if slashes.len() > 0 {
            assert(m.last() == slashes.last());
        } else {
            assert(m.last() == attrs.last());
        }
        text::law_trim(gap, m, seq![], CharSet::Space);
        assert(gap + m + seq![] =~= tail);
        let inner = attrs + space;
        if space.len() > 0 {
            assert(inner.last() == space.last());
            assert(CharSet::Space.has(space.last()));
        } else {
            assert(inner.last() == attrs.last());
        }
        text::law_trim_end(inner, slashes, CharSet::One('/'));
        assert(inner + slashes =~= m);
        text::law_trim(seq![], attrs, space, CharSet::Space);
        assert(seq![] + attrs + space =~= inner);
    } else {
        assert(tail =~= space + slashes + seq![]);
        if slashes.len() > 0 {
            assert(CharSet::One('/').has(slashes[0]));
        }
        text::law_trim(space, slashes, seq![], CharSet::Space);
        text::law_trim_end(seq![], slashes, CharSet::One('/'));
        assert(seq![] + slashes =~= slashes);
        text::law_trim(seq![], seq![], seq![], CharSet::Space);
        assert(attrs =~= seq![]);
    }
}

/// A segment that is blank, or that begins with `/`, `!` or `>` after white
/// space, names no tag.
pub proof fn law_segment_without_tag(pre: Seq<char>, x: Seq<char>)
    requires
        text::all_in(pre, CharSet::Space),
        x.len() > 0 ==> x[0] == '/' || x[0] == '!' || x[0] == '>',
    ensures
        tag_of_segment(pre + x) is None,
{
    text::law_trim_start(pre, x, CharSet::Space);
    text::lemma_without_trailing(x, CharSet::Space);
}

/// A line opens a tag with the name that stands behind its first `<`, in lower
/// case, and the attributes that stand behind the name. White space before the
/// `<` makes no difference.
pub proof fn law_opening_parts(pre: Seq<char>, name: Seq<char>, tail: Seq<char>)
    requires
        text::all_in(pre, CharSet::Space),
        tag_name(name),
        tail.len() > 0 ==> text::white_space(tail[0]) || tail[0] == '>' || tail[0] == '/',
    ensures
        opening_tag(pre + ("<"@ + (name + tail))) == Some(
            (case::lowercased(name), opening_attrs(tail)),
        ),
{
    reveal_strlit("<");
    let rest = name + tail;
    text::law_trim_start(pre, "<"@ + rest, CharSet::Space);
    text::law_affixes_come_off("<"@, rest);
    lemma_name_is_cut(name, tail);
    assert(rest[0] == name[0]);
    assert(!CharSet::TagNameEnd.has(name[0]));
}

/// A line that does not begin with `<` after white space opens no tag, and
/// neither does one whose `<` is followed by no name or by `!`.
pub proof fn law_no_opening(pre: Seq<char>, x: Seq<char>)
    requires
        text::all_in(pre, CharSet::Space),
    ensures
        (x.len() > 0 ==> x[0] != '<' && !text::white_space(x[0])) ==> opening_tag(pre + x) is None,
        (x.len() > 0 ==> x[0] == '!' || x[0] == '>' || x[0] == '/' || text::white_space(x[0]))
            ==> opening_tag(pre + ("<"@ + x)) is None,
{
    reveal_strlit("<");
    if x.len() > 0 ==> x[0] != '<' && !text::white_space(x[0]) {
        text::law_trim_start(pre, x, CharSet::Space);
        if "<"@.is_prefix_of(x) {
            assert(x.subrange(0, 1)[0] == x[0]);
        }
    }
    if x.len() > 0 ==> x[0] == '!' || x[0] == '>' || x[0] == '/' || text::white_space(x[0]) {
        text::law_trim_start(pre, "<"@ + x, CharSet::Space);
        text::law_affixes_come_off("<"@, x);
    }
}

/// A tag ends at its first `>` outside quotes: text without quotes and `>` is
/// passed over, and so is what a pair of quotes encloses.
pub proof fn law_tag_end(a: Seq<char>, quote: char, quoted: Seq<char>, b: Seq<char>)
    requires
        quote == '"' || quote == '\'',
        text::none_in(quoted, CharSet::One(quote)),
        text::none_in(a, CharSet::One('"')),
        text::none_in(a, CharSet::One('\'')),
        text::none_in(a, CharSet::One('>')),
    ensures
        tag_length(seq![], None) == 0,
        tag_length(">"@ + b, None) == 0,
        tag_length(a + b, None) == a.len() + tag_length(b, None),
        tag_length(seq![quote] + quoted + seq![quote] + b, None) == quoted.len() + 2 + tag_length(
            b,
            None,
        ),
        tag_length(seq![quote] + quoted, None) == quoted.len() + 1,
{
    reveal_strlit(">");
    assert((">"@ + b)[0] == '>');
    lemma_plain_text_is_passed(a, b);
    let s = seq![quote] + quoted + seq![quote] + b;
    assert(s[0] == quote);
    assert(s.drop_first() =~= quoted + (seq![quote] + b));
    lemma_quoted_text_is_passed(quoted, seq![quote] + b, quote);
    assert((seq![quote] + b).drop_first() =~= b);
    let t = seq![quote] + quoted;
    assert(t[0] == quote);
    assert(t.drop_first() =~= quoted + seq![]);
    lemma_quoted_text_is_passed(quoted, seq![], quote);
}

proof fn lemma_plain_text_is_passed(a: Seq<char>, b: Seq<char>)
    requires
        text::none_in(a, CharSet::One('"')),
        text::none_in(a, CharSet::One('\'')),
        text::none_in(a, CharSet::One('>')),
    ensures
        tag_length(a + b, None) == a.len() + tag_length(b, None),
    decreases a.len(),
{
    if a.len() == 0 {
        assert(a + b =~= b);
    } else {
        let t = a.drop_first();
        assert(forall|i: int| 0 <= i < t.len() ==> #[trigger] t[i] == a[i + 1]);
        assert((a + b)[0] == a[0]);
        assert(!CharSet::One('"').has(a[0]));
        assert(!CharSet::One('\'').has(a[0]));
        assert(!CharSet::One('>').has(a[0]));
        assert((a + b).drop_first() =~= t + b);
        lemma_plain_text_is_passed(t, b);
    }
}

proof fn lemma_quoted_text_is_passed(a: Seq<char>, b: Seq<char>, quote: char)
    requires
        text::none_in(a, CharSet::One(quote)),
    ensures
        tag_length(a + b, Some(quote)) == a.len() + tag_length(b, Some(quote)),
    decreases a.len(),
{
    if a.len() == 0 {
        assert(a + b =~= b);
    } else {
        let t = a.drop_first();
        assert(forall|i: int| 0 <= i < t.len() ==> #[trigger] t[i] == a[i + 1]);
        assert((a + b)[0] == a[0]);
        assert(!CharSet::One(quote).has(a[0]));
        assert((a + b).drop_first() =~= t + b);
        lemma_quoted_text_is_passed(t, b, quote);
    }
}

/// The attributes of a tag are the text up to its end, whole, without the white
/// space before it.
pub proof fn law_attrs_reach_the_end(gap: Seq<char>, x: Seq<char>, more: Seq<char>)
    requires
        text::all_in(gap, CharSet::Space),
        x.len() > 0 ==> !text::white_space(x[0]),
        tag_length(gap + x + (">"@ + more), None) == gap.len() + x.len(),
    ensures
        opening_attrs(gap + x + (">"@ + more)) == x,
{
    reveal_strlit(">");
    let tail = gap + x + (">"@ + more);
    assert(tail.take((gap.len() + x.len()) as int) =~= gap + x);
    text::law_trim_start(gap, x, CharSet::Space);
}

/// The attributes of a tag that does not end in its line are the rest of the
/// line, without the white space around it and the `>` at its end.
pub proof fn law_attrs_reach_the_line_end(
    gap: Seq<char>,
    x: Seq<char>,
    ends: Seq<char>,
    post: Seq<char>,
)
    requires
        text::all_in(gap, CharSet::Space),
        text::all_in(ends, CharSet::One('>')),
        text::all_in(post, CharSet::Space),
        (x.len() == 0 && ends.len() == 0) || (text::bare_of(x, CharSet::Space) && x.last() != '>'),
        tag_length(gap + (x + ends) + post, None) >= (gap + (x + ends) + post).len(),
    ensures
        opening_attrs(gap + (x + ends) + post) == x,
{
    let m = x + ends;
    if ends.len() > 0 {
        assert(m[0] == x[0] && m.last() == ends.last());
        assert(CharSet::One('>').has(ends.last()));
    } else {
        assert(m =~= x);
    }
    text::law_trim(gap, m, post, CharSet::Space);
    text::law_trim_end(x, ends, CharSet::One('>'));
}

/// A tag on one line without quotes: its name in lower case, and the text between
/// the name and the first `>`, whole, whatever follows.
pub proof fn law_plain_tag(
    pre: Seq<char>,
    name: Seq<char>,
    gap: Seq<char>,
    x: Seq<char>,
    more: Seq<char>,
)
    requires
        text::all_in(pre, CharSet::Space),
        text::all_in(gap, CharSet::Space),
        tag_name(name),
        x.len() > 0 ==> gap.len() > 0 && !text::white_space(x[0]),
        text::none_in(x, CharSet::One('"')),
        text::none_in(x, CharSet::One('\'')),
        text::none_in(x, CharSet::One('>')),
    ensures
        opening_tag(pre + ("<"@ + (name + (gap + x + (">"@ + more))))) == Some(
            (case::lowercased(name), x),
        ),
{
    reveal_strlit(">");
    let b = ">"@ + more;
    let a = gap + x;
    let tail = a + b;
    assert forall|i: int| 0 <= i < a.len() implies a[i] != '"' && a[i] != '\'' && #[trigger] a[i]
        != '>' by {
        if i < gap.len() {
            assert(a[i] == gap[i]);
            assert(CharSet::Space.has(gap[i]));
        } else {
            assert(a[i] == x[i - gap.len()]);
            assert(!CharSet::One('"').has(x[i - gap.len()]));
            assert(!CharSet::One('\'').has(x[i - gap.len()]));
            assert(!CharSet::One('>').has(x[i - gap.len()]));
        }
    }
    law_tag_end(a, '"', seq![], b);
    law_tag_end(a, '"', seq![], more);
    law_attrs_reach_the_end(gap, x, more);
    if gap.len() > 0 {
        assert(tail[0] == gap[0]);
        assert(CharSet::Space.has(gap[0]));
    } else {
        assert(tail[0] == '>');
    }
    law_opening_parts(pre, name, tail);
}

/// The labels of attributes are those of the first ones, then those of the
/// others.
pub proof fn law_attr_labels_of_parts(a: Seq<Seq<char>>, b: Seq<Seq<char>>)
    ensures
        attr_labels(a + b) == attr_labels(a) + attr_labels(b),
    decreases b.len(),
{
    if b.len() == 0 {
        assert(a + b =~= a);
        assert(attr_labels(a) + attr_labels(b) =~= attr_labels(a));
    } else {
        let front = b.drop_last();
        law_attr_labels_of_parts(a, front);
        assert((a + b).drop_last() =~= a + front);
        assert((a + b).last() == b.last());
        assert(attr_labels(a + b) =~= attr_labels(a) + attr_labels(b));
    }
}

/// White space parts attributes: the labels before it come first, then the
/// labels behind it.
pub proof fn law_attr_labels_of_text(a: Seq<char>, c: char, b: Seq<char>)
    requires
        text::white_space(c),
    ensures
        attr_labels(pieces::words(a.push(c) + b)) == attr_labels(pieces::words(a)) + attr_labels(
            pieces::words(b),
        ),
{
    pieces::law_words_of_parts(a, c, b);
    law_attr_labels_of_parts(pieces::words(a), pieces::words(b));
}

proof fn lemma_no_space_is_trimmed(s: Seq<char>)
    requires
        text::none_in(s, CharSet::Space),
    ensures
        text::trimmed(s) == s,
{
    if s.len() > 0 {
        assert(!CharSet::Space.has(s[0]) && !CharSet::Space.has(s.last()));
    }
    text::law_trim(seq![], s, seq![], CharSet::Space);
}

proof fn lemma_one_attr(attr: Seq<char>)
    requires
        attr.len() > 0,
        text::none_in(attr, CharSet::Space),
    ensures
        attr_labels(pieces::words(attr)) == (match attr_label(attr) {
            Some(label) => seq![label],
            None => seq![],
        }),
{
    pieces::law_one_word(attr);
    let all = seq![attr];
    assert(all.drop_last() =~= seq![]);
    assert(attr_labels(all.drop_last()) =~= seq![]);
    assert(all.last() == attr);
    match attr_label(attr) {
        Some(label) => {
            assert(Seq::<Seq<char>>::empty().push(label) =~= seq![label]);
        },
        None => {},
    }
}

proof fn lemma_attr_is_cleaned(attr: Seq<char>, slashes: Seq<char>, ends: Seq<char>)
    requires
        text::none_in(attr, CharSet::Space),
        text::all_in(slashes, CharSet::One('/')),
        text::all_in(ends, CharSet::One('>')),
        attr.len() > 0 && attr.last() != '/' && attr.last() != '>',
    ensures
        text::none_in(attr + slashes + ends, CharSet::Space),
        text::trimmed(
            text::without_trailing(
                text::without_trailing(
                    text::trimmed(attr + slashes + ends),
                    CharSet::One('>'),
                ),
                CharSet::One('/'),
            ),
        ) == attr,
{
    let s = attr + slashes;
    let all = s + ends;
    assert forall|i: int| 0 <= i < all.len() implies !CharSet::Space.has(#[trigger] all[i]) by {
        if i < attr.len() {
            assert(all[i] == attr[i]);
        } else if i < s.len() {
            assert(all[i] == slashes[i - attr.len()]);
            assert(CharSet::One('/').has(slashes[i - attr.len()]));
        } else {
            assert(all[i] == ends[i - s.len()]);
            assert(CharSet::One('>').has(ends[i - s.len()]));
        }
    }
    lemma_no_space_is_trimmed(all);
    if slashes.len() > 0 {
        assert(s.last() == slashes.last());
        assert(CharSet::One('/').has(slashes.last()));
    } else {
        assert(s.last() == attr.last());
    }
    text::law_trim_end(s, ends, CharSet::One('>'));
    text::law_trim_end(attr, slashes, CharSet::One('/'));
    lemma_no_space_is_trimmed(attr);
}

/// An attribute without a value is labelled with its name, whole. Slashes and `>`
/// behind it make no difference.
pub proof fn law_bare_attr_label(name: Seq<char>, slashes: Seq<char>, ends: Seq<char>)
    requires
        text::none_in(name, CharSet::Space),
        text::none_in(name, CharSet::One('=')),
        text::all_in(slashes, CharSet::One('/')),
        text::all_in(ends, CharSet::One('>')),
        name.len() > 0 && name.last() != '/' && name.last() != '>',
    ensures
        attr_labels(pieces::words(name + slashes + ends)) == seq![name],
{
    reveal_strlit("=");
    lemma_attr_is_cleaned(name, slashes, ends);
    text::law_no_split_without_the_pattern(name, "="@);
    lemma_no_space_is_trimmed(name);
    lemma_one_attr(name + slashes + ends);
}

/// An attribute with a value is labelled with its name, `=` and the value, both
/// whole. Quotes or braces around the value make no difference, and neither do
/// slashes and `>` behind it.
pub proof fn law_attr_label(
    name: Seq<char>,
    open: Seq<char>,
    x: Seq<char>,
    close: Seq<char>,
    slashes: Seq<char>,
    ends: Seq<char>,
)
    requires
        name.len() > 0,
        text::none_in(name, CharSet::Space),
        text::none_in(name, CharSet::One('=')),
        text::none_in(x, CharSet::Space),
        text::bare_of(x, CharSet::One('"')),
        text::bare_of(x, CharSet::One('\'')),
        text::bare_of(x, CharSet::One('{')),
        text::bare_of(x, CharSet::One('}')),
        ({
            ||| open == ""@ && close == ""@ && x.last() != '/' && x.last() != '>'
            ||| open == "\""@ && close == "\""@
            ||| open == "'"@ && close == "'"@
            ||| open == "{"@ && close == "}"@
            ||| open == "\"{"@ && close == "}\""@
            ||| open == "'{"@ && close == "}'"@
        }),
        text::all_in(slashes, CharSet::One('/')),
        text::all_in(ends, CharSet::One('>')),
    ensures
        attr_labels(pieces::words(name + "="@ + (open + x + close) + slashes + ends)) == seq![
            name + "="@ + x,
        ],
{
    reveal_strlit("=");
    reveal_strlit("");
    reveal_strlit("\"");
    reveal_strlit("'");
    reveal_strlit("{");
    reveal_strlit("}");
    reveal_strlit("\"{");
    reveal_strlit("}\"");
    reveal_strlit("'{");
    reveal_strlit("}'");
    let value = open + x + close;
    let attr = name + "="@ + value;
    assert forall|i: int| 0 <= i < value.len() implies !CharSet::Space.has(#[trigger] value[i]) by {
        if open.len() <= i < open.len() + x.len() {
            assert(value[i] == x[i - open.len()]);
        }
    }
    assert forall|i: int| 0 <= i < attr.len() implies !CharSet::Space.has(#[trigger] attr[i]) by {
        if i < name.len() {
            assert(attr[i] == name[i]);
        } else if i > name.len() {
            assert(attr[i] == value[i - name.len() - 1]);
        }
    }
    assert(attr.last() == value.last());
    lemma_attr_is_cleaned(attr, slashes, ends);
    lemma_one_attr(attr + slashes + ends);
    text::law_split_gives_the_parts(name, "="@, value);
    lemma_no_space_is_trimmed(name);
    lemma_bare_value(open, x, close);
}

proof fn lemma_bare_value(open: Seq<char>, x: Seq<char>, close: Seq<char>)
    requires
        text::none_in(x, CharSet::Space),
        text::bare_of(x, CharSet::One('"')),
        text::bare_of(x, CharSet::One('\'')),
        text::bare_of(x, CharSet::One('{')),
        text::bare_of(x, CharSet::One('}')),
        ({
            ||| open =~= seq![] && close =~= seq![]
            ||| open =~= seq!['"'] && close =~= seq!['"']
            ||| open =~= seq!['\''] && close =~= seq!['\'']
            ||| open =~= seq!['{'] && close =~= seq!['}']
            ||| open =~= seq!['"', '{'] && close =~= seq!['}', '"']
            ||| open =~= seq!['\'', '{'] && close =~= seq!['}', '\'']
        }),
    ensures
        bare_value(open + x + close) == x,
{
    let none = Seq::<char>::empty();
    let s = open + x + close;
    assert forall|i: int| 0 <= i < s.len() implies !CharSet::Space.has(#[trigger] s[i]) by {
        if open.len() <= i < open.len() + x.len() {
            assert(s[i] == x[i - open.len()]);
        }
    }
    lemma_no_space_is_trimmed(s);
    text::law_trim(none, x, none, CharSet::One('"'));
    text::law_trim(none, x, none, CharSet::One('\''));
    text::law_trim(none, x, none, CharSet::One('{'));
    text::law_trim(none, x, none, CharSet::One('}'));
    if open =~= seq![] {
        assert(s =~= x);
    } else if open =~= seq!['"'] {
        text::law_trim(open, x, close, CharSet::One('"'));
    } else if open =~= seq!['\''] {
        text::law_trim(none, s, none, CharSet::One('"'));
        text::law_trim(open, x, close, CharSet::One('\''));
    } else if open =~= seq!['{'] {
        text::law_trim(none, s, none, CharSet::One('"'));
        text::law_trim(none, s, none, CharSet::One('\''));
        lemma_braces_come_off(x);
    } else {
        let m = seq!['{'] + x + seq!['}'];
        assert(s =~= seq![open[0]] + m + seq![open[0]]);
        if open[0] == '"' {
            text::law_trim(seq!['"'], m, seq!['"'], CharSet::One('"'));
            text::law_trim(none, m, none, CharSet::One('\''));
        } else {
            text::law_trim(none, s, none, CharSet::One('"'));
            text::law_trim(seq!['\''], m, seq!['\''], CharSet::One('\''));
        }
        lemma_braces_come_off(x);
    }
}

proof fn lemma_braces_come_off(x: Seq<char>)
    requires
        text::bare_of(x, CharSet::One('{')),
        text::bare_of(x, CharSet::One('}')),
    ensures
        text::without_ends(
            text::without_ends(seq!['{'] + x + seq!['}'], CharSet::One('{')),
            CharSet::One('}'),
        ) == x,
{
    let none = Seq::<char>::empty();
    let m = x + seq!['}'];
    assert(m[0] == x[0] && m.last() == '}');
    text::law_trim(seq!['{'], m, none, CharSet::One('{'));
    assert(seq!['{'] + m + none =~= seq!['{'] + x + seq!['}']);
    text::law_trim(none, x, seq!['}'], CharSet::One('}'));
    assert(none + x + seq!['}'] =~= m);
}

/// White space parts attributes: one of them is the keyword where one before it
/// is, or one behind it.
pub proof fn law_attr_in_parts(a: Seq<char>, c: char, b: Seq<char>, keyword: Seq<char>)
    requires
        text::white_space(c),
    ensures
        has_attr(a.push(c) + b, keyword) == (has_attr(a, keyword) || has_attr(b, keyword)),
{
    pieces::law_words_of_parts(a, c, b);
    let x = pieces::words(a);
    let y = pieces::words(b);
    let all = pieces::words(a.push(c) + b);
    if has_attr(a, keyword) {
        let i = choose|i: int| 0 <= i < x.len() && is_attr(#[trigger] x[i], keyword);
        assert(is_attr(all[i], keyword));
    }
    if has_attr(b, keyword) {
        let i = choose|i: int| 0 <= i < y.len() && is_attr(#[trigger] y[i], keyword);
        assert(all[x.len() + i] == y[i]);
        assert(is_attr(all[x.len() + i], keyword));
    }
    if has_attr(a.push(c) + b, keyword) {
        let i = choose|i: int| 0 <= i < all.len() && is_attr(#[trigger] all[i], keyword);
        if i < x.len() {
            assert(is_attr(x[i], keyword));
        } else {
            assert(is_attr(y[i - x.len()], keyword));
        }
    }
}

/// An attribute is the keyword where it is the keyword itself, or the keyword,
/// `=` and any value. With anything else behind the keyword it is another.
pub proof fn law_attr_is_keyword(keyword: Seq<char>, x: Seq<char>)
    requires
        keyword.len() > 0,
        case::plain_lower(keyword + x),
        text::none_in(keyword + x, CharSet::Space),
    ensures
        has_attr(keyword + x, keyword) <==> x.len() == 0 || x[0] == '=',
        !has_attr(seq![], keyword),
{
    reveal_strlit("=");
    let s = keyword + x;
    pieces::law_one_word(s);
    pieces::law_one_word(seq![]);
    case::law_lower_case_stays(s);
    assert(pieces::words(s)[0] == s);
    let k = keyword + "="@;
    if x.len() == 0 {
        assert(s =~= keyword);
        assert(is_attr(pieces::words(s)[0], keyword));
    } else if x[0] == '=' {
        assert(s.subrange(0, k.len() as int) =~= k);
        assert(is_attr(pieces::words(s)[0], keyword));
    } else {
        assert(s.len() != keyword.len());
        if k.is_prefix_of(s) {
            assert(s.subrange(0, k.len() as int)[keyword.len() as int] == s[keyword.len() as int]);
            assert(k[keyword.len() as int] == '=');
        }
        assert(!is_attr(s, keyword));
    }
}

/// White space parts attributes: the language is the one before it, or else the
/// one behind it.
pub proof fn law_lang_of_parts(a: Seq<char>, c: char, b: Seq<char>)
    requires
        text::white_space(c),
    ensures
        first_lang(pieces::words(a.push(c) + b)) == (match first_lang(pieces::words(a)) {
            Some(lang) => Some(lang),
            None => first_lang(pieces::words(b)),
        }),
{
    pieces::law_words_of_parts(a, c, b);
    lemma_first_lang_concat(pieces::words(a), pieces::words(b));
}

proof fn lemma_first_lang_concat(a: Seq<Seq<char>>, b: Seq<Seq<char>>)
    ensures
        first_lang(a + b) == (match first_lang(a) {
            Some(lang) => Some(lang),
            None => first_lang(b),
        }),
    decreases a.len(),
{
    if a.len() == 0 {
        assert(a + b =~= b);
    } else {
        assert((a + b).drop_first() =~= a.drop_first() + b);
        assert((a + b)[0] == a[0]);
        lemma_first_lang_concat(a.drop_first(), b);
    }
}

/// A `lang` attribute gives its value, whole, without the quotes around it. An
/// attribute that begins otherwise gives none.
pub proof fn law_lang_value(quote: Seq<char>, x: Seq<char>)
    requires
        quote == ""@ || quote == "\""@ || quote == "'"@,
        text::none_in(x, CharSet::Space),
        case::plain_lower(x),
    ensures
        x.len() == 0 || (text::bare_of(x, CharSet::One('"')) && text::bare_of(
            x,
            CharSet::One('\''),
        )) ==> first_lang(pieces::words("lang="@ + (quote + x + quote))) == Some(x),
        !"lang="@.is_prefix_of(x) ==> first_lang(pieces::words(x)) is None,
{
    reveal_strlit("lang=");
    reveal_strlit("");
    reveal_strlit("\"");
    reveal_strlit("'");
    let none = Seq::<char>::empty();
    let value = quote + x + quote;
    let attr = "lang="@ + value;
    assert forall|i: int| 0 <= i < value.len() implies '\0' <= value[i] <= '\x7f' && !('A'
        <= value[i] <= 'Z') && !CharSet::Space.has(#[trigger] value[i]) by {
        if quote.len() <= i < quote.len() + x.len() {
            assert(value[i] == x[i - quote.len()]);
        }
    }
    assert forall|i: int| 0 <= i < attr.len() implies '\0' <= attr[i] <= '\x7f' && !('A' <= attr[i]
        <= 'Z') && !CharSet::Space.has(#[trigger] attr[i]) by {
        if i >= 5 {
            assert(attr[i] == value[i - 5]);
        }
    }
    pieces::law_one_word(attr);
    pieces::law_one_word(x);
    case::law_lower_case_stays(attr);
    case::law_lower_case_stays(x);
    text::law_affixes_come_off("lang="@, value);
    if x.len() == 0 || (text::bare_of(x, CharSet::One('"')) && text::bare_of(
        x,
        CharSet::One('\''),
    )) {
        text::law_trim(none, x, none, CharSet::One('"'));
        text::law_trim(none, x, none, CharSet::One('\''));
        if quote == "\""@ {
            text::law_trim(quote, x, quote, CharSet::One('"'));
        } else if quote == "'"@ {
            text::law_trim(none, value, none, CharSet::One('"'));
            text::law_trim(quote, x, quote, CharSet::One('\''));
        } else {
            assert(value =~= x);
        }
        assert(pieces::words(attr)[0] == attr);
        assert(lang_value(attr) == Some(x));
    }
    if x.len() > 0 && !"lang="@.is_prefix_of(x) {
        assert(pieces::words(x)[0] == x);
        assert(pieces::words(x).drop_first() =~= seq![]);
        assert(first_lang(pieces::words(x).drop_first()) is None);
    }
}

/// The case of an ASCII attribute makes no difference to whether it is a keyword
/// and to the language it gives.
pub proof fn law_case_of_attr_does_not_matter(attr: Seq<char>, keyword: Seq<char>)
    requires
        vstd::utf8::is_ascii_chars(attr),
        text::none_in(attr, CharSet::Space),
    ensures
        has_attr(attr, keyword) == has_attr(case::lowercased(attr), keyword),
        first_lang(pieces::words(attr)) == first_lang(pieces::words(case::lowercased(attr))),
{
    let lower = case::lowercased(attr);
    case::law_lower_case_of_lower_case(attr);
    assert forall|i: int| 0 <= i < lower.len() implies !CharSet::Space.has(#[trigger] lower[i]) by {
        assert(!CharSet::Space.has(attr[i]));
    }
    pieces::law_one_word(attr);
    pieces::law_one_word(lower);
    if attr.len() > 0 {
        let a = pieces::words(attr);
        let b = pieces::words(lower);
        assert(a[0] == attr && b[0] == lower);
        assert(is_attr(a[0], keyword) == is_attr(b[0], keyword));
        assert(a.drop_first() =~= b.drop_first());
    }
}

/// An attribute with an empty value in quotes or braces is labelled with its name
/// and `=`, one with nothing behind the `=` with its name, and one without a name
/// has no label.
pub proof fn law_empty_attr(name: Seq<char>, quotes: Seq<char>, value: Seq<char>)
    requires
        text::none_in(name, CharSet::Space),
        text::none_in(name, CharSet::One('=')),
        name.len() > 0,
        quotes == "\"\""@ || quotes == "''"@ || quotes == "{}"@,
        text::none_in(value, CharSet::Space),
        value.len() > 0 ==> value.last() != '/' && value.last() != '>',
    ensures
        attr_labels(pieces::words(name + "="@ + quotes)) == seq![name + "="@],
        attr_labels(pieces::words(name + "="@)) == seq![name],
        attr_labels(pieces::words("="@ + value)) == Seq::<Seq<char>>::empty(),
{
    reveal_strlit("=");
    reveal_strlit("\"\"");
    reveal_strlit("''");
    reveal_strlit("{}");
    let none = Seq::<char>::empty();
    lemma_no_space_is_trimmed(none);
    lemma_no_space_is_trimmed(name);
    let a = name + "="@ + quotes;
    lemma_parts_have_no_space(name, "="@ + quotes);
    assert(a =~= name + ("="@ + quotes));
    assert(a.last() == quotes[1]);
    lemma_attr_is_cleaned(a, none, none);
    assert(a + none + none =~= a);
    lemma_one_attr(a);
    text::law_split_gives_the_parts(name, "="@, quotes);
    lemma_empty_value(quotes);
    assert(name + "="@ + none =~= name + "="@);
    let b = name + "="@;
    lemma_parts_have_no_space(name, "="@);
    assert(b.last() == '=');
    lemma_attr_is_cleaned(b, none, none);
    assert(b + none + none =~= b);
    lemma_one_attr(b);
    text::law_split_gives_the_parts(name, "="@, none);
    assert(name + "="@ + none =~= b);
    let c = "="@ + value;
    lemma_parts_have_no_space("="@, value);
    if value.len() > 0 {
        assert(c.last() == value.last());
    } else {
        assert(c.last() == '=');
    }
    lemma_attr_is_cleaned(c, none, none);
    assert(c + none + none =~= c);
    lemma_one_attr(c);
    text::law_split_gives_the_parts(none, "="@, value);
    assert(none + "="@ + value =~= c);
}

proof fn lemma_parts_have_no_space(a: Seq<char>, b: Seq<char>)
    requires
        text::none_in(a, CharSet::Space),
        text::none_in(b, CharSet::Space),
    ensures
        text::none_in(a + b, CharSet::Space),
{
    let s = a + b;
    assert forall|i: int| 0 <= i < s.len() implies !CharSet::Space.has(#[trigger] s[i]) by {
        if i < a.len() {
            assert(s[i] == a[i]);
        } else {
            assert(s[i] == b[i - a.len()]);
        }
    }
}

proof fn lemma_empty_value(quotes: Seq<char>)
    requires
        quotes =~= seq!['"', '"'] || quotes =~= seq!['\'', '\''] || quotes =~= seq!['{', '}'],
    ensures
        bare_value(quotes) == Seq::<char>::empty(),
{
    let none = Seq::<char>::empty();
    text::law_trim(none, none, none, CharSet::One('"'));
    text::law_trim(none, none, none, CharSet::One('\''));
    text::law_trim(none, none, none, CharSet::One('{'));
    text::law_trim(none, none, none, CharSet::One('}'));
    lemma_no_space_is_trimmed(quotes);
    if quotes =~= seq!['"', '"'] {
        text::law_trim(quotes, none, none, CharSet::One('"'));
        assert(quotes + none + none =~= quotes);
    } else if quotes =~= seq!['\'', '\''] {
        text::law_trim(none, quotes, none, CharSet::One('"'));
        text::law_trim(quotes, none, none, CharSet::One('\''));
        assert(quotes + none + none =~= quotes);
    } else {
        text::law_trim(none, quotes, none, CharSet::One('"'));
        text::law_trim(none, quotes, none, CharSet::One('\''));
        text::law_trim(seq!['{'], seq!['}'], none, CharSet::One('{'));
        assert(seq!['{'] + seq!['}'] + none =~= quotes);
        text::law_trim(seq!['}'], none, none, CharSet::One('}'));
        assert(seq!['}'] + none + none =~= seq!['}']);
    }
}

/// An attribute that does not begin with the keyword is another.
pub proof fn law_other_attr(attr: Seq<char>, keyword: Seq<char>)
    requires
        case::plain_lower(attr),
        text::none_in(attr, CharSet::Space),
        !keyword.is_prefix_of(attr),
    ensures
        !has_attr(attr, keyword),
{
    pieces::law_one_word(attr);
    case::law_lower_case_stays(attr);
    if attr.len() > 0 {
        assert(pieces::words(attr)[0] == attr);
        let k = keyword + "="@;
        if k.is_prefix_of(attr) {
            assert(attr.subrange(0, keyword.len() as int) =~= k.subrange(0, keyword.len() as int));
            assert(k.subrange(0, keyword.len() as int) =~= keyword);
        }
        if attr == keyword {
            assert(attr.subrange(0, keyword.len() as int) =~= keyword);
        }
        assert(!is_attr(attr, keyword));
    }
}

} // verus!
