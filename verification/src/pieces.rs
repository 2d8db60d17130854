//! Texts as sequences of pieces: lines, words, and pieces joined by a separator.

use crate::cut;
use crate::text;
use crate::text::CharSet;
use vstd::prelude::*;

verus! {

broadcast use vstd::string::group_string_axioms;

/// A line without the carriage return that precedes its line feed.
pub open spec fn without_return(line: Seq<char>) -> Seq<char> {
    if line.len() > 0 && line.last() == '\r' {
        line.drop_last()
    } else {
        line
    }
}

/// The lines of `s`. A line ends at a line feed, or at a carriage return
/// followed by one; the last line may also end with `s`.
pub open spec fn line_seq(s: Seq<char>) -> Seq<Seq<char>>
    decreases s.len(),
{
    if s.len() == 0 {
        seq![]
    } else {
        let n = text::first_in(s, CharSet::One('\n'));
        if n < s.len() {
            seq![without_return(s.take(n as int))] + line_seq(s.skip(n as int + 1))
        } else {
            seq![s]
        }
    }
}

/// The words of `s`: its longest runs without white space.
pub open spec fn words(s: Seq<char>) -> Seq<Seq<char>>
    decreases s.len(),
{
    if s.len() == 0 {
        seq![]
    } else if text::white_space(s[0]) {
        words(s.drop_first())
    } else {
        let n = text::first_in(s, CharSet::Space);
        proof {
            text::lemma_first_in(s, CharSet::Space);
        }
        seq![s.take(n as int)] + words(s.skip(n as int))
    }
}

/// The parts in order, with `sep` between each two neighbours.
pub open spec fn joined(parts: Seq<Seq<char>>, sep: Seq<char>) -> Seq<char>
    decreases parts.len(),
{
    if parts.len() == 0 {
        seq![]
    } else if parts.len() == 1 {
        parts[0]
    } else {
        joined(parts.drop_last(), sep) + sep + parts.last()
    }
}

/// Whether a text is a single line.
pub open spec fn single_line(s: Seq<char>) -> bool {
    forall|i: int| 0 <= i < s.len() ==> #[trigger] s[i] != '\n'
}

/// No line holds a line feed.
pub proof fn lemma_lines_are_single(s: Seq<char>)
    ensures
        forall|i: int| 0 <= i < line_seq(s).len() ==> single_line(#[trigger] line_seq(s)[i]),
    decreases s.len(),
{
    if s.len() > 0 {
        let set = CharSet::One('\n');
        let n = text::first_in(s, set) as int;
        text::lemma_first_in(s, set);
        if n < s.len() {
            let head = without_return(s.take(n));
            let rest = line_seq(s.skip(n + 1));
            lemma_lines_are_single(s.skip(n + 1));
            assert forall|i: int| 0 <= i < line_seq(s).len() implies single_line(
                #[trigger] line_seq(s)[i],
            ) by {
                if i == 0 {
                    assert(line_seq(s)[0] == head);
                } else {
                    assert(line_seq(s)[i] == rest[i - 1]);
                }
            }
        } else {
            assert(line_seq(s)[0] == s);
        }
    }
}

/// Joined parts begin with the first part, and go on with the others joined.
pub proof fn lemma_joined_first(parts: Seq<Seq<char>>, sep: Seq<char>)
    requires
        parts.len() >= 2,
    ensures
        joined(parts, sep) == parts[0] + sep + joined(parts.drop_first(), sep),
    decreases parts.len(),
{
    let front = parts.drop_last();
    let tail = parts.drop_first();
    if parts.len() == 2 {
        assert(joined(front, sep) == parts[0]);
        assert(joined(tail, sep) == parts[1]);
    } else {
        lemma_joined_first(front, sep);
        assert(front.drop_first() =~= tail.drop_last());
        assert(joined(parts, sep) =~= parts[0] + sep + joined(tail, sep));
    }
}

/// One part more adds the separator and the part.
pub proof fn lemma_joined_more(parts: Seq<Seq<char>>, more: Seq<Seq<char>>, sep: Seq<char>)
    requires
        parts.len() > 0,
        more.len() <= 1,
    ensures
        joined(parts + more, sep) == joined(parts, sep) + (if more.len() == 0 {
            seq![]
        } else {
            sep + more[0]
        }),
{
    if more.len() == 0 {
        assert(parts + more =~= parts);
        assert(joined(parts, sep) + seq![] =~= joined(parts, sep));
    } else {
        assert((parts + more).drop_last() =~= parts);
        assert(joined(parts, sep) + sep + more[0] =~= joined(parts, sep) + (sep + more[0]));
    }
}

/// The lines of single lines joined by line feeds are those lines: the last one
/// as it is unless it is empty, the others without a final carriage return.
pub proof fn lemma_lines_of_joined(parts: Seq<Seq<char>>)
    requires
        forall|i: int| 0 <= i < parts.len() ==> single_line(#[trigger] parts[i]),
    ensures
        parts.len() == 0 ==> line_seq(joined(parts, "\n"@)) == Seq::<Seq<char>>::empty(),
        parts.len() > 0 ==> line_seq(joined(parts, "\n"@)) == parts.drop_last().map_values(
            |line: Seq<char>| without_return(line),
        ) + (if parts.last().len() == 0 {
            seq![]
        } else {
            seq![parts.last()]
        }),
    decreases parts.len(),
{
    reveal_strlit("\n");
    let set = CharSet::One('\n');
    let s = joined(parts, "\n"@);
    if parts.len() == 1 {
        text::lemma_first_in(s, set);
        assert(parts.drop_last() =~= seq![]);
    } else if parts.len() >= 2 {
        let rest = parts.drop_first();
        lemma_joined_first(parts, "\n"@);
        let tail = "\n"@ + joined(rest, "\n"@);
        assert(s =~= parts[0] + tail);
        assert(tail[0] == '\n');
        text::lemma_first_in_concat(parts[0], tail, set);
        assert(s.take(parts[0].len() as int) =~= parts[0]);
        assert(s.skip(parts[0].len() as int + 1) =~= joined(rest, "\n"@));
        assert forall|i: int| 0 <= i < rest.len() implies single_line(#[trigger] rest[i]) by {
            assert(rest[i] == parts[i + 1]);
        }
        lemma_lines_of_joined(rest);
        let f = |line: Seq<char>| without_return(line);
        assert(parts.drop_last().map_values(f) =~= seq![without_return(parts[0])]
            + rest.drop_last().map_values(f));
        assert(parts.last() == rest.last());
    }
}

/// `s` with a carriage return in front of each line feed.
pub open spec fn with_returns(s: Seq<char>) -> Seq<char>
    decreases s.len(),
{
    if s.len() == 0 {
        seq![]
    } else if s[0] == '\n' {
        seq!['\r', '\n'] + with_returns(s.drop_first())
    } else {
        seq![s[0]] + with_returns(s.drop_first())
    }
}

/// Whether no carriage return stands right before a line feed. That holds of
/// every text without carriage returns.
pub open spec fn no_return_before_feed(s: Seq<char>) -> bool {
    forall|i: int| 0 <= i && i + 1 < s.len() && #[trigger] s[i] == '\r' ==> s[i + 1] != '\n'
}

/// The part of a text up to its first line feed stays as it is.
proof fn lemma_with_returns_line(a: Seq<char>, b: Seq<char>)
    requires
        single_line(a),
    ensures
        with_returns(a + b) == a + with_returns(b),
    decreases a.len(),
{
    if a.len() == 0 {
        assert(a + b =~= b);
        assert(a + with_returns(b) =~= with_returns(b));
    } else {
        let t = a.drop_first();
        assert((a + b).drop_first() =~= t + b);
        assert forall|i: int| 0 <= i < t.len() implies #[trigger] t[i] != '\n' by {
            assert(t[i] == a[i + 1]);
        }
        lemma_with_returns_line(t, b);
        assert(seq![a[0]] + (t + with_returns(b)) =~= a + with_returns(b));
    }
}

/// A carriage return in front of each line feed leaves the lines as they are.
pub proof fn lemma_lines_with_returns(s: Seq<char>)
    requires
        no_return_before_feed(s),
    ensures
        line_seq(with_returns(s)) == line_seq(s),
    decreases s.len(),
{
    let set = CharSet::One('\n');
    let n = text::first_in(s, set) as int;
    text::lemma_first_in(s, set);
    let head = s.take(n);
    let tail = s.skip(n);
    assert(s =~= head + tail);
    assert forall|i: int| 0 <= i < head.len() implies #[trigger] head[i] != '\n' by {
        assert(head[i] == s[i]);
    }
    lemma_with_returns_line(head, tail);
    if n < s.len() {
        let rest = s.skip(n + 1);
        assert(tail.drop_first() =~= rest);
        let more = with_returns(rest);
        let t = with_returns(s);
        let line = head.push('\r');
        let ending = seq!['\n'] + more;
        assert(t =~= line + ending);
        assert(ending[0] == '\n');
        text::lemma_first_in_concat(line, ending, set);
        assert(t.take(n + 1) =~= line);
        assert(without_return(line) =~= head);
        assert(t.skip(n + 2) =~= more);
        assert(without_return(head) == head) by {
            if n > 0 {
                assert(head.last() == s[n - 1]);
            }
        }
        assert forall|i: int| 0 <= i && i + 1 < rest.len() && #[trigger] rest[i]
            == '\r' implies rest[i + 1] != '\n' by {
            assert(rest[i] == s[n + 1 + i]);
        }
        lemma_lines_with_returns(rest);
    } else {
        assert(tail =~= seq![]);
        assert(with_returns(s) =~= s);
    }
}

/// Lines each followed by a line feed.
pub open spec fn terminated(lines: Seq<Seq<char>>) -> Seq<char>
    decreases lines.len(),
{
    if lines.len() == 0 {
        seq![]
    } else {
        lines[0].push('\n') + terminated(lines.drop_first())
    }
}

/// Lines each followed by a line feed are read back as they are.
pub proof fn lemma_lines_of_terminated(lines: Seq<Seq<char>>)
    requires
        forall|i: int|
            0 <= i < lines.len() ==> single_line(#[trigger] lines[i]) && without_return(lines[i])
                == lines[i],
    ensures
        line_seq(terminated(lines)) == lines,
    decreases lines.len(),
{
    if lines.len() == 0 {
        assert(line_seq(terminated(lines)) =~= lines);
    } else {
        let set = CharSet::One('\n');
        let rest = lines.drop_first();
        let s = terminated(lines);
        let n = lines[0].len() as int;
        let tail = seq!['\n'] + terminated(rest);
        assert(s =~= lines[0] + tail);
        assert(tail[0] == '\n');
        text::lemma_first_in_concat(lines[0], tail, set);
        assert(s.take(n) =~= lines[0]);
        assert(s.skip(n + 1) =~= terminated(rest));
        assert forall|i: int| 0 <= i < rest.len() implies single_line(#[trigger] rest[i])
            && without_return(rest[i]) == rest[i] by {
            assert(rest[i] == lines[i + 1]);
        }
        lemma_lines_of_terminated(rest);
        assert(line_seq(s) =~= lines);
    }
}

/// Whether a text is empty or ends with a line feed.
pub open spec fn whole_lines(s: Seq<char>) -> bool {
    s.len() == 0 || s.last() == '\n'
}

/// The lines of whole lines followed by more text are those lines and then the
/// lines of the text.
pub proof fn lemma_lines_of_concat(a: Seq<char>, b: Seq<char>)
    requires
        whole_lines(a),
    ensures
        line_seq(a + b) == line_seq(a) + line_seq(b),
    decreases a.len(),
{
    if a.len() == 0 {
        assert(a + b =~= b);
        assert(line_seq(a) + line_seq(b) =~= line_seq(b));
    } else {
        let set = CharSet::One('\n');
        let n = text::first_in(a, set) as int;
        text::lemma_first_in(a, set);
        assert(n < a.len());
        let head = a.take(n);
        let tail = a.skip(n) + b;
        assert(a + b =~= head + tail);
        assert(tail[0] == '\n');
        assert forall|i: int| 0 <= i < head.len() implies !set.has(#[trigger] head[i]) by {
            assert(head[i] == a[i]);
        }
        text::lemma_first_in_concat(head, tail, set);
        let rest = a.skip(n + 1);
        assert((a + b).take(n) =~= head);
        assert((a + b).skip(n + 1) =~= rest + b);
        lemma_lines_of_concat(rest, b);
        let first = seq![without_return(head)];
        assert(first + (line_seq(rest) + line_seq(b)) =~= (first + line_seq(rest)) + line_seq(b));
    }
}

/// A text without carriage returns has lines without them.
pub proof fn lemma_lines_without_returns(s: Seq<char>)
    requires
        forall|i: int| 0 <= i < s.len() ==> #[trigger] s[i] != '\r',
    ensures
        forall|i: int|
            0 <= i < line_seq(s).len() ==> without_return(#[trigger] line_seq(s)[i])
                == line_seq(s)[i],
    decreases s.len(),
{
    if s.len() > 0 {
        let set = CharSet::One('\n');
        let n = text::first_in(s, set) as int;
        text::lemma_first_in(s, set);
        if n < s.len() {
            let head = s.take(n);
            let tail = s.skip(n + 1);
            let rest = line_seq(tail);
            assert forall|i: int| 0 <= i < tail.len() implies #[trigger] tail[i] != '\r' by {
                assert(tail[i] == s[n + 1 + i]);
            }
            lemma_lines_without_returns(tail);
            if n > 0 {
                assert(head.last() == s[n - 1]);
            }
            let lines = line_seq(s);
            assert(lines == seq![without_return(head)] + rest);
            assert forall|i: int| 0 <= i < lines.len() implies without_return(
                #[trigger] lines[i],
            ) == lines[i] by {
                if i > 0 {
                    assert(lines[i] == rest[i - 1]);
                }
            }
        } else {
            assert(line_seq(s) == seq![s]);
            assert(s.last() == s[s.len() - 1]);
        }
    }
}

/// The lines of `s`.
pub fn lines<'a>(s: &'a str) -> (r: Vec<&'a str>)
    ensures
        r.deep_view() == line_seq(s@),
{
    let mut r: Vec<&'a str> = Vec::new();
    let mut rest: &'a str = s;
    assert(r.deep_view() =~= seq![]);
    while !rest.is_empty()
        invariant
            line_seq(s@) == r.deep_view() + line_seq(rest@),
        decreases rest@.len(),
    {
        let ghost before = r.deep_view();
        let n = text::find_in(rest, CharSet::One('\n'));
        let (raw, tail) = cut::split_chars(rest, n);
        if tail.is_empty() {
            r.push(rest);
            assert(r.deep_view() =~= before + seq![rest@]);
            assert(before + line_seq(rest@) =~= r.deep_view());
            return r;
        }
        let k = raw.unicode_len();
        let line = if k > 0 && raw.get_char(k - 1) == '\r' {
            text::take(raw, k - 1)
        } else {
            raw
        };
        assert(line@ =~= without_return(raw@));
        r.push(line);
        assert(r.deep_view() =~= before + seq![line@]);
        let next = text::skip(tail, 1);
        assert(next@ =~= rest@.skip(n + 1));
        assert(before + line_seq(rest@) =~= r.deep_view() + line_seq(next@));
        rest = next;
    }
    assert(r.deep_view() + line_seq(rest@) =~= r.deep_view());
    r
}

/// The words of `s`.
pub fn split_whitespace<'a>(s: &'a str) -> (r: Vec<&'a str>)
    ensures
        r.deep_view() == words(s@),
{
    let mut r: Vec<&'a str> = Vec::new();
    let mut rest: &'a str = s;
    assert(r.deep_view() =~= seq![]);
    while !rest.is_empty()
        invariant
            words(s@) == r.deep_view() + words(rest@),
        decreases rest@.len(),
    {
        let ghost before = r.deep_view();
        let n = text::find_in(rest, CharSet::Space);
        if n == 0 {
            let tail = text::skip(rest, 1);
            assert(tail@ =~= rest@.drop_first());
            rest = tail;
        } else {
            let (word, tail) = cut::split_chars(rest, n);
            r.push(word);
            assert(r.deep_view() =~= before + seq![word@]);
            assert(before + words(rest@) =~= r.deep_view() + words(tail@));
            rest = tail;
        }
    }
    assert(r.deep_view() + words(rest@) =~= r.deep_view());
    r
}

/// The parts from `from` up to `to`, with `sep` between each two neighbours.
pub fn join(parts: &Vec<&str>, from: usize, to: usize, sep: &str) -> (r: String)
    requires
        from <= to <= parts@.len(),
    ensures
        r@ == joined(parts.deep_view().subrange(from as int, to as int), sep@),
{
    let mut r = String::new();
    let mut i: usize = from;
    let ghost all = parts.deep_view();
    while i < to
        invariant
            all == parts.deep_view(),
            from <= i <= to <= parts@.len(),
            r@ =~= joined(all.subrange(from as int, i as int), sep@),
        decreases to - i,
    {
        let ghost next = all.subrange(from as int, i + 1);
        assert(next.drop_last() =~= all.subrange(from as int, i as int));
        assert(next.last() == parts@[i as int]@);
        if i != from {
            r.append(sep);
        }
        r.append(parts[i]);
        i += 1;
    }
    r
}

// ---------------------------------------------------------------------------
// Laws
// ---------------------------------------------------------------------------

/// White space parts a text into the words before it and the words after it.
pub proof fn law_words_of_parts(a: Seq<char>, c: char, b: Seq<char>)
    requires
        text::white_space(c),
    ensures
        words(a.push(c) + b) == words(a) + words(b),
    decreases a.len(),
{
    let s = a.push(c) + b;
    let set = CharSet::Space;
    if a.len() == 0 {
        assert(s[0] == c);
        assert(s.drop_first() =~= b);
        assert(words(a) + words(b) =~= words(b));
    } else if text::white_space(a[0]) {
        assert(s[0] == a[0]);
        assert(s.drop_first() =~= a.drop_first().push(c) + b);
        law_words_of_parts(a.drop_first(), c, b);
    } else {
        let n = text::first_in(a, set) as int;
        text::lemma_first_in(a, set);
        assert(s[0] == a[0]);
        let head = a.take(n);
        assert forall|i: int| 0 <= i < head.len() implies !set.has(#[trigger] head[i]) by {
            assert(head[i] == a[i]);
        }
        let tail = a.skip(n).push(c) + b;
        assert(s =~= head + tail);
        assert(set.has(tail[0]));
        text::lemma_first_in_concat(head, tail, set);
        assert(s.take(n) =~= head);
        assert(s.skip(n) =~= tail);
        law_words_of_parts(a.skip(n), c, b);
        assert(seq![head] + (words(a.skip(n)) + words(b)) =~= (seq![head] + words(a.skip(n)))
            + words(b));
    }
}

/// A text without white space is one word, unless it is empty.
pub proof fn law_one_word(s: Seq<char>)
    requires
        text::none_in(s, CharSet::Space),
    ensures
        words(s) == (if s.len() == 0 {
            seq![]
        } else {
            seq![s]
        }),
{
    if s.len() > 0 {
        text::law_first_is_found(s, ' ', seq![], CharSet::Space);
        assert(!CharSet::Space.has(s[0]));
        assert(s.take(s.len() as int) =~= s);
        assert(s.skip(s.len() as int) =~= seq![]);
        assert(words(seq![]) =~= seq![]);
        assert(words(s) =~= seq![s]);
    }
}

/// Joined parts are the joined first ones, the separator, and the joined others.
pub proof fn law_joined_parts(a: Seq<Seq<char>>, b: Seq<Seq<char>>, x: Seq<char>, sep: Seq<char>)
    ensures
        joined(seq![], sep) == Seq::<char>::empty(),
        joined(seq![x], sep) == x,
        a.len() > 0 && b.len() > 0 ==> joined(a + b, sep) == joined(a, sep) + sep + joined(b, sep),
    decreases b.len(),
{
    if a.len() > 0 && b.len() > 0 {
        let front = b.drop_last();
        assert((a + b).drop_last() =~= a + front);
        if b.len() == 1 {
            assert(a + front =~= a);
            assert(joined(b, sep) == b[0]);
        } else {
            law_joined_parts(a, front, x, sep);
            assert(joined(a + b, sep) =~= joined(a, sep) + sep + joined(b, sep));
        }
    }
}

/// Lines joined by line feeds lack only the last line feed.
pub proof fn law_joined_lines_are_terminated(lines: Seq<Seq<char>>)
    requires
        lines.len() > 0,
    ensures
        joined(lines, "\n"@).push('\n') == terminated(lines),
    decreases lines.len(),
{
    reveal_strlit("\n");
    let rest = lines.drop_first();
    if lines.len() == 1 {
        assert(terminated(rest) =~= seq![]);
        assert(joined(lines, "\n"@).push('\n') =~= terminated(lines));
    } else {
        lemma_joined_first(lines, "\n"@);
        law_joined_lines_are_terminated(rest);
        assert(joined(lines, "\n"@).push('\n') =~= lines[0].push('\n') + joined(
            rest,
            "\n"@,
        ).push('\n'));
    }
}

/// A text up to its first line feed is its first line, whole, but for a carriage
/// return right before the line feed. What follows the line feed holds the other
/// lines. A text without line feed is one line as it stands, unless it is empty.
pub proof fn law_lines_of_parts(x: Seq<char>, rest: Seq<char>)
    requires
        single_line(x),
    ensures
        line_seq(x) == (if x.len() == 0 {
            seq![]
        } else {
            seq![x]
        }),
        line_seq(x + seq!['\r', '\n'] + rest) == seq![x] + line_seq(rest),
        x.len() == 0 || x.last() != '\r' ==> line_seq(x + seq!['\n'] + rest) == seq![x] + line_seq(
            rest,
        ),
{
    let set = CharSet::One('\n');
    assert(text::none_in(x, set));
    text::law_first_is_found(x, '\n', rest, set);
    lemma_first_line(x, rest);
    assert(x + seq!['\n'] + rest =~= x.push('\n') + rest);
    let y = x.push('\r');
    assert forall|i: int| 0 <= i < y.len() implies #[trigger] y[i] != '\n' by {
        if i < x.len() {
            assert(y[i] == x[i]);
        }
    }
    lemma_first_line(y, rest);
    assert(x + seq!['\r', '\n'] + rest =~= y.push('\n') + rest);
    assert(y.drop_last() =~= x);
}

proof fn lemma_first_line(x: Seq<char>, rest: Seq<char>)
    requires
        single_line(x),
    ensures
        line_seq(x.push('\n') + rest) == seq![without_return(x)] + line_seq(rest),
{
    let s = x.push('\n') + rest;
    assert(text::none_in(x, CharSet::One('\n')));
    text::law_first_is_found(x, '\n', rest, CharSet::One('\n'));
    assert(s.take(x.len() as int) =~= x);
    assert(s.skip(x.len() as int + 1) =~= rest);
}

} // verus!
