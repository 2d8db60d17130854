//! Elements and interpolations of a template block.

use crate::node;
use crate::node::SemanticNode;
use crate::pieces;
use crate::tags;
use crate::text;
use vstd::prelude::*;

verus! {

broadcast use vstd::string::group_string_axioms;

/// The expressions that a line interpolates with `{{` and `}}`, without the
/// white space around them. Empty ones are left out.
pub open spec fn mustaches(line: Seq<char>) -> Seq<Seq<char>>
    decreases line.len(),
{
    match text::split_around(line, "{{"@) {
        Some((_, after)) => match text::split_around(after, "}}"@) {
            Some((inner, rest)) => {
                proof {
                    reveal_strlit("{{");
                    text::lemma_split_around(line, "{{"@);
                    text::lemma_split_around(after, "}}"@);
                }
                let label = text::trimmed(inner);
                let found = if label.len() == 0 {
                    seq![]
                } else {
                    seq![label]
                };
                found + mustaches(rest)
            },
            None => seq![],
        },
        None => seq![],
    }
}

/// The elements that the tags of a line open, each with its attributes. A tag
/// begins at a `<` and ends at the next `>`.
pub open spec fn elements(s: Seq<char>, line: int) -> Seq<node::Item>
    decreases s.len(),
{
    match text::split_around(s, "<"@) {
        Some((_, after)) => match text::split_around(after, ">"@) {
            Some((segment, rest)) => {
                proof {
                    reveal_strlit("<");
                    text::lemma_split_around(s, "<"@);
                    text::lemma_split_around(after, ">"@);
                }
                let found = match tags::tag_of_segment(segment) {
                    Some((tag, attrs)) => seq![element_item(tag, attrs, line)],
                    None => seq![],
                };
                found + elements(rest, line)
            },
            None => seq![],
        },
        None => seq![],
    }
}

/// An element with its attributes.
pub open spec fn element_item(tag: Seq<char>, attrs: Seq<char>, line: int) -> node::Item {
    node::Item {
        node_type: "element"@,
        label: tag,
        line,
        detail_type: "attribute"@,
        details: tags::attr_labels(pieces::words(attrs)),
    }
}

/// The interpolations of a line.
pub open spec fn interpolations(s: Seq<char>, line: int) -> Seq<node::Item> {
    mustaches(s).map_values(|label: Seq<char>| node::plain_item("interpolation"@, label, line))
}

/// What the lines of a template hold, the first of them at `start_line`: of
/// each line its elements, then its interpolations.
pub open spec fn template_items(lines: Seq<Seq<char>>, start_line: int) -> Seq<node::Item>
    decreases lines.len(),
{
    if lines.len() == 0 {
        seq![]
    } else {
        let line = start_line + lines.len() - 1;
        template_items(lines.drop_last(), start_line) + elements(lines.last(), line)
            + interpolations(lines.last(), line)
    }
}

/// An interpolated expression is not empty and has no white space around it.
pub proof fn law_mustache_labels(line: Seq<char>, i: int)
    requires
        0 <= i < mustaches(line).len(),
    ensures
        mustaches(line)[i].len() > 0,
        text::trimmed(mustaches(line)[i]) == mustaches(line)[i],
    decreases line.len(),
{
    reveal_strlit("{{");
    text::lemma_split_around(line, "{{"@);
    match text::split_around(line, "{{"@) {
        Some((_, after)) => {
            text::lemma_split_around(after, "}}"@);
            match text::split_around(after, "}}"@) {
                Some((inner, rest)) => {
                    text::lemma_without_ends(inner, text::CharSet::Space);
                    if text::trimmed(inner).len() == 0 {
                        assert(mustaches(line) =~= mustaches(rest));
                        law_mustache_labels(rest, i);
                    } else if i > 0 {
                        law_mustache_labels(rest, i - 1);
                    }
                },
                None => {},
            }
        },
        None => {},
    }
}

/// Whether an item is an element with attributes, or an interpolation with
/// neither.
pub open spec fn is_template_item(item: node::Item) -> bool {
    ||| item.node_type == "element"@ && item.detail_type == "attribute"@
    ||| item.node_type == "interpolation"@ && item.details.len() == 0 && item.label.len() > 0
}

proof fn lemma_elements(s: Seq<char>, line: int, k: int)
    requires
        0 <= k < elements(s, line).len(),
    ensures
        is_template_item(elements(s, line)[k]),
        elements(s, line)[k].line == line,
    decreases s.len(),
{
    reveal_strlit("<");
    text::lemma_split_around(s, "<"@);
    match text::split_around(s, "<"@) {
        Some((_, after)) => {
            text::lemma_split_around(after, ">"@);
            match text::split_around(after, ">"@) {
                Some((segment, rest)) => {
                    match tags::tag_of_segment(segment) {
                        Some(_) => {
                            if k > 0 {
                                lemma_elements(rest, line, k - 1);
                            }
                        },
                        None => {
                            assert(elements(s, line) =~= elements(rest, line));
                            lemma_elements(rest, line, k);
                        },
                    }
                },
                None => {},
            }
        },
        None => {},
    }
}

/// A template holds only elements and interpolations, each on one of its lines.
pub proof fn law_template_items(lines: Seq<Seq<char>>, start_line: int, k: int)
    requires
        0 <= k < template_items(lines, start_line).len(),
    ensures
        is_template_item(template_items(lines, start_line)[k]),
        start_line <= template_items(lines, start_line)[k].line < start_line + lines.len(),
    decreases lines.len(),
{
    let line = start_line + lines.len() - 1;
    let before = template_items(lines.drop_last(), start_line);
    let found = elements(lines.last(), line);
    if k < before.len() {
        law_template_items(lines.drop_last(), start_line, k);
    } else if k < before.len() + found.len() {
        lemma_elements(lines.last(), line, k - before.len());
    } else {
        let i = k - before.len() - found.len();
        law_mustache_labels(lines.last(), i);
        assert(template_items(lines, start_line)[k] == interpolations(lines.last(), line)[i]);
    }
}

/// The expressions that `line` interpolates.
pub fn extract_mustache_labels(line: &str) -> (r: Vec<String>)
    ensures
        r.deep_view() == mustaches(line@),
{
    let mut labels: Vec<String> = Vec::new();
    let mut rest = line;
    assert(labels.deep_view() =~= seq![]);
    loop
        invariant
            mustaches(line@) == labels.deep_view() + mustaches(rest@),
        decreases rest@.len(),
    {
        let ghost before = labels.deep_view();
        proof {
            reveal_strlit("{{");
            text::lemma_split_around(rest@, "{{"@);
        }
        match text::split_once(rest, "{{") {
            Some((_, after)) => {
                proof {
                    text::lemma_split_around(after@, "}}"@);
                }
                match text::split_once(after, "}}") {
                    Some((inner, tail)) => {
                        let label = text::trim(inner);
                        if !label.is_empty() {
                            labels.push(label.to_string());
                            assert(labels.deep_view() =~= before + seq![label@]);
                        }
                        assert(before + mustaches(rest@) =~= labels.deep_view() + mustaches(tail@));
                        rest = tail;
                    },
                    None => {
                        assert(before + mustaches(rest@) =~= before);
                        return labels;
                    },
                }
            },
            None => {
                assert(before + mustaches(rest@) =~= before);
                return labels;
            },
        }
    }
}

/// Appends the elements of a line to the children of `parent`.
fn push_elements(
    children: &mut Vec<SemanticNode>,
    source: &str,
    line: u32,
    parent: &str,
    items: Ghost<Seq<node::Item>>,
)
    requires
        old(children).deep_view() == node::item_nodes(items@, parent@),
    ensures
        final(children).deep_view() == node::item_nodes(
            items@ + elements(source@, line as int),
            parent@,
        ),
{
    let ghost mut done = items@;
    let ghost want = items@ + elements(source@, line as int);
    let mut rest = source;
    loop
        invariant
            children.deep_view() == node::item_nodes(done, parent@),
            done + elements(rest@, line as int) == want,
        ensures
            children.deep_view() == node::item_nodes(want, parent@),
        decreases rest@.len(),
    {
        let ghost before = done;
        proof {
            reveal_strlit("<");
            text::lemma_split_around(rest@, "<"@);
        }
        match text::split_once(rest, "<") {
            Some((_, after)) => {
                proof {
                    text::lemma_split_around(after@, ">"@);
                }
                match text::split_once(after, ">") {
                    Some((segment, tail)) => {
                        match tags::parse_tag_segment(segment) {
                            Some((tag, attrs)) => {
                                let labels = tags::parse_attr_labels(attrs.as_str());
                                proof {
                                    let item = element_item(tag@, attrs@, line as int);
                                    node::lemma_item_nodes_push(done, item, parent@);
                                    done = done.push(item);
                                    assert(done =~= before + seq![item]);
                                }
                                node::push_item(
                                    children,
                                    parent,
                                    "element",
                                    tag,
                                    line,
                                    "attribute",
                                    labels,
                                );
                            },
                            None => {},
                        }
                        assert(before + elements(rest@, line as int) =~= done + elements(
                            tail@,
                            line as int,
                        ));
                        rest = tail;
                    },
                    None => {
                        assert(done + elements(rest@, line as int) =~= done);
                        break;
                    },
                }
            },
            None => {
                assert(done + elements(rest@, line as int) =~= done);
                break;
            },
        }
    }
}

/// Appends the interpolations of a line to the children of `parent`.
fn push_interpolations(
    children: &mut Vec<SemanticNode>,
    source: &str,
    line: u32,
    parent: &str,
    items: Ghost<Seq<node::Item>>,
)
    requires
        old(children).deep_view() == node::item_nodes(items@, parent@),
    ensures
        final(children).deep_view() == node::item_nodes(
            items@ + interpolations(source@, line as int),
            parent@,
        ),
{
    let labels = extract_mustache_labels(source);
    let ghost all = interpolations(source@, line as int);
    let mut i: usize = 0;
    assert(items@ + all.take(0) =~= items@);
    while i < labels.len()
        invariant
            labels.deep_view() == mustaches(source@),
            all == interpolations(source@, line as int),
            i <= labels@.len(),
            children.deep_view() == node::item_nodes(items@ + all.take(i as int), parent@),
        decreases labels@.len() - i,
    {
        let details: Vec<String> = Vec::new();
        proof {
            let item = all[i as int];
            assert(details.deep_view() =~= seq![]);
            assert(labels.deep_view()[i as int] == labels@[i as int]@);
            assert(item == node::plain_item("interpolation"@, labels@[i as int]@, line as int));
            let done = items@ + all.take(i as int);
            node::lemma_item_nodes_push(done, item, parent@);
            assert(done.push(item) =~= items@ + all.take(i + 1));
        }
        node::push_item(children, parent, "interpolation", labels[i].clone(), line, "", details);
        i += 1;
    }
    assert(all.take(i as int) =~= all);
}

/// The elements and interpolations of a template whose content begins at
/// `start_line`.
pub fn extract_template_children(content: &str, start_line: u32, id_prefix: &str) -> (r: Vec<
    SemanticNode,
>)
    requires
        start_line + pieces::line_seq(content@).len() <= u32::MAX + 1,
    ensures
        r.deep_view() == node::item_nodes(
            template_items(pieces::line_seq(content@), start_line as int),
            id_prefix@,
        ),
{
    let lines = pieces::lines(content);
    let ghost all = pieces::line_seq(content@);
    let mut children: Vec<SemanticNode> = Vec::new();
    let mut i: usize = 0;
    assert(children.deep_view() =~= node::item_nodes(seq![], id_prefix@));
    while i < lines.len()
        invariant
            lines.deep_view() == all,
            start_line + all.len() <= u32::MAX + 1,
            i <= lines@.len(),
            children.deep_view() == node::item_nodes(
                template_items(all.take(i as int), start_line as int),
                id_prefix@,
            ),
        decreases lines@.len() - i,
    {
        let line = start_line + i as u32;
        let ghost done = template_items(all.take(i as int), start_line as int);
        assert(all.take(i + 1).last() == lines@[i as int]@);
        assert(all.take(i + 1).drop_last() =~= all.take(i as int));
        push_elements(&mut children, lines[i], line, id_prefix, Ghost(done));
        let ghost with_elements = done + elements(lines@[i as int]@, line as int);
        push_interpolations(&mut children, lines[i], line, id_prefix, Ghost(with_elements));
        i += 1;
    }
    assert(all.take(i as int) =~= all);
    children
}

// ---------------------------------------------------------------------------
// Laws
// ---------------------------------------------------------------------------

/// A template holds what its first lines hold, then what its other lines hold.
pub proof fn law_template_parts(a: Seq<Seq<char>>, b: Seq<Seq<char>>, start_line: int)
    ensures
        template_items(a + b, start_line) == template_items(a, start_line) + template_items(
            b,
            start_line + a.len(),
        ),
    decreases b.len(),
{
    if b.len() == 0 {
        assert(a + b =~= a);
        assert(template_items(a, start_line) + template_items(b, start_line + a.len())
            =~= template_items(a, start_line));
    } else {
        let front = b.drop_last();
        law_template_parts(a, front, start_line);
        assert((a + b).drop_last() =~= a + front);
        assert((a + b).last() == b.last());
        assert(template_items(a + b, start_line) =~= template_items(a, start_line)
            + template_items(b, start_line + a.len()));
    }
}

/// A line of a template holds its elements, then one interpolation per
/// expression, labelled with it.
pub proof fn law_template_line(s: Seq<char>, line: int)
    ensures
        ({
            let items = template_items(seq![s], line);
            let n = elements(s, line).len();
            &&& items.len() == n + mustaches(s).len()
            &&& items.take(n as int) == elements(s, line)
            &&& forall|i: int|
                0 <= i < mustaches(s).len() ==> #[trigger] items[n + i] == (node::Item {
                    node_type: "interpolation"@,
                    label: mustaches(s)[i],
                    line,
                    detail_type: ""@,
                    details: seq![],
                })
        }),
{
    let lines = seq![s];
    assert(lines.drop_last() =~= seq![]);
    assert(template_items(lines.drop_last(), line) =~= seq![]);
    assert(lines.last() == s);
    let items = template_items(lines, line);
    let n = elements(s, line).len();
    assert(items =~= elements(s, line) + interpolations(s, line));
    assert(items.take(n as int) =~= elements(s, line));
    assert forall|i: int| 0 <= i < mustaches(s).len() implies #[trigger] items[n + i] == (
    node::Item {
        node_type: "interpolation"@,
        label: mustaches(s)[i],
        line,
        detail_type: ""@,
        details: seq![],
    }) by {
        assert(items[n + i] == interpolations(s, line)[i]);
    }
}

/// The elements of a line are those of its parts. What stands before a `<` holds
/// none; the segment from the `<` to the next `>` holds one where it names a tag,
/// with the tag's attributes; and the rest of the line holds its own.
pub proof fn law_elements_of_parts(
    before: Seq<char>,
    segment: Seq<char>,
    rest: Seq<char>,
    line: int,
)
    requires
        text::none_in(before, text::CharSet::One('<')),
        text::none_in(segment, text::CharSet::One('>')),
    ensures
        elements(before, line) == Seq::<node::Item>::empty(),
        elements("<"@ + segment, line) == Seq::<node::Item>::empty(),
        elements(before + ("<"@ + segment + ">"@) + rest, line) == elements(
            "<"@ + segment + ">"@,
            line,
        ) + elements(rest, line),
        elements("<"@ + segment + ">"@, line) == (match tags::tag_of_segment(segment) {
            Some((tag, attrs)) => seq![
                (node::Item {
                    node_type: "element"@,
                    label: tag,
                    line,
                    detail_type: "attribute"@,
                    details: tags::attr_labels(pieces::words(attrs)),
                }),
            ],
            None => seq![],
        }),
{
    reveal_strlit("<");
    reveal_strlit(">");
    text::law_no_split_without_the_pattern(before, "<"@);
    lemma_first_element(before, segment, rest, line);
    lemma_first_element(seq![], segment, seq![], line);
    assert(seq![] + ("<"@ + segment + ">"@) + seq![] =~= "<"@ + segment + ">"@);
    text::law_no_split_without_the_pattern(seq![], "<"@);
    assert(elements(seq![], line) =~= seq![]);
    let s = "<"@ + segment;
    text::law_split_gives_the_parts(seq![], "<"@, segment);
    assert(seq![] + "<"@ + segment =~= s);
    text::law_no_split_without_the_pattern(segment, ">"@);
}

proof fn lemma_first_element(before: Seq<char>, segment: Seq<char>, rest: Seq<char>, line: int)
    requires
        text::none_in(before, text::CharSet::One('<')),
        text::none_in(segment, text::CharSet::One('>')),
    ensures
        elements(before + ("<"@ + segment + ">"@) + rest, line) == (match tags::tag_of_segment(
            segment,
        ) {
            Some((tag, attrs)) => seq![element_item(tag, attrs, line)],
            None => seq![],
        }) + elements(rest, line),
{
    reveal_strlit("<");
    reveal_strlit(">");
    let after = segment + ">"@ + rest;
    text::law_split_gives_the_parts(before, "<"@, after);
    text::law_split_gives_the_parts(segment, ">"@, rest);
    assert(before + ("<"@ + segment + ">"@) + rest =~= before + "<"@ + after);
}

/// The expressions of a line are those of its parts. What stands before the first
/// `{{` holds none; what stands from there to the next `}}` is one expression,
/// whole, without the white space around it; and the rest of the line holds its
/// own.
pub proof fn law_mustaches_of_parts(
    before: Seq<char>,
    pre: Seq<char>,
    x: Seq<char>,
    post: Seq<char>,
    rest: Seq<char>,
)
    requires
        text::stands_first_behind(before, "{{"@),
        text::stands_first_behind(pre + x + post, "}}"@),
        text::all_in(pre, text::CharSet::Space),
        text::all_in(post, text::CharSet::Space),
        x.len() == 0 || text::bare_of(x, text::CharSet::Space),
    ensures
        mustaches(before + "{{"@ + (pre + x + post + "}}"@ + rest)) == (if x.len() == 0 {
            seq![]
        } else {
            seq![x]
        }) + mustaches(rest),
{
    let inner = pre + x + post;
    let after = inner + "}}"@ + rest;
    text::law_pattern_is_found(before, "{{"@, after);
    text::law_pattern_is_found(inner, "}}"@, rest);
    text::law_trim(pre, x, post, text::CharSet::Space);
}

/// A line without `{{`, or without `}}` behind the first `{{`, interpolates
/// nothing.
pub proof fn law_no_mustaches(before: Seq<char>, after: Seq<char>)
    ensures
        text::stands_nowhere(before, "{{"@) ==> mustaches(before) == Seq::<Seq<char>>::empty(),
        text::stands_first_behind(before, "{{"@) && text::stands_nowhere(after, "}}"@)
            ==> mustaches(before + "{{"@ + after) == Seq::<Seq<char>>::empty(),
{
    text::law_pattern_is_missing(before, "{{"@);
    if text::stands_first_behind(before, "{{"@) && text::stands_nowhere(after, "}}"@) {
        text::law_pattern_is_found(before, "{{"@, after);
        text::law_pattern_is_missing(after, "}}"@);
    }
}

/// The text of a template holds what its first line holds, then what the text behind
/// the line feed holds, one line further down.
pub proof fn law_template_text(x: Seq<char>, rest: Seq<char>, start_line: int)
    requires
        pieces::single_line(x),
        x.len() == 0 || x.last() != '\r',
    ensures
        template_items(pieces::line_seq(x + seq!['\n'] + rest), start_line) == template_items(
            seq![x],
            start_line,
        ) + template_items(pieces::line_seq(rest), start_line + 1),
{
    pieces::law_lines_of_parts(x, rest);
    law_template_parts(seq![x], pieces::line_seq(rest), start_line);
}

} // verus!
