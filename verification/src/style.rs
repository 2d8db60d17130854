//! Rules and declarations of a style block.

use crate::node;
use crate::node::SemanticNode;
use crate::pieces;
use crate::text;
use vstd::prelude::*;

verus! {

broadcast use vstd::string::group_string_axioms;

/// Whether a line of a style is more than a closing brace.
pub open spec fn significant(s: Seq<char>) -> bool {
    s.len() > 0 && s != "}"@
}

/// What a line of a style is: a rule where it ends with `{`, and else a
/// declaration where it has a `:`. Nothing where the selector or the property
/// before them is empty.
pub open spec fn style_item(s: Seq<char>, line: int) -> Option<node::Item> {
    match text::before_suffix(s, "{"@) {
        Some(before) => {
            let selector = text::trimmed(before);
            if selector.len() == 0 {
                None
            } else {
                Some(node::plain_item("style_rule"@, selector, line))
            }
        },
        None => match text::split_around(s, ":"@) {
            Some((before, _)) => {
                let property = text::trimmed(before);
                if property.len() == 0 {
                    None
                } else {
                    Some(node::plain_item("style_declaration"@, property, line))
                }
            },
            None => None,
        },
    }
}

/// What the lines of a style hold, the first of them at `start_line`.
pub open spec fn style_items(lines: Seq<Seq<char>>, start_line: int) -> Seq<node::Item>
    decreases lines.len(),
{
    if lines.len() == 0 {
        seq![]
    } else {
        let before = style_items(lines.drop_last(), start_line);
        let s = text::trimmed(lines.last());
        if significant(s) {
            match style_item(s, start_line + lines.len() - 1) {
                Some(item) => before.push(item),
                None => before,
            }
        } else {
            before
        }
    }
}

/// A style holds only rules and declarations, each with a label that is not
/// empty and has no white space around it, on one of its lines.
pub proof fn law_style_items(lines: Seq<Seq<char>>, start_line: int, k: int)
    requires
        0 <= k < style_items(lines, start_line).len(),
    ensures
        ({
            let item = style_items(lines, start_line)[k];
            &&& item.node_type == "style_rule"@ || item.node_type == "style_declaration"@
            &&& item.details.len() == 0
            &&& item.label.len() > 0
            &&& text::trimmed(item.label) == item.label
            &&& start_line <= item.line < start_line + lines.len()
        }),
    decreases lines.len(),
{
    let before = style_items(lines.drop_last(), start_line);
    let s = text::trimmed(lines.last());
    if k < before.len() {
        law_style_items(lines.drop_last(), start_line, k);
    } else {
        match text::before_suffix(s, "{"@) {
            Some(selector) => {
                text::lemma_without_ends(selector, text::CharSet::Space);
            },
            None => match text::split_around(s, ":"@) {
                Some((property, _)) => {
                    text::lemma_without_ends(property, text::CharSet::Space);
                },
                None => {},
            },
        }
    }
}

/// Whether the number of every line that is looked at fits into 32 bits.
pub open spec fn line_numbers_fit(lines: Seq<Seq<char>>, start_line: int) -> bool {
    forall|i: int|
        0 <= i < lines.len() && significant(text::trimmed(#[trigger] lines[i])) ==> start_line + i
            <= u32::MAX
}

/// Appends the node for a line of a style, where it has one, to the children of
/// `parent`.
fn push_style_line(children: &mut Vec<SemanticNode>, s: &str, line: u32, parent: &str)
    ensures
        final(children).deep_view() == (match style_item(s@, line as int) {
            Some(item) => old(children).deep_view().push(
                node::item_node(item, node::id_under(parent@, old(children)@.len())),
            ),
            None => old(children).deep_view(),
        }),
{
    let none: Vec<String> = Vec::new();
    assert(none.deep_view() =~= seq![]);
    match text::strip_suffix(s, "{") {
        Some(before) => {
            let selector = text::trim(before);
            if !selector.is_empty() {
                let label = selector.to_string();
                node::push_item(children, parent, "style_rule", label, line, "", none);
            }
        },
        None => {
            match text::split_once(s, ":") {
                Some((before, _)) => {
                    let property = text::trim(before);
                    if !property.is_empty() {
                        let label = property.to_string();
                        node::push_item(
                            children,
                            parent,
                            "style_declaration",
                            label,
                            line,
                            "",
                            none,
                        );
                    }
                },
                None => {},
            }
        },
    }
}

/// The rules and declarations of a style whose content begins at `start_line`.
pub fn extract_style_children(content: &str, start_line: u32, id_prefix: &str) -> (r: Vec<
    SemanticNode,
>)
    requires
        line_numbers_fit(pieces::line_seq(content@), start_line as int),
    ensures
        r.deep_view() == node::item_nodes(
            style_items(pieces::line_seq(content@), start_line as int),
            id_prefix@,
        ),
{
    let lines = pieces::lines(content);
    let ghost all = pieces::line_seq(content@);
    let mut children: Vec<SemanticNode> = Vec::new();
    let mut i: usize = 0;
    assert(children.deep_view() =~= node::item_nodes(seq![], id_prefix@));
    while i < lines.len()
        invariant
            lines.deep_view() == all,
            line_numbers_fit(all, start_line as int),
            i <= lines@.len(),
            children.deep_view() == node::item_nodes(
                style_items(all.take(i as int), start_line as int),
                id_prefix@,
            ),
        decreases lines@.len() - i,
    {
        let ghost done = style_items(all.take(i as int), start_line as int);
        assert(all[i as int] == lines@[i as int]@);
        assert(all.take(i + 1).last() == lines@[i as int]@);
        assert(all.take(i + 1).drop_last() =~= all.take(i as int));
        let s = text::trim(lines[i]);
        if !s.is_empty() && !text::same_text(s, "}") {
            let line = start_line + i as u32;
            proof {
                match style_item(s@, line as int) {
                    Some(item) => {
                        node::lemma_item_nodes_push(done, item, id_prefix@);
                    },
                    None => {},
                }
            }
            push_style_line(&mut children, s, line, id_prefix);
        }
        i += 1;
    }
    assert(all.take(i as int) =~= all);
    children
}

// ---------------------------------------------------------------------------
// Laws
// ---------------------------------------------------------------------------

/// A style holds what its first lines hold, then what its other lines hold.
pub proof fn law_style_parts(a: Seq<Seq<char>>, b: Seq<Seq<char>>, start_line: int)
    ensures
        style_items(a + b, start_line) == style_items(a, start_line) + style_items(
            b,
            start_line + a.len(),
        ),
    decreases b.len(),
{
    if b.len() == 0 {
        assert(a + b =~= a);
        assert(style_items(a, start_line) + style_items(b, start_line + a.len()) =~= style_items(
            a,
            start_line,
        ));
    } else {
        let front = b.drop_last();
        law_style_parts(a, front, start_line);
        assert((a + b).drop_last() =~= a + front);
        assert((a + b).last() == b.last());
        assert(style_items(a + b, start_line) =~= style_items(a, start_line) + style_items(
            b,
            start_line + a.len(),
        ));
    }
}

proof fn lemma_one_line(line: Seq<char>, start_line: int)
    ensures
        style_items(seq![line], start_line) == (if !significant(text::trimmed(line)) {
            seq![]
        } else {
            match style_item(text::trimmed(line), start_line) {
                Some(item) => seq![item],
                None => seq![],
            }
        }),
{
    let lines = seq![line];
    assert(lines.drop_last() =~= seq![]);
    assert(style_items(lines.drop_last(), start_line) =~= seq![]);
    assert(lines.last() == line);
    match style_item(text::trimmed(line), start_line) {
        Some(item) => {
            assert(Seq::<node::Item>::empty().push(item) =~= seq![item]);
        },
        None => {},
    }
}

/// Any text before a `{` at the end of a line is the label of one rule, whole.
/// White space around the text and around the line makes no difference.
pub proof fn law_selector_is_label(
    pre: Seq<char>,
    x: Seq<char>,
    gap: Seq<char>,
    post: Seq<char>,
    line: int,
)
    requires
        text::all_in(pre, text::CharSet::Space),
        text::all_in(gap, text::CharSet::Space),
        text::all_in(post, text::CharSet::Space),
        text::bare_of(x, text::CharSet::Space),
    ensures
        style_items(seq![pre + (x + gap + "{"@) + post], line) == seq![
            (node::Item {
                node_type: "style_rule"@,
                label: x,
                line,
                detail_type: ""@,
                details: seq![],
            }),
        ],
{
    reveal_strlit("{");
    reveal_strlit("}");
    let s = x + gap + "{"@;
    assert(s[0] == x[0] && s.last() == '{');
    text::law_trim(pre, s, post, text::CharSet::Space);
    lemma_one_line(pre + s + post, line);
    text::law_affixes_come_off(x + gap, "{"@);
    text::law_trim(seq![], x, gap, text::CharSet::Space);
    assert(seq![] + x + gap =~= x + gap);
}

/// Any text before ` {` is the label of one rule, whole.
pub proof fn law_rule_label(x: Seq<char>, line: int)
    requires
        text::bare_of(x, text::CharSet::Space),
    ensures
        style_items(seq![x + " {"@], line) == seq![
            (node::Item {
                node_type: "style_rule"@,
                label: x,
                line,
                detail_type: ""@,
                details: seq![],
            }),
        ],
{
    reveal_strlit(" {");
    reveal_strlit("{");
    law_selector_is_label(seq![], x, seq![' '], seq![], line);
    assert(seq![] + (x + seq![' '] + "{"@) + seq![] =~= x + " {"@);
}

/// Any text without `:` before a `:` is the label of one declaration, whole,
/// where the line does not end with `{`. White space around the text and around
/// the line makes no difference.
pub proof fn law_property_is_label(
    pre: Seq<char>,
    x: Seq<char>,
    gap: Seq<char>,
    value: Seq<char>,
    post: Seq<char>,
    line: int,
)
    requires
        text::all_in(pre, text::CharSet::Space),
        text::all_in(gap, text::CharSet::Space),
        text::all_in(post, text::CharSet::Space),
        text::bare_of(x, text::CharSet::Space),
        text::none_in(x, text::CharSet::One(':')),
        value.len() > 0 ==> !text::white_space(value.last()) && value.last() != '{',
    ensures
        style_items(seq![pre + (x + gap + ":"@ + value) + post], line) == seq![
            (node::Item {
                node_type: "style_declaration"@,
                label: x,
                line,
                detail_type: ""@,
                details: seq![],
            }),
        ],
{
    reveal_strlit("{");
    reveal_strlit("}");
    reveal_strlit(":");
    let before = x + gap;
    let s = before + ":"@ + value;
    assert(s[0] == x[0]);
    if value.len() > 0 {
        assert(s.last() == value.last());
    } else {
        assert(s.last() == ':');
    }
    text::law_trim(pre, s, post, text::CharSet::Space);
    lemma_one_line(pre + s + post, line);
    assert(text::before_suffix(s, "{"@) is None) by {
        if "{"@.is_suffix_of(s) {
            assert(s.subrange(s.len() - 1, s.len() as int)[0] == s.last());
        }
    }
    assert forall|i: int| 0 <= i < before.len() implies !text::CharSet::One(':').has(
        #[trigger] before[i],
    ) by {
        if i < x.len() {
            assert(before[i] == x[i]);
        } else {
            assert(before[i] == gap[i - x.len()]);
            assert(text::CharSet::Space.has(gap[i - x.len()]));
        }
    }
    text::law_split_gives_the_parts(before, ":"@, value);
    text::law_trim(seq![], x, gap, text::CharSet::Space);
    assert(seq![] + x + gap =~= before);
    assert(s != "}"@) by {
        assert(s[before.len() as int] == ':');
    }
}

/// A line that neither ends with `{` nor has a `:` holds nothing, and neither
/// does a closing brace.
pub proof fn law_other_lines_hold_nothing(
    pre: Seq<char>,
    x: Seq<char>,
    post: Seq<char>,
    line: int,
)
    requires
        text::all_in(pre, text::CharSet::Space),
        text::all_in(post, text::CharSet::Space),
        x.len() > 0 ==> text::bare_of(x, text::CharSet::Space) && x.last() != '{',
        text::none_in(x, text::CharSet::One(':')),
    ensures
        style_items(seq![pre + x + post], line) == Seq::<node::Item>::empty(),
{
    reveal_strlit("{");
    reveal_strlit(":");
    text::law_trim(pre, x, post, text::CharSet::Space);
    lemma_one_line(pre + x + post, line);
    if "{"@.is_suffix_of(x) {
        assert(x.subrange(x.len() - 1, x.len() as int)[0] == x.last());
    }
    text::law_no_split_without_the_pattern(x, ":"@);
}

/// A `{` or a `:` with nothing before it holds nothing.
pub proof fn law_nothing_without_label(
    pre: Seq<char>,
    value: Seq<char>,
    post: Seq<char>,
    line: int,
)
    requires
        text::all_in(pre, text::CharSet::Space),
        text::all_in(post, text::CharSet::Space),
        value.len() > 0 ==> !text::white_space(value.last()) && value.last() != '{',
    ensures
        style_items(seq![pre + "{"@ + post], line) == Seq::<node::Item>::empty(),
        style_items(seq![pre + (":"@ + value) + post], line) == Seq::<node::Item>::empty(),
{
    reveal_strlit("{");
    reveal_strlit(":");
    let none = Seq::<char>::empty();
    assert(text::trimmed(none) =~= none);
    text::law_trim(pre, "{"@, post, text::CharSet::Space);
    lemma_one_line(pre + "{"@ + post, line);
    text::law_affixes_come_off(none, "{"@);
    assert(none + "{"@ =~= "{"@);
    let s = ":"@ + value;
    if value.len() > 0 {
        assert(s.last() == value.last());
    } else {
        assert(s.last() == ':');
    }
    assert(s[0] == ':');
    text::law_trim(pre, s, post, text::CharSet::Space);
    lemma_one_line(pre + s + post, line);
    if "{"@.is_suffix_of(s) {
        assert(s.subrange(s.len() - 1, s.len() as int)[0] == s.last());
    }
    text::law_split_gives_the_parts(none, ":"@, value);
    assert(none + ":"@ + value =~= s);
}

/// The text of a style holds what its first line holds, then what the text behind
/// the line feed holds, one line further down.
pub proof fn law_style_text(x: Seq<char>, rest: Seq<char>, start_line: int)
    requires
        pieces::single_line(x),
        x.len() == 0 || x.last() != '\r',
    ensures
        style_items(pieces::line_seq(x + seq!['\n'] + rest), start_line) == style_items(
            seq![x],
            start_line,
        ) + style_items(pieces::line_seq(rest), start_line + 1),
{
    pieces::law_lines_of_parts(x, rest);
    law_style_parts(seq![x], pieces::line_seq(rest), start_line);
}

} // verus!
