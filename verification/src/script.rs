//! Statements of a script block.

use crate::node;
use crate::node::SemanticNode;
use crate::pieces;
use crate::text;
use crate::text::CharSet;
use vstd::prelude::*;

verus! {

broadcast use vstd::string::group_string_axioms;

// ---------------------------------------------------------------------------
// Names
// ---------------------------------------------------------------------------

/// An ASCII letter.
pub open spec fn ascii_letter(c: char) -> bool {
    'a' <= c <= 'z' || 'A' <= c <= 'Z'
}

/// A character with which a name begins.
pub open spec fn name_start(c: char) -> bool {
    ascii_letter(c) || c == '_' || c == '$'
}

/// A character with which a name goes on.
pub open spec fn name_part(c: char) -> bool {
    name_start(c) || '0' <= c <= '9' || c == '-'
}

/// Whether a text looks like a name.
pub open spec fn identifier_like(s: Seq<char>) -> bool {
    &&& s.len() > 0
    &&& name_start(s[0])
    &&& forall|i: int| 1 <= i < s.len() ==> name_part(#[trigger] s[i])
}

/// A statement without surrounding white space and trailing separators.
pub open spec fn statement(line: Seq<char>) -> Seq<char> {
    text::trimmed(
        text::without_trailing(
            text::without_trailing(text::trimmed(line), CharSet::One(',')),
            CharSet::One(';'),
        ),
    )
}

/// The text, where it looks like a name.
pub open spec fn as_name(s: Seq<char>) -> Option<Seq<char>> {
    if identifier_like(s) {
        Some(s)
    } else {
        None
    }
}

/// The name that follows `keyword` at the start of a line and ends before the
/// first character of `end`.
pub open spec fn name_after(line: Seq<char>, keyword: Seq<char>, end: CharSet) -> Option<
    Seq<char>,
> {
    match text::after_prefix(line, keyword) {
        Some(rest) => as_name(rest.take(text::first_in(rest, end) as int)),
        None => None,
    }
}

/// The name that a `const`, `let` or `var` line declares.
pub open spec fn declared_name(line: Seq<char>) -> Option<Seq<char>> {
    match name_after(line, "const "@, CharSet::DeclarationNameEnd) {
        Some(name) => Some(name),
        None => match name_after(line, "let "@, CharSet::DeclarationNameEnd) {
            Some(name) => Some(name),
            None => name_after(line, "var "@, CharSet::DeclarationNameEnd),
        },
    }
}

/// The name of the function that a line declares: what follows `function `, or
/// else what precedes the first `()`.
pub open spec fn declared_function(line: Seq<char>) -> Option<Seq<char>> {
    match name_after(line, "function "@, CharSet::FunctionNameEnd) {
        Some(name) => Some(name),
        None => match text::split_around(line, "()"@) {
            Some((before, _)) => as_name(text::trimmed(before)),
            None => None,
        },
    }
}

/// The name of the property that a line sets: what precedes the first `:`,
/// without quotes.
pub open spec fn declared_property(line: Seq<char>) -> Option<Seq<char>> {
    match text::split_around(line, ":"@) {
        Some((before, _)) => as_name(
            text::without_ends(
                text::without_ends(text::trimmed(before), CharSet::One('"')),
                CharSet::One('\''),
            ),
        ),
        None => None,
    }
}

/// Whether what precedes an operator begins a statement other than an
/// assignment.
pub open spec fn other_statement(s: Seq<char>) -> bool {
    ||| "return"@.is_prefix_of(s)
    ||| "const "@.is_prefix_of(s)
    ||| "let "@.is_prefix_of(s)
    ||| "var "@.is_prefix_of(s)
}

/// What a line assigns to with the operator `op`.
pub open spec fn target_of(line: Seq<char>, op: Seq<char>) -> Option<Seq<char>> {
    match text::split_around(line, op) {
        Some((before, _)) => {
            let target = text::trimmed(before);
            if target.len() == 0 || other_statement(target) {
                None
            } else {
                Some(target)
            }
        },
        None => None,
    }
}

/// What a line assigns to. The compound operators are tried before `=`.
pub open spec fn assigned_target(line: Seq<char>) -> Option<Seq<char>> {
    if target_of(line, "+="@) is Some {
        target_of(line, "+="@)
    } else if target_of(line, "-="@) is Some {
        target_of(line, "-="@)
    } else if target_of(line, "*="@) is Some {
        target_of(line, "*="@)
    } else if target_of(line, "/="@) is Some {
        target_of(line, "/="@)
    } else {
        target_of(line, "="@)
    }
}

/// Whether `c` is an ASCII letter, `_` or `$`.
fn is_name_start(c: char) -> (r: bool)
    ensures
        r == name_start(c),
{
    ('a' <= c && c <= 'z') || ('A' <= c && c <= 'Z') || c == '_' || c == '$'
}

/// Whether `value` looks like a name.
pub fn is_identifier_like(value: &str) -> (r: bool)
    ensures
        r == identifier_like(value@),
{
    let chars = text::chars_of(value);
    if chars.len() == 0 || !is_name_start(chars[0]) {
        return false;
    }
    let mut i: usize = 1;
    while i < chars.len()
        invariant
            chars@ == value@,
            1 <= i <= chars@.len(),
            forall|j: int| 1 <= j < i ==> name_part(#[trigger] value@[j]),
        decreases chars@.len() - i,
    {
        let c = chars[i];
        if !(is_name_start(c) || ('0' <= c && c <= '9') || c == '-') {
            assert(!name_part(value@[i as int]));
            return false;
        }
        i += 1;
    }
    true
}

/// A statement without surrounding white space and trailing separators.
pub fn normalize_statement(line: &str) -> (r: String)
    ensures
        r@ == statement(line@),
{
    text::trim(
        text::trim_end_matches(
            text::trim_end_matches(text::trim(line), CharSet::One(',')),
            CharSet::One(';'),
        ),
    ).to_string()
}

/// The text, where it looks like a name.
fn checked_name(s: &str) -> (r: Option<&str>)
    ensures
        r.deep_view() == as_name(s@),
{
    if is_identifier_like(s) {
        Some(s)
    } else {
        None
    }
}

/// The name that follows `keyword` in `line`.
fn find_name_after<'a>(line: &'a str, keyword: &str, end: CharSet) -> (r: Option<&'a str>)
    ensures
        r.deep_view() == name_after(line@, keyword@, end),
{
    match text::strip_prefix(line, keyword) {
        Some(rest) => {
            let n = text::find_in(rest, end);
            checked_name(text::take(rest, n))
        },
        None => None,
    }
}

/// The name that `line` declares.
pub fn declaration_name(line: &str) -> (r: Option<&str>)
    ensures
        r.deep_view() == declared_name(line@),
{
    let name = find_name_after(line, "const ", CharSet::DeclarationNameEnd);
    if name.is_some() {
        return name;
    }
    let name = find_name_after(line, "let ", CharSet::DeclarationNameEnd);
    if name.is_some() {
        return name;
    }
    find_name_after(line, "var ", CharSet::DeclarationNameEnd)
}

/// The name of the function that `line` declares.
pub fn function_name(line: &str) -> (r: Option<&str>)
    ensures
        r.deep_view() == declared_function(line@),
{
    let name = find_name_after(line, "function ", CharSet::FunctionNameEnd);
    if name.is_some() {
        return name;
    }
    match text::split_once(line, "()") {
        Some((before, _)) => checked_name(text::trim(before)),
        None => None,
    }
}

/// The name of the property that `line` sets.
pub fn property_name(line: &str) -> (r: Option<&str>)
    ensures
        r.deep_view() == declared_property(line@),
{
    match text::split_once(line, ":") {
        Some((before, _)) => checked_name(
            text::trim_matches(
                text::trim_matches(text::trim(before), CharSet::One('"')),
                CharSet::One('\''),
            ),
        ),
        None => None,
    }
}

/// What `line` assigns to with the operator `op`.
fn find_target(line: &str, op: &str) -> (r: Option<String>)
    ensures
        r.deep_view() == target_of(line@, op@),
{
    match text::split_once(line, op) {
        Some((before, _)) => {
            let target = text::trim(before);
            if target.is_empty() || text::starts_with(target, "return") || text::starts_with(
                target,
                "const ",
            ) || text::starts_with(target, "let ") || text::starts_with(target, "var ") {
                None
            } else {
                Some(target.to_string())
            }
        },
        None => None,
    }
}

/// What `line` assigns to.
pub fn assignment_label(line: &str) -> (r: Option<String>)
    ensures
        r.deep_view() == assigned_target(line@),
{
    let target = find_target(line, "+=");
    if target.is_some() {
        return target;
    }
    let target = find_target(line, "-=");
    if target.is_some() {
        return target;
    }
    let target = find_target(line, "*=");
    if target.is_some() {
        return target;
    }
    let target = find_target(line, "/=");
    if target.is_some() {
        return target;
    }
    find_target(line, "=")
}

// ---------------------------------------------------------------------------
// Statements
// ---------------------------------------------------------------------------

/// Whether a statement is more than a brace.
pub open spec fn significant(s: Seq<char>) -> bool {
    s.len() > 0 && s != "{"@ && s != "}"@
}

/// What follows the first `sep`, without surrounding white space and trailing
/// `end`. Nothing where that is empty.
pub open spec fn value_after(s: Seq<char>, sep: Seq<char>, end: char) -> Seq<Seq<char>> {
    match text::split_around(s, sep) {
        Some((_, rest)) => {
            let value = text::trimmed(
                text::without_trailing(text::trimmed(rest), CharSet::One(end)),
            );
            if value.len() == 0 {
                seq![]
            } else {
                seq![value]
            }
        },
        None => seq![],
    }
}

/// What a statement is: an import, a default export, a declaration with its
/// value, a function, a property with its value, or an assignment, whichever
/// comes first.
pub open spec fn statement_item(s: Seq<char>, line: int) -> Option<node::Item> {
    if "import "@.is_prefix_of(s) {
        Some(node::plain_item("import_statement"@, s, line))
    } else if "export default"@.is_prefix_of(s) {
        Some(node::plain_item("export_default"@, "export default"@, line))
    } else if declared_name(s) is Some {
        Some(
            node::Item {
                node_type: "variable_declaration"@,
                label: declared_name(s)->0,
                line,
                detail_type: "declaration_value"@,
                details: value_after(s, "="@, ';'),
            },
        )
    } else if declared_function(s) is Some {
        Some(node::plain_item("method_declaration"@, declared_function(s)->0, line))
    } else if declared_property(s) is Some {
        Some(
            node::Item {
                node_type: "property"@,
                label: declared_property(s)->0,
                line,
                detail_type: "property_value"@,
                details: value_after(s, ":"@, ','),
            },
        )
    } else if assigned_target(s) is Some {
        Some(node::plain_item("assignment_statement"@, assigned_target(s)->0, line))
    } else {
        None
    }
}

/// What the lines of a script hold, the first of them at `start_line`.
pub open spec fn script_items(lines: Seq<Seq<char>>, start_line: int) -> Seq<node::Item>
    decreases lines.len(),
{
    if lines.len() == 0 {
        seq![]
    } else {
        let before = script_items(lines.drop_last(), start_line);
        let s = statement(lines.last());
        if significant(s) {
            match statement_item(s, start_line + lines.len() - 1) {
                Some(item) => before.push(item),
                None => before,
            }
        } else {
            before
        }
    }
}

/// Whether an item is one of the kinds that a script holds, with the details of
/// its kind. What is declared has a name.
pub open spec fn is_script_item(item: node::Item) -> bool {
    ||| item.node_type == "import_statement"@ && item.details.len() == 0
    ||| item.node_type == "export_default"@ && item.details.len() == 0 && item.label
        == "export default"@
    ||| item.node_type == "variable_declaration"@ && item.details.len() <= 1 && item.detail_type
        == "declaration_value"@ && identifier_like(item.label)
    ||| item.node_type == "method_declaration"@ && item.details.len() == 0 && identifier_like(
        item.label,
    )
    ||| item.node_type == "property"@ && item.details.len() <= 1 && item.detail_type
        == "property_value"@ && identifier_like(item.label)
    ||| item.node_type == "assignment_statement"@ && item.details.len() == 0 && item.label.len()
        > 0 && !other_statement(item.label)
}

/// A script holds only imports, default exports, declarations, functions,
/// properties and assignments, each on one of its lines.
pub proof fn law_script_items(lines: Seq<Seq<char>>, start_line: int, k: int)
    requires
        0 <= k < script_items(lines, start_line).len(),
    ensures
        is_script_item(script_items(lines, start_line)[k]),
        start_line <= script_items(lines, start_line)[k].line < start_line + lines.len(),
    decreases lines.len(),
{
    let before = script_items(lines.drop_last(), start_line);
    if k < before.len() {
        law_script_items(lines.drop_last(), start_line, k);
    }
}

/// Whether a statement counts as a declaration.
pub open spec fn is_declaration(s: Seq<char>) -> bool {
    &&& !"import "@.is_prefix_of(s)
    &&& !"export default"@.is_prefix_of(s)
    &&& declared_name(s) is Some
}

/// Whether a statement counts as a property.
pub open spec fn is_property(s: Seq<char>) -> bool {
    &&& !"import "@.is_prefix_of(s)
    &&& !"export default"@.is_prefix_of(s)
    &&& declared_name(s) is None
    &&& declared_function(s) is None
    &&& declared_property(s) is Some
}

/// The node of a declaration shows its value: where two declarations have the
/// same node, they have the same name and the same value.
pub proof fn law_declared_value_shows(s: Seq<char>, t: Seq<char>, line: int, id: Seq<char>)
    requires
        is_declaration(s),
        is_declaration(t),
        node::item_node(statement_item(s, line)->0, id) == node::item_node(
            statement_item(t, line)->0,
            id,
        ),
    ensures
        declared_name(s) == declared_name(t),
        value_after(s, "="@, ';') == value_after(t, "="@, ';'),
{
    node::lemma_item_details_show(statement_item(s, line)->0, statement_item(t, line)->0, id);
}

/// The node of a property shows its value: where two properties have the same
/// node, they have the same name and the same value.
pub proof fn law_property_value_shows(s: Seq<char>, t: Seq<char>, line: int, id: Seq<char>)
    requires
        is_property(s),
        is_property(t),
        node::item_node(statement_item(s, line)->0, id) == node::item_node(
            statement_item(t, line)->0,
            id,
        ),
    ensures
        declared_property(s) == declared_property(t),
        value_after(s, ":"@, ',') == value_after(t, ":"@, ','),
{
    node::lemma_item_details_show(statement_item(s, line)->0, statement_item(t, line)->0, id);
}

/// Whether the number of every line that holds a statement fits into 32 bits.
pub open spec fn line_numbers_fit(lines: Seq<Seq<char>>, start_line: int) -> bool {
    forall|i: int|
        0 <= i < lines.len() && significant(statement(#[trigger] lines[i])) ==> start_line + i
            <= u32::MAX
}

/// What follows the first `sep`, without surrounding white space and trailing
/// `end`.
fn find_value_after(s: &str, sep: &str, end: char) -> (r: Vec<String>)
    ensures
        r.deep_view() == value_after(s@, sep@, end),
{
    let mut r: Vec<String> = Vec::new();
    assert(r.deep_view() =~= seq![]);
    match text::split_once(s, sep) {
        Some((_, rest)) => {
            let value = text::trim(text::trim_end_matches(text::trim(rest), CharSet::One(end)));
            if !value.is_empty() {
                r.push(value.to_string());
                assert(r.deep_view() =~= seq![value@]);
            }
        },
        None => {},
    }
    r
}

/// Appends the node for a statement, where it has one, to the children of
/// `parent`.
fn push_statement(children: &mut Vec<SemanticNode>, s: &str, line: u32, parent: &str)
    ensures
        final(children).deep_view() == (match statement_item(s@, line as int) {
            Some(item) => old(children).deep_view().push(
                node::item_node(item, node::id_under(parent@, old(children)@.len())),
            ),
            None => old(children).deep_view(),
        }),
{
    let none: Vec<String> = Vec::new();
    assert(none.deep_view() =~= seq![]);
    if text::starts_with(s, "import ") {
        node::push_item(children, parent, "import_statement", s.to_string(), line, "", none);
        return;
    }
    if text::starts_with(s, "export default") {
        let label = "export default".to_string();
        node::push_item(children, parent, "export_default", label, line, "", none);
        return;
    }
    match declaration_name(s) {
        Some(name) => {
            let value = find_value_after(s, "=", ';');
            node::push_item(
                children,
                parent,
                "variable_declaration",
                name.to_string(),
                line,
                "declaration_value",
                value,
            );
            return;
        },
        None => {},
    }
    match function_name(s) {
        Some(name) => {
            let label = name.to_string();
            node::push_item(children, parent, "method_declaration", label, line, "", none);
            return;
        },
        None => {},
    }
    match property_name(s) {
        Some(name) => {
            let value = find_value_after(s, ":", ',');
            node::push_item(
                children,
                parent,
                "property",
                name.to_string(),
                line,
                "property_value",
                value,
            );
            return;
        },
        None => {},
    }
    match assignment_label(s) {
        Some(target) => {
            node::push_item(children, parent, "assignment_statement", target, line, "", none);
        },
        None => {},
    }
}

/// The statements of a script whose content begins at `start_line`.
pub fn extract_script_children(content: &str, start_line: u32, id_prefix: &str) -> (r: Vec<
    SemanticNode,
>)
    requires
        line_numbers_fit(pieces::line_seq(content@), start_line as int),
    ensures
        r.deep_view() == node::item_nodes(
            script_items(pieces::line_seq(content@), start_line as int),
            id_prefix@,
        ),
{
    let lines = pieces::lines(content);
    let ghost all = pieces::line_seq(content@);
    let mut children: Vec<SemanticNode> = Vec::new();
    let mut i: usize = 0;
    assert(children.deep_view() =~= node::item_nodes(seq![], id_prefix@));
    while i < lines.len()
        invariant
            lines.deep_view() == all,
            line_numbers_fit(all, start_line as int),
            i <= lines@.len(),
            children.deep_view() == node::item_nodes(
                script_items(all.take(i as int), start_line as int),
                id_prefix@,
            ),
        decreases lines@.len() - i,
    {
        let ghost done = script_items(all.take(i as int), start_line as int);
        assert(all[i as int] == lines@[i as int]@);
        assert(all.take(i + 1).last() == lines@[i as int]@);
        assert(all.take(i + 1).drop_last() =~= all.take(i as int));
        let s = normalize_statement(lines[i]);
        if !s.as_str().is_empty() && !text::same_text(s.as_str(), "{") && !text::same_text(
            s.as_str(),
            "}",
        ) {
            let line = start_line + i as u32;
            proof {
                match statement_item(s@, line as int) {
                    Some(item) => {
                        node::lemma_item_nodes_push(done, item, id_prefix@);
                    },
                    None => {},
                }
            }
            push_statement(&mut children, s.as_str(), line, id_prefix);
        }
        i += 1;
    }
    assert(all.take(i as int) =~= all);
    children
}

// ---------------------------------------------------------------------------
// Laws
// ---------------------------------------------------------------------------

/// Whether a text is neither blank nor surrounded by white space, and ends
/// neither in `,` nor in `;`.
pub open spec fn bare_statement(s: Seq<char>) -> bool {
    text::bare_of(s, CharSet::Space) && s.last() != ',' && s.last() != ';'
}

/// A script holds what its first lines hold, then what its other lines hold.
pub proof fn law_script_parts(a: Seq<Seq<char>>, b: Seq<Seq<char>>, start_line: int)
    ensures
        script_items(a + b, start_line) == script_items(a, start_line) + script_items(
            b,
            start_line + a.len(),
        ),
    decreases b.len(),
{
    if b.len() == 0 {
        assert(a + b =~= a);
        assert(script_items(a, start_line) + script_items(b, start_line + a.len())
            =~= script_items(a, start_line));
    } else {
        let front = b.drop_last();
        law_script_parts(a, front, start_line);
        assert((a + b).drop_last() =~= a + front);
        assert((a + b).last() == b.last());
        assert(script_items(a + b, start_line) =~= script_items(a, start_line) + script_items(
            b,
            start_line + a.len(),
        ));
    }
}

proof fn lemma_one_line(line: Seq<char>, start_line: int)
    ensures
        script_items(seq![line], start_line) == (if !significant(statement(line)) {
            seq![]
        } else {
            match statement_item(statement(line), start_line) {
                Some(item) => seq![item],
                None => seq![],
            }
        }),
{
    let lines = seq![line];
    assert(lines.drop_last() =~= seq![]);
    assert(script_items(lines.drop_last(), start_line) =~= seq![]);
    assert(lines.last() == line);
    match statement_item(statement(line), start_line) {
        Some(item) => {
            assert(Seq::<node::Item>::empty().push(item) =~= seq![item]);
        },
        None => {},
    }
}

/// A statement is the text of its line, whole, without the white space around it
/// and the separators at its end.
pub proof fn law_statement_is_kept(
    pre: Seq<char>,
    x: Seq<char>,
    gap: Seq<char>,
    semicolons: Seq<char>,
    commas: Seq<char>,
    post: Seq<char>,
)
    requires
        text::all_in(pre, CharSet::Space),
        text::all_in(gap, CharSet::Space),
        text::all_in(semicolons, CharSet::One(';')),
        text::all_in(commas, CharSet::One(',')),
        text::all_in(post, CharSet::Space),
        semicolons.len() + commas.len() == 0 ==> gap.len() == 0,
        bare_statement(x),
    ensures
        statement(pre + (x + gap + semicolons + commas) + post) == x,
{
    let none = Seq::<char>::empty();
    let r = x + gap;
    let s = r + semicolons;
    let m = s + commas;
    assert(m[0] == x[0]);
    if gap.len() > 0 {
        assert(r.last() == gap.last());
        assert(CharSet::Space.has(gap.last()));
    } else {
        assert(r.last() == x.last());
    }
    if semicolons.len() > 0 {
        assert(s.last() == semicolons.last());
        assert(CharSet::One(';').has(semicolons.last()));
    } else {
        assert(s.last() == r.last());
    }
    if commas.len() > 0 {
        assert(m.last() == commas.last());
        assert(CharSet::One(',').has(commas.last()));
    } else {
        assert(m.last() == s.last());
    }
    text::law_trim(pre, m, post, CharSet::Space);
    text::law_trim_end(s, commas, CharSet::One(','));
    text::law_trim_end(r, semicolons, CharSet::One(';'));
    text::law_trim(none, x, gap, CharSet::Space);
    assert(none + x + gap =~= r);
}

proof fn lemma_bare_statement(x: Seq<char>)
    requires
        bare_statement(x),
    ensures
        statement(x) == x,
{
    let none = Seq::<char>::empty();
    law_statement_is_kept(none, x, none, none, none, none);
    assert(none + (x + none + none + none) + none =~= x);
}

/// White space around a statement and separators at its end make no difference
/// to what its line holds.
pub proof fn law_separators_do_not_matter(
    pre: Seq<char>,
    x: Seq<char>,
    gap: Seq<char>,
    semicolons: Seq<char>,
    commas: Seq<char>,
    post: Seq<char>,
    line: int,
)
    requires
        text::all_in(pre, CharSet::Space),
        text::all_in(gap, CharSet::Space),
        text::all_in(semicolons, CharSet::One(';')),
        text::all_in(commas, CharSet::One(',')),
        text::all_in(post, CharSet::Space),
        semicolons.len() + commas.len() == 0 ==> gap.len() == 0,
        bare_statement(x),
    ensures
        script_items(seq![pre + (x + gap + semicolons + commas) + post], line) == script_items(
            seq![x],
            line,
        ),
{
    law_statement_is_kept(pre, x, gap, semicolons, commas, post);
    lemma_bare_statement(x);
    lemma_one_line(pre + (x + gap + semicolons + commas) + post, line);
    lemma_one_line(x, line);
}

/// A name may be continued with letters, digits, `_`, `$` and `-`, and with
/// nothing else. It begins with a letter, `_` or `$`.
pub proof fn law_names_continue(s: Seq<char>, c: char)
    ensures
        !identifier_like(seq![]),
        identifier_like(seq![c]) <==> 'a' <= c <= 'z' || 'A' <= c <= 'Z' || c == '_' || c == '$',
        s.len() > 0 ==> (identifier_like(s.push(c)) <==> identifier_like(s) && ('a' <= c <= 'z'
            || 'A' <= c <= 'Z' || '0' <= c <= '9' || c == '_' || c == '$' || c == '-')),
{
    if s.len() > 0 {
        let t = s.push(c);
        assert(t[0] == s[0]);
        if identifier_like(t) {
            assert(name_part(t[s.len() as int]));
            assert forall|i: int| 1 <= i < s.len() implies name_part(#[trigger] s[i]) by {
                assert(s[i] == t[i]);
            }
        }
        if identifier_like(s) && name_part(c) {
            assert forall|i: int| 1 <= i < t.len() implies name_part(#[trigger] t[i]) by {
                if i < s.len() {
                    assert(t[i] == s[i]);
                }
            }
        }
    }
}

proof fn lemma_name_chars(name: Seq<char>, i: int)
    requires
        identifier_like(name),
        0 <= i < name.len(),
    ensures
        name_part(name[i]),
        !text::white_space(name[i]),
{
}

/// A text with a character that no name has does not look like a name.
proof fn lemma_not_a_name(s: Seq<char>, i: int)
    requires
        0 <= i < s.len(),
        !name_part(s[i]),
    ensures
        !identifier_like(s),
{
}

proof fn lemma_no_keyword(s: Seq<char>, keyword: Seq<char>, i: int)
    requires
        0 <= i < keyword.len(),
        i < s.len() ==> s[i] != keyword[i],
    ensures
        !keyword.is_prefix_of(s),
{
    if keyword.is_prefix_of(s) {
        assert(s.subrange(0, keyword.len() as int)[i] == s[i]);
    }
}

proof fn lemma_name_is_cut(name: Seq<char>, tail: Seq<char>, end: CharSet)
    requires
        identifier_like(name),
        end == CharSet::DeclarationNameEnd || end == CharSet::FunctionNameEnd,
        tail.len() > 0 ==> end.has(tail[0]),
    ensures
        (name + tail).take(text::first_in(name + tail, end) as int) == name,
{
    assert forall|i: int| 0 <= i < name.len() implies !end.has(#[trigger] name[i]) by {
        lemma_name_chars(name, i);
    }
    text::lemma_first_in_concat(name, tail, end);
    assert(text::first_in(tail, end) == 0);
    assert((name + tail).take(name.len() as int) =~= name);
}

proof fn lemma_value(rest: Seq<char>, gap: Seq<char>, v: Seq<char>, end: char)
    requires
        rest == gap + v,
        text::all_in(gap, CharSet::Space),
        text::bare_of(v, CharSet::Space),
        v.last() != end,
    ensures
        text::trimmed(text::without_trailing(text::trimmed(rest), CharSet::One(end))) == v,
{
    let none = Seq::<char>::empty();
    text::law_trim(gap, v, none, CharSet::Space);
    assert(gap + v + none =~= rest);
    text::law_trim_end(v, none, CharSet::One(end));
    assert(v + none =~= v);
}

proof fn lemma_declaration(keyword: Seq<char>, name: Seq<char>, tail: Seq<char>)
    requires
        keyword == "const "@ || keyword == "let "@ || keyword == "var "@,
        identifier_like(name),
        tail.len() > 0 ==> CharSet::DeclarationNameEnd.has(tail[0]),
    ensures
        declared_name(keyword + (name + tail)) == Some(name),
        !"import "@.is_prefix_of(keyword + (name + tail)),
        !"export default"@.is_prefix_of(keyword + (name + tail)),
        significant(keyword + (name + tail)),
{
    reveal_strlit("const ");
    reveal_strlit("let ");
    reveal_strlit("var ");
    reveal_strlit("import ");
    reveal_strlit("export default");
    reveal_strlit("{");
    reveal_strlit("}");
    let s = keyword + (name + tail);
    assert(s[0] == keyword[0]);
    lemma_no_keyword(s, "import "@, 0);
    lemma_no_keyword(s, "export default"@, 0);
    text::law_affixes_come_off(keyword, name + tail);
    lemma_name_is_cut(name, tail, CharSet::DeclarationNameEnd);
    if keyword != "const "@ {
        lemma_no_keyword(s, "const "@, 0);
    }
    if keyword == "var "@ {
        lemma_no_keyword(s, "let "@, 0);
    }
}

proof fn lemma_declared_value(
    keyword: Seq<char>,
    name: Seq<char>,
    kind: Seq<char>,
    gap: Seq<char>,
    v: Seq<char>,
)
    requires
        keyword == "const "@ || keyword == "let "@ || keyword == "var "@,
        identifier_like(name),
        text::none_in(kind, CharSet::One('=')),
        text::all_in(gap, CharSet::Space),
        bare_statement(v),
    ensures
        value_after(keyword + (name + (kind + "="@ + (gap + v))), "="@, ';') == seq![v],
{
    reveal_strlit("const ");
    reveal_strlit("let ");
    reveal_strlit("var ");
    reveal_strlit("=");
    let before = keyword + name + kind;
    assert forall|i: int| 0 <= i < before.len() implies !CharSet::One('=').has(
        #[trigger] before[i],
    ) by {
        if i < keyword.len() {
            assert(before[i] == keyword[i]);
        } else if i < keyword.len() + name.len() {
            assert(before[i] == name[i - keyword.len()]);
            lemma_name_chars(name, i - keyword.len());
        } else {
            assert(before[i] == kind[i - keyword.len() - name.len()]);
        }
    }
    text::law_split_gives_the_parts(before, "="@, gap + v);
    assert(before + "="@ + (gap + v) =~= keyword + (name + (kind + "="@ + (gap + v))));
    lemma_value(gap + v, gap, v, ';');
}

/// A declaration holds its name and its value, both whole. Anything without `=`
/// may stand between the name and the `=`, and white space behind it.
pub proof fn law_declaration(
    keyword: Seq<char>,
    name: Seq<char>,
    kind: Seq<char>,
    gap: Seq<char>,
    v: Seq<char>,
    line: int,
)
    requires
        keyword == "const "@ || keyword == "let "@ || keyword == "var "@,
        identifier_like(name),
        kind.len() > 0 ==> text::white_space(kind[0]) || kind[0] == ':' || kind[0] == ';',
        text::none_in(kind, CharSet::One('=')),
        text::all_in(gap, CharSet::Space),
        bare_statement(v),
    ensures
        script_items(seq![keyword + (name + (kind + "="@ + (gap + v)))], line) == seq![
            (node::Item {
                node_type: "variable_declaration"@,
                label: name,
                line,
                detail_type: "declaration_value"@,
                details: seq![v],
            }),
        ],
{
    reveal_strlit("const ");
    reveal_strlit("let ");
    reveal_strlit("var ");
    reveal_strlit("=");
    let tail = kind + "="@ + (gap + v);
    let s = keyword + (name + tail);
    if kind.len() > 0 {
        assert(tail[0] == kind[0]);
    } else {
        assert(tail[0] == '=');
    }
    assert(s[0] == keyword[0] && s.last() == v.last());
    lemma_declaration(keyword, name, tail);
    lemma_bare_statement(s);
    lemma_one_line(s, line);
    lemma_declared_value(keyword, name, kind, gap, v);
}

/// `let name = v`, `const name = v` and `var name = v` hold a declaration of
/// `name` with the value `v`.
pub proof fn law_declared_value(keyword: Seq<char>, name: Seq<char>, v: Seq<char>, line: int)
    requires
        keyword == "const "@ || keyword == "let "@ || keyword == "var "@,
        identifier_like(name),
        bare_statement(v),
    ensures
        script_items(seq![keyword + name + " = "@ + v], line) == seq![
            (node::Item {
                node_type: "variable_declaration"@,
                label: name,
                line,
                detail_type: "declaration_value"@,
                details: seq![v],
            }),
        ],
{
    reveal_strlit(" = ");
    reveal_strlit("=");
    law_declaration(keyword, name, seq![' '], seq![' '], v, line);
    assert(keyword + (name + (seq![' '] + "="@ + (seq![' '] + v))) =~= keyword + name + " = "@ + v);
}

/// A declaration without `=` holds its name and no value.
pub proof fn law_declaration_without_value(
    keyword: Seq<char>,
    name: Seq<char>,
    kind: Seq<char>,
    line: int,
)
    requires
        keyword == "const "@ || keyword == "let "@ || keyword == "var "@,
        identifier_like(name),
        kind.len() > 0 ==> text::white_space(kind[0]) || kind[0] == ':' || kind[0] == ';',
        text::none_in(kind, CharSet::One('=')),
        bare_statement(keyword + (name + kind)),
    ensures
        script_items(seq![keyword + (name + kind)], line) == seq![
            (node::Item {
                node_type: "variable_declaration"@,
                label: name,
                line,
                detail_type: "declaration_value"@,
                details: seq![],
            }),
        ],
{
    reveal_strlit("const ");
    reveal_strlit("let ");
    reveal_strlit("var ");
    reveal_strlit("=");
    let s = keyword + (name + kind);
    lemma_declaration(keyword, name, kind);
    lemma_bare_statement(s);
    lemma_one_line(s, line);
    assert forall|i: int| 0 <= i < s.len() implies !CharSet::One('=').has(#[trigger] s[i]) by {
        if i < keyword.len() {
            assert(s[i] == keyword[i]);
        } else if i < keyword.len() + name.len() {
            assert(s[i] == name[i - keyword.len()]);
            lemma_name_chars(name, i - keyword.len());
        } else {
            assert(s[i] == kind[i - keyword.len() - name.len()]);
        }
    }
    text::law_no_split_without_the_pattern(s, "="@);
}

/// A line that begins with `import ` is held whole, and one that begins with
/// `export default` by these words.
pub proof fn law_import_and_export(x: Seq<char>, line: int)
    ensures
        bare_statement("import "@ + x) ==> script_items(seq!["import "@ + x], line) == seq![
            (node::Item {
                node_type: "import_statement"@,
                label: "import "@ + x,
                line,
                detail_type: ""@,
                details: seq![],
            }),
        ],
        bare_statement("export default"@ + x) ==> script_items(seq!["export default"@ + x], line)
            == seq![
            (node::Item {
                node_type: "export_default"@,
                label: "export default"@,
                line,
                detail_type: ""@,
                details: seq![],
            }),
        ],
{
    reveal_strlit("import ");
    reveal_strlit("export default");
    reveal_strlit("{");
    reveal_strlit("}");
    let s = "import "@ + x;
    if bare_statement(s) {
        lemma_bare_statement(s);
        lemma_one_line(s, line);
        text::law_affixes_come_off("import "@, x);
        assert(s.subrange(0, 7) =~= "import "@);
    }
    let t = "export default"@ + x;
    if bare_statement(t) {
        lemma_bare_statement(t);
        lemma_one_line(t, line);
        lemma_no_keyword(t, "import "@, 0);
        assert(t.subrange(0, 14) =~= "export default"@);
    }
}

/// Whether a statement begins with none of the words that make it an import, an
/// export, a declaration or a function.
pub open spec fn without_keyword(s: Seq<char>) -> bool {
    &&& !"import "@.is_prefix_of(s)
    &&& !"export default"@.is_prefix_of(s)
    &&& !"const "@.is_prefix_of(s)
    &&& !"let "@.is_prefix_of(s)
    &&& !"var "@.is_prefix_of(s)
    &&& !"function "@.is_prefix_of(s)
}

proof fn lemma_name_has_no_keyword(name: Seq<char>, tail: Seq<char>)
    requires
        identifier_like(name),
        tail.len() > 0,
        tail[0] == ':' || tail[0] == '(',
    ensures
        without_keyword(name + tail),
        significant(name + tail),
{
    reveal_strlit("import ");
    reveal_strlit("export default");
    reveal_strlit("const ");
    reveal_strlit("let ");
    reveal_strlit("var ");
    reveal_strlit("function ");
    reveal_strlit("{");
    reveal_strlit("}");
    let s = name + tail;
    let n = name.len() as int;
    assert(s[n] == tail[0]);
    lemma_name_chars(name, 0);
    assert(s[0] == name[0]);
    lemma_blank_is_missed(name, tail, "import "@, 6);
    lemma_blank_is_missed(name, tail, "export default"@, 6);
    lemma_blank_is_missed(name, tail, "const "@, 5);
    lemma_blank_is_missed(name, tail, "let "@, 3);
    lemma_blank_is_missed(name, tail, "var "@, 3);
    lemma_blank_is_missed(name, tail, "function "@, 8);
}

/// A word with a blank at place `k` does not begin a text whose first `:` or `(`
/// comes before any blank.
proof fn lemma_blank_is_missed(name: Seq<char>, tail: Seq<char>, keyword: Seq<char>, k: int)
    requires
        identifier_like(name),
        tail.len() > 0,
        tail[0] == ':' || tail[0] == '(',
        0 <= k < keyword.len(),
        keyword[k] == ' ',
        forall|i: int| 0 <= i < k ==> #[trigger] keyword[i] != ':' && keyword[i] != '(',
    ensures
        !keyword.is_prefix_of(name + tail),
{
    let s = name + tail;
    let n = name.len() as int;
    assert(s[n] == tail[0]);
    if n <= k {
        lemma_no_keyword(s, keyword, n);
    } else {
        lemma_name_chars(name, k);
        assert(s[k] == name[k]);
        lemma_no_keyword(s, keyword, k);
    }
}

/// `function name` holds a function of that name, whatever stands behind the
/// name.
pub proof fn law_function(name: Seq<char>, tail: Seq<char>, line: int)
    requires
        identifier_like(name),
        tail.len() > 0 ==> text::white_space(tail[0]) || tail[0] == '(',
        bare_statement("function "@ + (name + tail)),
    ensures
        script_items(seq!["function "@ + (name + tail)], line) == seq![
            (node::Item {
                node_type: "method_declaration"@,
                label: name,
                line,
                detail_type: ""@,
                details: seq![],
            }),
        ],
{
    reveal_strlit("import ");
    reveal_strlit("export default");
    reveal_strlit("const ");
    reveal_strlit("let ");
    reveal_strlit("var ");
    reveal_strlit("function ");
    reveal_strlit("{");
    reveal_strlit("}");
    let s = "function "@ + (name + tail);
    assert(s[0] == 'f');
    lemma_no_keyword(s, "import "@, 0);
    lemma_no_keyword(s, "export default"@, 0);
    lemma_no_keyword(s, "const "@, 0);
    lemma_no_keyword(s, "let "@, 0);
    lemma_no_keyword(s, "var "@, 0);
    lemma_bare_statement(s);
    lemma_one_line(s, line);
    text::law_affixes_come_off("function "@, name + tail);
    lemma_name_is_cut(name, tail, CharSet::FunctionNameEnd);
}

/// `name()` holds a function of that name, whatever stands behind it. White space
/// before the `()` makes no difference.
pub proof fn law_method(name: Seq<char>, gap: Seq<char>, tail: Seq<char>, line: int)
    requires
        identifier_like(name),
        text::all_in(gap, CharSet::Space),
        gap.len() == 0 || without_keyword(name + gap + "()"@ + tail),
        bare_statement(name + gap + "()"@ + tail),
    ensures
        script_items(seq![name + gap + "()"@ + tail], line) == seq![
            (node::Item {
                node_type: "method_declaration"@,
                label: name,
                line,
                detail_type: ""@,
                details: seq![],
            }),
        ],
{
    reveal_strlit("()");
    reveal_strlit("{");
    reveal_strlit("}");
    let none = Seq::<char>::empty();
    let before = name + gap;
    let s = before + "()"@ + tail;
    lemma_name_chars(name, 0);
    lemma_name_chars(name, name.len() - 1);
    if gap.len() == 0 {
        assert(s =~= name + ("()"@ + tail));
        assert(("()"@ + tail)[0] == '(');
        lemma_name_has_no_keyword(name, "()"@ + tail);
    }
    assert(s.len() > 1);
    lemma_bare_statement(s);
    lemma_one_line(s, line);
    assert forall|i: int| 0 <= i < before.len() implies !CharSet::One('(').has(
        #[trigger] before[i],
    ) by {
        if i < name.len() {
            assert(before[i] == name[i]);
            lemma_name_chars(name, i);
        } else {
            assert(before[i] == gap[i - name.len()]);
            assert(CharSet::Space.has(gap[i - name.len()]));
        }
    }
    text::law_split_gives_the_parts(before, "()"@, tail);
    text::law_trim(none, name, gap, CharSet::Space);
    assert(none + name + gap =~= before);
}

proof fn lemma_name_is_trimmed(name: Seq<char>)
    requires
        identifier_like(name),
    ensures
        text::trimmed(name) == name,
        text::without_ends(name, CharSet::One('"')) == name,
        text::without_ends(name, CharSet::One('\'')) == name,
{
    let none = Seq::<char>::empty();
    lemma_name_chars(name, 0);
    lemma_name_chars(name, name.len() - 1);
    text::law_trim(none, name, none, CharSet::Space);
    text::law_trim(none, name, none, CharSet::One('"'));
    text::law_trim(none, name, none, CharSet::One('\''));
}

/// What is split off before `pattern` holds every character that stands before
/// all places of the pattern's first character.
proof fn lemma_split_keeps(s: Seq<char>, pattern: Seq<char>, i: int)
    requires
        0 <= i < s.len(),
        pattern.len() > 0,
        forall|j: int| 0 <= j <= i ==> #[trigger] s[j] != pattern[0],
        text::split_around(s, pattern) is Some,
    ensures
        ({
            let before = (text::split_around(s, pattern)->0).0;
            i < before.len() && before[i] == s[i]
        }),
{
    text::lemma_position(s, pattern);
    let p = text::position(s, pattern)->0 as int;
    assert(s.subrange(p, p + pattern.len())[0] == s[p]);
    assert(p > i);
}

/// A text that has a character that no name has before its first `(` names no
/// function by `()`.
proof fn lemma_no_function(s: Seq<char>, i: int)
    requires
        without_keyword(s),
        0 <= i < s.len(),
        !name_part(s[i]),
        !text::white_space(s[i]),
        forall|j: int| 0 <= j <= i ==> #[trigger] s[j] != '(',
    ensures
        declared_function(s) is None,
{
    reveal_strlit("()");
    match text::split_around(s, "()"@) {
        Some((before, _)) => {
            lemma_split_keeps(s, "()"@, i);
            text::law_trim_keeps(before, CharSet::Space, i);
            let t = text::trimmed(before);
            let j = choose|j: int| 0 <= j < t.len() && t[j] == s[i];
            lemma_not_a_name(t, j);
        },
        None => {},
    }
}

/// A property holds its name and its value, both whole. White space around the
/// `:` and quotes around the name make no difference.
pub proof fn law_property(
    quote: Seq<char>,
    name: Seq<char>,
    gap: Seq<char>,
    space: Seq<char>,
    v: Seq<char>,
    line: int,
)
    requires
        quote == ""@ || quote == "\""@ || quote == "'"@,
        identifier_like(name),
        text::all_in(gap, CharSet::Space),
        text::all_in(space, CharSet::Space),
        gap.len() == 0 || without_keyword(quote + name + quote + gap),
        bare_statement(v),
    ensures
        script_items(seq![quote + name + quote + gap + ":"@ + (space + v)], line) == seq![
            (node::Item {
                node_type: "property"@,
                label: name,
                line,
                detail_type: "property_value"@,
                details: seq![v],
            }),
        ],
{
    reveal_strlit("");
    reveal_strlit("\"");
    reveal_strlit("'");
    reveal_strlit(":");
    reveal_strlit("{");
    reveal_strlit("}");
    let none = Seq::<char>::empty();
    let quoted = quote + name + quote;
    let before = quoted + gap;
    let s = before + ":"@ + (space + v);
    let n = before.len() as int;
    assert(s[n] == ':');
    assert(s.last() == v.last());
    lemma_name_chars(name, 0);
    lemma_name_chars(name, name.len() - 1);
    if quote.len() > 0 {
        assert(s[0] == quote[0]);
        assert(quoted[0] == quote[0] && quoted.last() == quote[0]);
    } else {
        assert(quoted =~= name);
        assert(s[0] == name[0]);
    }
    assert(!text::white_space(s[0]));
    lemma_bare_statement(s);
    lemma_one_line(s, line);
    lemma_property_has_no_keyword(quote, name, gap, ":"@ + (space + v));
    assert(before + (":"@ + (space + v)) =~= s);
    assert forall|i: int| 0 <= i < before.len() implies before[i] != ':' && #[trigger] before[i]
        != '(' by {
        if i < quote.len() {
            assert(before[i] == quote[i]);
        } else if i < quote.len() + name.len() {
            assert(before[i] == name[i - quote.len()]);
            lemma_name_chars(name, i - quote.len());
        } else if i < quoted.len() {
            assert(before[i] == quote[i - quote.len() - name.len()]);
        } else {
            assert(before[i] == gap[i - quoted.len()]);
            assert(CharSet::Space.has(gap[i - quoted.len()]));
        }
    }
    assert forall|j: int| 0 <= j <= n implies #[trigger] s[j] != '(' by {
        if j < n {
            assert(s[j] == before[j]);
        }
    }
    lemma_no_function(s, n);
    text::law_split_gives_the_parts(before, ":"@, space + v);
    text::law_trim(none, quoted, gap, CharSet::Space);
    assert(none + quoted + gap =~= before);
    lemma_name_is_trimmed(name);
    if quote.len() == 0 {
        assert(quoted =~= name);
    } else if quote[0] == '"' {
        text::law_trim(quote, name, quote, CharSet::One('"'));
    } else {
        text::law_trim(none, quoted, none, CharSet::One('"'));
        text::law_trim(quote, name, quote, CharSet::One('\''));
    }
    assert(declared_property(s) == Some(name));
    lemma_value(space + v, space, v, ',');
    assert(declared_name(s) is None);
}

proof fn lemma_property_has_no_keyword(
    quote: Seq<char>,
    name: Seq<char>,
    gap: Seq<char>,
    tail: Seq<char>,
)
    requires
        quote =~= seq![] || quote =~= seq!['"'] || quote =~= seq!['\''],
        identifier_like(name),
        text::all_in(gap, CharSet::Space),
        gap.len() == 0 || without_keyword(quote + name + quote + gap),
        tail.len() > 0,
        tail[0] == ':',
    ensures
        without_keyword(quote + name + quote + gap + tail),
        significant(quote + name + quote + gap + tail),
{
    reveal_strlit("import ");
    reveal_strlit("export default");
    reveal_strlit("const ");
    reveal_strlit("let ");
    reveal_strlit("var ");
    reveal_strlit("function ");
    reveal_strlit("{");
    reveal_strlit("}");
    let before = quote + name + quote + gap;
    let s = before + tail;
    lemma_name_chars(name, 0);
    assert(s.len() > 1);
    assert(s[before.len() as int] == ':');
    if quote.len() > 0 {
        assert(s[0] == quote[0]);
        lemma_no_keyword(s, "import "@, 0);
        lemma_no_keyword(s, "export default"@, 0);
        lemma_no_keyword(s, "const "@, 0);
        lemma_no_keyword(s, "let "@, 0);
        lemma_no_keyword(s, "var "@, 0);
        lemma_no_keyword(s, "function "@, 0);
    } else if gap.len() == 0 {
        assert(s =~= name + tail);
        lemma_name_has_no_keyword(name, tail);
    } else {
        lemma_no_keyword_before_colon(before, tail, "import "@);
        lemma_no_keyword_before_colon(before, tail, "export default"@);
        lemma_no_keyword_before_colon(before, tail, "const "@);
        lemma_no_keyword_before_colon(before, tail, "let "@);
        lemma_no_keyword_before_colon(before, tail, "var "@);
        lemma_no_keyword_before_colon(before, tail, "function "@);
    }
}

proof fn lemma_no_keyword_before_colon(before: Seq<char>, tail: Seq<char>, keyword: Seq<char>)
    requires
        tail.len() > 0,
        tail[0] == ':',
        !keyword.is_prefix_of(before),
        forall|i: int| 0 <= i < keyword.len() ==> #[trigger] keyword[i] != ':',
    ensures
        !keyword.is_prefix_of(before + tail),
{
    let s = before + tail;
    if keyword.is_prefix_of(s) {
        assert(s.subrange(0, keyword.len() as int) == keyword);
        if keyword.len() <= before.len() {
            assert(before.subrange(0, keyword.len() as int) =~= keyword);
        } else {
            assert(keyword[before.len() as int] == s[before.len() as int]);
        }
    }
}

/// `name: v` holds a property `name` with the value `v`.
pub proof fn law_property_value(name: Seq<char>, v: Seq<char>, line: int)
    requires
        identifier_like(name),
        bare_statement(v),
    ensures
        script_items(seq![name + ": "@ + v], line) == seq![
            (node::Item {
                node_type: "property"@,
                label: name,
                line,
                detail_type: "property_value"@,
                details: seq![v],
            }),
        ],
{
    reveal_strlit(": ");
    reveal_strlit(":");
    reveal_strlit("");
    law_property(""@, name, seq![], seq![' '], v, line);
    assert(""@ + name + ""@ + seq![] + ":"@ + (seq![' '] + v) =~= name + ": "@ + v);
}

/// Declarations and properties of one name with different values have different
/// nodes, wherever they stand.
pub proof fn law_different_values_show(
    keyword: Seq<char>,
    name: Seq<char>,
    v: Seq<char>,
    w: Seq<char>,
    line: int,
    parent: Seq<char>,
)
    requires
        keyword == "const "@ || keyword == "let "@ || keyword == "var "@,
        identifier_like(name),
        bare_statement(v),
        bare_statement(w),
        v != w,
    ensures
        node::item_nodes(script_items(seq![keyword + name + " = "@ + v], line), parent)
            != node::item_nodes(script_items(seq![keyword + name + " = "@ + w], line), parent),
        node::item_nodes(script_items(seq![name + ": "@ + v], line), parent) != node::item_nodes(
            script_items(seq![name + ": "@ + w], line),
            parent,
        ),
{
    law_declared_value(keyword, name, v, line);
    law_declared_value(keyword, name, w, line);
    law_property_value(name, v, line);
    law_property_value(name, w, line);
    lemma_details_differ(
        script_items(seq![keyword + name + " = "@ + v], line),
        script_items(seq![keyword + name + " = "@ + w], line),
        parent,
    );
    lemma_details_differ(
        script_items(seq![name + ": "@ + v], line),
        script_items(seq![name + ": "@ + w], line),
        parent,
    );
}

proof fn lemma_details_differ(a: Seq<node::Item>, b: Seq<node::Item>, parent: Seq<char>)
    requires
        a.len() == 1,
        b.len() == 1,
        a[0].details.len() == 1,
        b[0].details.len() == 1,
        a[0].details[0] != b[0].details[0],
    ensures
        node::item_nodes(a, parent) != node::item_nodes(b, parent),
{
    let x = node::item_nodes(a, parent);
    let y = node::item_nodes(b, parent);
    assert(x[0].children[0].label == a[0].details[0]);
    assert(y[0].children[0].label == b[0].details[0]);
}

/// Whether an operator is one that assigns.
pub open spec fn assigns(op: Seq<char>) -> bool {
    op == "="@ || op == "+="@ || op == "-="@ || op == "*="@ || op == "/="@
}

/// Whether no compound operator but `op` stands in a text.
pub open spec fn no_operator_but(s: Seq<char>, op: Seq<char>) -> bool {
    &&& op == "+="@ || text::stands_nowhere(s, "+="@)
    &&& op == "-="@ || text::stands_nowhere(s, "-="@)
    &&& op == "*="@ || text::stands_nowhere(s, "*="@)
    &&& op == "/="@ || text::stands_nowhere(s, "/="@)
}

/// An assignment holds what it assigns to, whole, whatever the value is.
pub proof fn law_assignment(
    target: Seq<char>,
    gap: Seq<char>,
    op: Seq<char>,
    v: Seq<char>,
    line: int,
)
    requires
        assigns(op),
        text::bare_of(target, CharSet::Space),
        text::none_in(target, CharSet::One('=')),
        text::none_in(target, CharSet::One(':')),
        text::none_in(target, CharSet::One('(')),
        text::all_in(gap, CharSet::Space),
        !other_statement(target),
        without_keyword(target + gap + op + v),
        no_operator_but(target + gap + op + v, op),
        bare_statement(target + gap + op + v),
    ensures
        script_items(seq![target + gap + op + v], line) == seq![
            (node::Item {
                node_type: "assignment_statement"@,
                label: target,
                line,
                detail_type: ""@,
                details: seq![],
            }),
        ],
{
    reveal_strlit("=");
    reveal_strlit("+=");
    reveal_strlit("-=");
    reveal_strlit("*=");
    reveal_strlit("/=");
    reveal_strlit(":");
    reveal_strlit("{");
    reveal_strlit("}");
    let none = Seq::<char>::empty();
    let before = target + gap;
    let s = before + op + v;
    let n = before.len() + op.len() - 1;
    assert(s[n] == '=');
    lemma_bare_statement(s);
    lemma_one_line(s, line);
    assert forall|i: int| 0 <= i < before.len() implies before[i] != ':' && before[i] != '('
        && #[trigger] before[i] != '=' by {
        if i < target.len() {
            assert(before[i] == target[i]);
            assert(!CharSet::One(':').has(target[i]));
            assert(!CharSet::One('(').has(target[i]));
            assert(!CharSet::One('=').has(target[i]));
        } else {
            assert(before[i] == gap[i - target.len()]);
            assert(CharSet::Space.has(gap[i - target.len()]));
        }
    }
    assert forall|j: int| 0 <= j <= n implies #[trigger] s[j] != '(' && s[j] != ':' by {
        if j < before.len() {
            assert(s[j] == before[j]);
        } else {
            assert(s[j] == op[j - before.len()]);
        }
    }
    assert(declared_name(s) is None);
    lemma_no_function(s, n);
    lemma_no_property(s, n);
    assert(text::stands_first_behind(before, op)) by {
        assert forall|j: int| 0 <= j < before.len() implies !text::occurs_at(
            before + op,
            op,
            j,
        ) by {
            let t = before + op;
            if text::occurs_at(t, op, j) {
                let k = j + op.len() - 1;
                assert(t.subrange(j, j + op.len())[op.len() - 1] == t[k]);
                if k < before.len() {
                    assert(t[k] == before[k]);
                } else {
                    assert(t[k] == op[k - before.len()]);
                }
            }
        }
    }
    text::law_pattern_is_found(before, op, v);
    text::law_trim(none, target, gap, CharSet::Space);
    assert(none + target + gap =~= before);
    assert(target_of(s, op) == Some(target));
    text::law_pattern_is_missing(s, "+="@);
    text::law_pattern_is_missing(s, "-="@);
    text::law_pattern_is_missing(s, "*="@);
    text::law_pattern_is_missing(s, "/="@);
    assert(assigned_target(s) == Some(target));
    assert(s.len() > 1);
}

proof fn lemma_no_property(s: Seq<char>, i: int)
    requires
        0 <= i < s.len(),
        s[i] == '=',
        forall|j: int| 0 <= j <= i ==> #[trigger] s[j] != ':',
    ensures
        declared_property(s) is None,
{
    reveal_strlit(":");
    match text::split_around(s, ":"@) {
        Some((before, _)) => {
            lemma_split_keeps(s, ":"@, i);
            text::law_trim_keeps(before, CharSet::Space, i);
            let t = text::trimmed(before);
            let j = choose|j: int| 0 <= j < t.len() && t[j] == '=';
            text::law_trim_keeps(t, CharSet::One('"'), j);
            let u = text::without_ends(t, CharSet::One('"'));
            let k = choose|k: int| 0 <= k < u.len() && u[k] == '=';
            text::law_trim_keeps(u, CharSet::One('\''), k);
            let w = text::without_ends(u, CharSet::One('\''));
            let m = choose|m: int| 0 <= m < w.len() && w[m] == '=';
            lemma_not_a_name(w, m);
        },
        None => {},
    }
}

/// A declaration or a property without a value holds its name alone.
pub proof fn law_missing_value(keyword: Seq<char>, name: Seq<char>, line: int)
    requires
        keyword == "const "@ || keyword == "let "@ || keyword == "var "@,
        identifier_like(name),
    ensures
        script_items(seq![keyword + (name + "="@)], line) == seq![
            (node::Item {
                node_type: "variable_declaration"@,
                label: name,
                line,
                detail_type: "declaration_value"@,
                details: seq![],
            }),
        ],
        script_items(seq![name + ":"@], line) == seq![
            (node::Item {
                node_type: "property"@,
                label: name,
                line,
                detail_type: "property_value"@,
                details: seq![],
            }),
        ],
{
    reveal_strlit("const ");
    reveal_strlit("let ");
    reveal_strlit("var ");
    reveal_strlit("=");
    reveal_strlit(":");
    let none = Seq::<char>::empty();
    assert(text::trimmed(none) =~= none);
    assert(text::without_trailing(none, CharSet::One(';')) =~= none);
    assert(text::without_trailing(none, CharSet::One(',')) =~= none);
    lemma_name_chars(name, 0);
    let s = keyword + (name + "="@);
    let before = keyword + name;
    assert(s[0] == keyword[0] && s.last() == '=');
    assert forall|i: int| 0 <= i < before.len() implies !CharSet::One('=').has(
        #[trigger] before[i],
    ) by {
        if i < keyword.len() {
            assert(before[i] == keyword[i]);
        } else {
            assert(before[i] == name[i - keyword.len()]);
            lemma_name_chars(name, i - keyword.len());
        }
    }
    lemma_bare_statement(s);
    lemma_one_line(s, line);
    lemma_declaration(keyword, name, "="@);
    text::law_split_gives_the_parts(before, "="@, none);
    assert(before + "="@ + none =~= s);
    let t = name + ":"@;
    assert(t[0] == name[0] && t.last() == ':');
    assert(t[name.len() as int] == ':');
    assert forall|i: int| 0 <= i < t.len() implies #[trigger] t[i] != '(' by {
        if i < name.len() {
            assert(t[i] == name[i]);
            lemma_name_chars(name, i);
        }
    }
    assert forall|i: int| 0 <= i < name.len() implies !CharSet::One(':').has(
        #[trigger] name[i],
    ) by {
        lemma_name_chars(name, i);
    }
    lemma_bare_statement(t);
    lemma_one_line(t, line);
    lemma_name_has_no_keyword(name, ":"@);
    lemma_no_function(t, name.len() as int);
    text::law_split_gives_the_parts(name, ":"@, none);
    assert(name + ":"@ + none =~= t);
    lemma_name_is_trimmed(name);
}

proof fn lemma_without_assignment(s: Seq<char>)
    requires
        text::none_in(s, CharSet::One('=')),
    ensures
        assigned_target(s) is None,
{
    reveal_strlit("=");
    reveal_strlit("+=");
    reveal_strlit("-=");
    reveal_strlit("*=");
    reveal_strlit("/=");
    lemma_no_operator(s, "="@);
    lemma_no_operator(s, "+="@);
    lemma_no_operator(s, "-="@);
    lemma_no_operator(s, "*="@);
    lemma_no_operator(s, "/="@);
}

proof fn lemma_no_operator(s: Seq<char>, op: Seq<char>)
    requires
        op.len() > 0,
        op.last() == '=',
        text::none_in(s, CharSet::One('=')),
    ensures
        target_of(s, op) is None,
{
    assert forall|j: int| !text::occurs_at(s, op, j) by {
        if text::occurs_at(s, op, j) {
            let k = j + op.len() - 1;
            assert(s.subrange(j, j + op.len())[op.len() - 1] == s[k]);
            assert(!CharSet::One('=').has(s[k]));
        }
    }
    text::law_pattern_is_missing(s, op);
}

/// A blank line, a brace, and a statement without keyword, `()`, `:` and `=` hold
/// nothing.
pub proof fn law_other_lines_hold_nothing(
    pre: Seq<char>,
    x: Seq<char>,
    post: Seq<char>,
    line: int,
)
    requires
        text::all_in(pre, CharSet::Space),
        text::all_in(post, CharSet::Space),
        x.len() == 0 || x == "{"@ || x == "}"@ || (bare_statement(x) && without_keyword(x)
            && text::stands_nowhere(x, "()"@) && text::none_in(x, CharSet::One(':'))
            && text::none_in(x, CharSet::One('='))),
    ensures
        script_items(seq![pre + x + post], line) == Seq::<node::Item>::empty(),
{
    reveal_strlit("{");
    reveal_strlit("}");
    reveal_strlit(":");
    let none = Seq::<char>::empty();
    if x.len() == 0 {
        text::law_trim(pre, x, post, CharSet::Space);
        assert(x =~= none);
        assert(text::trimmed(none) =~= none);
        assert(text::without_trailing(none, CharSet::One(';')) =~= none);
        assert(text::without_trailing(none, CharSet::One(',')) =~= none);
    } else {
        law_statement_is_kept(pre, x, none, none, none, post);
        assert(pre + (x + none + none + none) + post =~= pre + x + post);
    }
    lemma_one_line(pre + x + post, line);
    if significant(x) {
        text::law_pattern_is_missing(x, "()"@);
        text::law_no_split_without_the_pattern(x, ":"@);
        lemma_without_assignment(x);
    }
}

proof fn lemma_trimmed_begins(word: Seq<char>, x: Seq<char>)
    requires
        word.len() > 0,
        !text::white_space(word[0]),
        !text::white_space(word.last()),
    ensures
        word.is_prefix_of(text::trimmed(word + x)),
    decreases x.len(),
{
    let s = word + x;
    assert(s[0] == word[0]);
    assert(text::without_leading(s, CharSet::Space) == s);
    if x.len() == 0 {
        assert(s =~= word);
    } else if text::white_space(s.last()) {
        assert(s.drop_last() =~= word + x.drop_last());
        lemma_trimmed_begins(word, x.drop_last());
        assert((word + x.drop_last())[0] == word[0]);
    } else {
        assert(s.subrange(0, word.len() as int) =~= word);
    }
}

/// A keyword, white space and a character.
pub open spec fn begun(keyword: Seq<char>, gap: Seq<char>, c: char) -> Seq<char> {
    (keyword + gap).push(c)
}

/// Whether a word is `const`, `let` or `var` with a blank, more white space and
/// the first character of what is declared.
pub open spec fn begins_declaration(
    word: Seq<char>,
    keyword: Seq<char>,
    gap: Seq<char>,
    c: char,
) -> bool {
    &&& word == begun(keyword, gap, c)
    &&& keyword == "const "@ || keyword == "let "@ || keyword == "var "@
    &&& text::all_in(gap, CharSet::Space)
    &&& !text::white_space(c) && c != '=' && c != '+' && c != '-' && c != '*' && c != '/'
}

/// Whether a word begins a statement that does not assign: `return`, or a
/// declaration.
pub open spec fn begins_other_statement(word: Seq<char>) -> bool {
    ||| word == "return"@
    ||| exists|keyword: Seq<char>, gap: Seq<char>, c: char|
        #[trigger] begins_declaration(word, keyword, gap, c)
}

/// Whether a word begins a statement that neither declares a name nor assigns:
/// `return`, or `const`, `let` or `var` with something else than one blank and a
/// name behind it.
pub open spec fn begins_without_name(word: Seq<char>) -> bool {
    ||| word == "return"@
    ||| exists|keyword: Seq<char>, gap: Seq<char>, c: char|
        #[trigger] begins_declaration(word, keyword, gap, c) && (gap.len() > 0 || !name_start(c))
}

proof fn lemma_begins_other_statement(word: Seq<char>, x: Seq<char>)
    requires
        begins_other_statement(word),
    ensures
        word.len() > 0,
        !text::white_space(word[0]),
        !text::white_space(word.last()),
        forall|i: int|
            0 <= i < word.len() ==> #[trigger] word[i] != '=' && word[i] != '+' && word[i] != '-'
                && word[i] != '*' && word[i] != '/',
        word[0] == 'r' || word[0] == 'c' || word[0] == 'l' || word[0] == 'v',
        word.is_prefix_of(x) ==> other_statement(x),
{
    reveal_strlit("return");
    reveal_strlit("const ");
    reveal_strlit("let ");
    reveal_strlit("var ");
    if word != "return"@ {
        let (keyword, gap, c) = choose|keyword: Seq<char>, gap: Seq<char>, c: char|
            #[trigger] begins_declaration(word, keyword, gap, c);
        let n = keyword.len() as int;
        assert forall|i: int| 0 <= i < word.len() implies #[trigger] word[i] != '=' && word[i]
            != '+' && word[i] != '-' && word[i] != '*' && word[i] != '/' by {
            if i < n {
                assert(word[i] == keyword[i]);
            } else if i < n + gap.len() {
                assert(word[i] == gap[i - n]);
                assert(CharSet::Space.has(gap[i - n]));
            }
        }
        assert(word[0] == keyword[0]);
        assert(word.last() == c);
        if word.is_prefix_of(x) {
            assert(x.subrange(0, word.len() as int) == word);
            assert(x.subrange(0, n) =~= word.subrange(0, n));
            assert(word.subrange(0, n) =~= keyword);
            assert(keyword.is_prefix_of(x));
        }
    }
}

proof fn lemma_begins_without_name(word: Seq<char>, x: Seq<char>)
    requires
        begins_without_name(word),
    ensures
        begins_other_statement(word),
        declared_name(word + x) is None,
{
    reveal_strlit("return");
    reveal_strlit("const ");
    reveal_strlit("let ");
    reveal_strlit("var ");
    let s = word + x;
    if word == "return"@ {
        assert(s[0] == 'r');
        lemma_no_keyword(s, "const "@, 0);
        lemma_no_keyword(s, "let "@, 0);
        lemma_no_keyword(s, "var "@, 0);
    } else {
        let (keyword, gap, c) = choose|keyword: Seq<char>, gap: Seq<char>, c: char|
            #[trigger] begins_declaration(word, keyword, gap, c) && (gap.len() > 0 || !name_start(
                c,
            ));
        let n = keyword.len() as int;
        assert(s[0] == keyword[0]);
        if gap.len() > 0 {
            assert(s[n] == gap[0]);
            assert(CharSet::Space.has(gap[0]));
        } else {
            assert(s[n] == c);
        }
        lemma_no_name_after(s, keyword);
        lemma_one_keyword(s, keyword);
    }
}

proof fn lemma_one_keyword(s: Seq<char>, keyword: Seq<char>)
    requires
        keyword == "const "@ || keyword == "let "@ || keyword == "var "@,
        s.len() > 0,
        s[0] == keyword[0],
    ensures
        declared_name(s) == name_after(s, keyword, CharSet::DeclarationNameEnd),
{
    reveal_strlit("const ");
    reveal_strlit("let ");
    reveal_strlit("var ");
    if keyword != "const "@ {
        lemma_no_keyword(s, "const "@, 0);
    }
    if keyword != "let "@ {
        lemma_no_keyword(s, "let "@, 0);
    }
    if keyword != "var "@ {
        lemma_no_keyword(s, "var "@, 0);
    }
}

/// A statement that begins with `return`, or with `const`, `let` or `var` and
/// something else than a name, is no assignment, whatever operators stand in it:
/// without `()` and `:` it holds nothing.
pub proof fn law_unnamed_statements_hold_nothing(word: Seq<char>, x: Seq<char>, line: int)
    requires
        begins_without_name(word),
        bare_statement(word + x),
        text::stands_nowhere(word + x, "()"@),
        text::none_in(word + x, CharSet::One(':')),
    ensures
        script_items(seq![word + x], line) == Seq::<node::Item>::empty(),
{
    reveal_strlit("import ");
    reveal_strlit("export default");
    reveal_strlit("function ");
    reveal_strlit(":");
    let s = word + x;
    lemma_begins_without_name(word, x);
    lemma_begins_other_statement(word, x);
    assert(s[0] == word[0]);
    lemma_bare_statement(s);
    lemma_one_line(s, line);
    lemma_no_keyword(s, "import "@, 0);
    lemma_no_keyword(s, "export default"@, 0);
    lemma_no_keyword(s, "function "@, 0);
    text::law_pattern_is_missing(s, "()"@);
    text::law_no_split_without_the_pattern(s, ":"@);
    lemma_no_assignment(word, x);
}

/// What is declared is a name, or nothing is: a text behind `const`, `let` or
/// `var` that ends where a name would and is none declares nothing.
pub proof fn law_only_names_are_declared(
    keyword: Seq<char>,
    x: Seq<char>,
    tail: Seq<char>,
    line: int,
)
    requires
        keyword == "const "@ || keyword == "let "@ || keyword == "var "@,
        x.len() > 0,
        !identifier_like(x),
        forall|i: int|
            0 <= i < x.len() ==> !text::white_space(#[trigger] x[i]) && x[i] != '=' && x[i] != ':'
                && x[i] != ';',
        x[0] != '+' && x[0] != '-' && x[0] != '*' && x[0] != '/',
        tail.len() > 0 ==> text::white_space(tail[0]) || tail[0] == '=' || tail[0] == ';',
        bare_statement(keyword + (x + tail)),
        text::stands_nowhere(keyword + (x + tail), "()"@),
        text::none_in(keyword + (x + tail), CharSet::One(':')),
    ensures
        script_items(seq![keyword + (x + tail)], line) == Seq::<node::Item>::empty(),
{
    reveal_strlit("import ");
    reveal_strlit("export default");
    reveal_strlit("function ");
    reveal_strlit("const ");
    reveal_strlit("let ");
    reveal_strlit("var ");
    reveal_strlit(":");
    let end = CharSet::DeclarationNameEnd;
    let none = Seq::<char>::empty();
    let s = keyword + (x + tail);
    let word = begun(keyword, none, x[0]);
    let rest = x.drop_first() + tail;
    assert(begins_declaration(word, keyword, none, x[0]));
    assert(word + rest =~= s);
    assert(s[0] == keyword[0]);
    lemma_begins_other_statement(word, rest);
    lemma_bare_statement(s);
    lemma_one_line(s, line);
    lemma_no_keyword(s, "import "@, 0);
    lemma_no_keyword(s, "export default"@, 0);
    lemma_no_keyword(s, "function "@, 0);
    text::law_affixes_come_off(keyword, x + tail);
    text::lemma_first_in_concat(x, tail, end);
    assert(text::first_in(tail, end) == 0);
    assert((x + tail).take(x.len() as int) =~= x);
    lemma_one_keyword(s, keyword);
    text::law_pattern_is_missing(s, "()"@);
    text::law_no_split_without_the_pattern(s, ":"@);
    lemma_no_assignment(word, rest);
}

/// What stands before `()` or before `:` is a name, or the line holds nothing,
/// where it has no keyword and no `=`.
pub proof fn law_only_names_are_functions(x: Seq<char>, tail: Seq<char>, line: int)
    requires
        text::bare_of(x, CharSet::Space),
        !identifier_like(x),
    ensures
        ({
            let s = x + "()"@ + tail;
            text::stands_first_behind(x, "()"@) && bare_statement(s) && without_keyword(s)
                && text::none_in(s, CharSet::One(':')) && text::none_in(s, CharSet::One('='))
                ==> script_items(seq![s], line) == Seq::<node::Item>::empty()
        }),
        ({
            let s = x + ":"@ + tail;
            text::bare_of(x, CharSet::One('"')) && text::bare_of(x, CharSet::One('\''))
                && text::none_in(x, CharSet::One(':')) && bare_statement(s) && without_keyword(s)
                && text::stands_nowhere(s, "()"@) && text::none_in(s, CharSet::One('='))
                ==> script_items(seq![s], line) == Seq::<node::Item>::empty()
        }),
{
    reveal_strlit("()");
    reveal_strlit(":");
    let none = Seq::<char>::empty();
    text::law_trim(none, x, none, CharSet::Space);
    let s = x + "()"@ + tail;
    if text::stands_first_behind(x, "()"@) && bare_statement(s) && without_keyword(s)
        && text::none_in(s, CharSet::One(':')) && text::none_in(s, CharSet::One('=')) {
        lemma_bare_statement(s);
        lemma_one_line(s, line);
        text::law_pattern_is_found(x, "()"@, tail);
        text::law_no_split_without_the_pattern(s, ":"@);
        lemma_without_assignment(s);
    }
    let t = x + ":"@ + tail;
    if text::bare_of(x, CharSet::One('"')) && text::bare_of(x, CharSet::One('\''))
        && text::none_in(x, CharSet::One(':')) && bare_statement(t) && without_keyword(t)
        && text::stands_nowhere(t, "()"@) && text::none_in(t, CharSet::One('=')) {
        lemma_bare_statement(t);
        lemma_one_line(t, line);
        text::law_pattern_is_missing(t, "()"@);
        text::law_split_gives_the_parts(x, ":"@, tail);
        text::law_trim(none, x, none, CharSet::One('"'));
        text::law_trim(none, x, none, CharSet::One('\''));
        lemma_without_assignment(t);
    }
}

proof fn lemma_no_assignment(word: Seq<char>, x: Seq<char>)
    requires
        begins_other_statement(word),
    ensures
        assigned_target(word + x) is None,
{
    reveal_strlit("=");
    reveal_strlit("+=");
    reveal_strlit("-=");
    reveal_strlit("*=");
    reveal_strlit("/=");
    lemma_no_target(word, x, "+="@);
    lemma_no_target(word, x, "-="@);
    lemma_no_target(word, x, "*="@);
    lemma_no_target(word, x, "/="@);
    lemma_no_target(word, x, "="@);
}

proof fn lemma_no_name_after(s: Seq<char>, keyword: Seq<char>)
    requires
        keyword.len() < s.len(),
        !name_start(s[keyword.len() as int]),
    ensures
        name_after(s, keyword, CharSet::DeclarationNameEnd) is None,
{
    let rest = s.skip(keyword.len() as int);
    let n = text::first_in(rest, CharSet::DeclarationNameEnd) as int;
    text::lemma_first_in(rest, CharSet::DeclarationNameEnd);
    assert(rest[0] == s[keyword.len() as int]);
    if n > 0 {
        assert(rest.take(n)[0] == rest[0]);
    }
}

proof fn lemma_no_target(word: Seq<char>, x: Seq<char>, op: Seq<char>)
    requires
        begins_other_statement(word),
        op.len() > 0,
        op[0] == '=' || op[0] == '+' || op[0] == '-' || op[0] == '*' || op[0] == '/',
    ensures
        target_of(word + x, op) is None,
{
    let s = word + x;
    lemma_begins_other_statement(word, x);
    match text::split_around(s, op) {
        Some((before, _)) => {
            let n = word.len() as int;
            assert forall|j: int| 0 <= j <= n - 1 implies #[trigger] s[j] != op[0] by {
                assert(s[j] == word[j]);
            }
            lemma_split_keeps(s, op, n - 1);
            text::lemma_split_around(s, op);
            let y = before.skip(n);
            assert(before =~= word + y) by {
                assert forall|j: int| 0 <= j < n implies before[j] == word[j] by {
                    assert(s[j] == before[j]);
                }
            }
            lemma_trimmed_begins(word, y);
            lemma_begins_other_statement(word, text::trimmed(before));
        },
        None => {},
    }
}

/// Whether no compound operator that is tried before `op` stands in a text. They
/// are tried in the order `+=`, `-=`, `*=`, `/=`, and `=` comes last.
pub open spec fn no_operator_before(s: Seq<char>, op: Seq<char>) -> bool {
    &&& op != "+="@ ==> text::stands_nowhere(s, "+="@)
    &&& op != "+="@ && op != "-="@ ==> text::stands_nowhere(s, "-="@)
    &&& op == "/="@ || op == "="@ ==> text::stands_nowhere(s, "*="@)
    &&& op == "="@ ==> text::stands_nowhere(s, "/="@)
}

/// What a line assigns to is the text before its operator, whole, whatever it
/// holds.
pub proof fn law_assigned_target(target: Seq<char>, gap: Seq<char>, op: Seq<char>, v: Seq<char>)
    requires
        assigns(op),
        text::bare_of(target, CharSet::Space),
        text::all_in(gap, CharSet::Space),
        !other_statement(target),
        text::stands_first_behind(target + gap, op),
        no_operator_before(target + gap + op + v, op),
    ensures
        assigned_target(target + gap + op + v) == Some(target),
{
    reveal_strlit("=");
    reveal_strlit("+=");
    reveal_strlit("-=");
    reveal_strlit("*=");
    reveal_strlit("/=");
    assert("+="@[0] == '+' && "-="@[0] == '-' && "*="@[0] == '*' && "/="@[0] == '/');
    assert("="@[0] == '=');
    let none = Seq::<char>::empty();
    let s = target + gap + op + v;
    text::law_pattern_is_found(target + gap, op, v);
    text::law_trim(none, target, gap, CharSet::Space);
    assert(none + target + gap =~= target + gap);
    assert(target_of(s, op) == Some(target));
    text::law_pattern_is_missing(s, "+="@);
    text::law_pattern_is_missing(s, "-="@);
    text::law_pattern_is_missing(s, "*="@);
    text::law_pattern_is_missing(s, "/="@);
}

/// A text before `:` that holds anything but a name, white space and quotes names
/// no property: without keyword, `()` and `=` such a line holds nothing.
pub proof fn law_only_names_are_properties(x: Seq<char>, i: int, v: Seq<char>, line: int)
    requires
        0 <= i < x.len(),
        !name_part(x[i]) && !text::white_space(x[i]) && x[i] != '"' && x[i] != '\'',
        text::none_in(x, CharSet::One(':')),
        bare_statement(x + ":"@ + v),
        without_keyword(x + ":"@ + v),
        text::stands_nowhere(x + ":"@ + v, "()"@),
        text::none_in(x + ":"@ + v, CharSet::One('=')),
    ensures
        script_items(seq![x + ":"@ + v], line) == Seq::<node::Item>::empty(),
{
    reveal_strlit(":");
    let s = x + ":"@ + v;
    lemma_bare_statement(s);
    lemma_one_line(s, line);
    text::law_pattern_is_missing(s, "()"@);
    lemma_without_assignment(s);
    text::law_split_gives_the_parts(x, ":"@, v);
    text::law_trim_keeps(x, CharSet::Space, i);
    let t = text::trimmed(x);
    let j = choose|j: int| 0 <= j < t.len() && t[j] == x[i];
    text::law_trim_keeps(t, CharSet::One('"'), j);
    let u = text::without_ends(t, CharSet::One('"'));
    let k = choose|k: int| 0 <= k < u.len() && u[k] == x[i];
    text::law_trim_keeps(u, CharSet::One('\''), k);
    let w = text::without_ends(u, CharSet::One('\''));
    let m = choose|m: int| 0 <= m < w.len() && w[m] == x[i];
    lemma_not_a_name(w, m);
}

/// Separators that stand behind a value, before those that end the statement, are
/// no part of the value.
pub proof fn law_value_has_no_separators(
    keyword: Seq<char>,
    name: Seq<char>,
    v: Seq<char>,
    gap: Seq<char>,
    semicolons: Seq<char>,
    commas: Seq<char>,
    space: Seq<char>,
    line: int,
)
    requires
        keyword == "const "@ || keyword == "let "@ || keyword == "var "@,
        identifier_like(name),
        bare_statement(v),
        text::all_in(gap, CharSet::Space),
        text::all_in(semicolons, CharSet::One(';')),
        text::all_in(commas, CharSet::One(',')),
        text::all_in(space, CharSet::Space),
        semicolons.len() > 0,
        commas.len() > 0,
        space.len() > 0,
    ensures
        script_items(
            seq![keyword + name + " = "@ + v + gap + semicolons + space + ";"@],
            line,
        ) == seq![
            (node::Item {
                node_type: "variable_declaration"@,
                label: name,
                line,
                detail_type: "declaration_value"@,
                details: seq![v],
            }),
        ],
        script_items(seq![name + ": "@ + v + gap + commas + ";"@], line) == seq![
            (node::Item {
                node_type: "property"@,
                label: name,
                line,
                detail_type: "property_value"@,
                details: seq![v],
            }),
        ],
{
    lemma_declaration_with_semicolons(keyword, name, v, gap, semicolons, space, line);
    lemma_property_with_commas(name, v, gap, commas, line);
}

proof fn lemma_declaration_with_semicolons(
    keyword: Seq<char>,
    name: Seq<char>,
    v: Seq<char>,
    gap: Seq<char>,
    semicolons: Seq<char>,
    space: Seq<char>,
    line: int,
)
    requires
        keyword == "const "@ || keyword == "let "@ || keyword == "var "@,
        identifier_like(name),
        bare_statement(v),
        text::all_in(gap, CharSet::Space),
        text::all_in(semicolons, CharSet::One(';')),
        text::all_in(space, CharSet::Space),
        semicolons.len() > 0,
        space.len() > 0,
    ensures
        script_items(
            seq![keyword + name + " = "@ + v + gap + semicolons + space + ";"@],
            line,
        ) == seq![
            (node::Item {
                node_type: "variable_declaration"@,
                label: name,
                line,
                detail_type: "declaration_value"@,
                details: seq![v],
            }),
        ],
{
    reveal_strlit(" = ");
    reveal_strlit("=");
    reveal_strlit("const ");
    reveal_strlit("let ");
    reveal_strlit("var ");
    assert(CharSet::One(';').has(semicolons.last()));
    let rest = seq![' '] + v + gap + semicolons;
    let before = keyword + name + seq![' '];
    let tail = seq![' '] + "="@ + rest;
    let s = keyword + (name + tail);
    assert(s[0] == keyword[0] && s.last() == semicolons.last());
    let whole = keyword + name + " = "@ + v + gap + semicolons + space + ";"@;
    assert(whole =~= s + space + ";"@);
    assert(statement(whole) == s) by {
        lemma_statement_before_semicolon(s, space);
    }
    assert(declared_name(s) == Some(name) && !"import "@.is_prefix_of(s)
        && !"export default"@.is_prefix_of(s) && significant(s)) by {
        assert(tail[0] == ' ');
        lemma_declaration(keyword, name, tail);
    }
    assert(value_after(s, "="@, ';') == seq![v]) by {
        assert forall|i: int| 0 <= i < before.len() implies !CharSet::One('=').has(
            #[trigger] before[i],
        ) by {
            if i < keyword.len() {
                assert(before[i] == keyword[i]);
            } else if i < keyword.len() + name.len() {
                assert(before[i] == name[i - keyword.len()]);
                lemma_name_chars(name, i - keyword.len());
            }
        }
        lemma_value_before(before, "="@, v, gap, semicolons, ';');
        assert(before + "="@ + rest =~= s);
    }
    lemma_one_line(whole, line);
}

proof fn lemma_statement_before_semicolon(s: Seq<char>, space: Seq<char>)
    requires
        text::bare_of(s, CharSet::Space),
        text::all_in(space, CharSet::Space),
        space.len() > 0 || s.last() != ';',
    ensures
        statement(s + space + ";"@) == s,
{
    reveal_strlit(";");
    let none = Seq::<char>::empty();
    let r = s + space;
    let m = r + ";"@;
    assert(m[0] == s[0] && m.last() == ';');
    if space.len() > 0 {
        assert(r.last() == space.last());
        assert(CharSet::Space.has(space.last()));
    } else {
        assert(r.last() == s.last());
    }
    text::law_trim(none, m, none, CharSet::Space);
    text::law_trim_end(m, none, CharSet::One(','));
    assert(m + none =~= m);
    text::law_trim_end(r, ";"@, CharSet::One(';'));
    text::law_trim(none, s, space, CharSet::Space);
    assert(none + s + space =~= r);
}

proof fn lemma_value_before(
    before: Seq<char>,
    sep: Seq<char>,
    v: Seq<char>,
    gap: Seq<char>,
    ends: Seq<char>,
    end: char,
)
    requires
        sep.len() == 1,
        text::bare_of(v, CharSet::Space),
        v.last() != end,
        !text::white_space(end),
        text::all_in(gap, CharSet::Space),
        text::all_in(ends, CharSet::One(end)),
        ends.len() > 0,
    ensures
        text::none_in(before, CharSet::One(sep[0])) ==> value_after(
            before + sep + (seq![' '] + v + gap + ends),
            sep,
            end,
        ) == seq![v],
{
    if text::none_in(before, CharSet::One(sep[0])) {
        let none = Seq::<char>::empty();
        let rest = seq![' '] + v + gap + ends;
        text::law_split_gives_the_parts(before, sep, rest);
        let r = v + gap;
        let m = r + ends;
        assert(m[0] == v[0] && m.last() == ends.last());
        assert(CharSet::One(end).has(ends.last()));
        text::law_trim(seq![' '], m, none, CharSet::Space);
        assert(seq![' '] + m + none =~= rest);
        if gap.len() > 0 {
            assert(r.last() == gap.last());
            assert(CharSet::Space.has(gap.last()));
        } else {
            assert(r.last() == v.last());
        }
        text::law_trim_end(r, ends, CharSet::One(end));
        text::law_trim(none, v, gap, CharSet::Space);
        assert(none + v + gap =~= r);
    }
}

proof fn lemma_property_with_commas(
    name: Seq<char>,
    v: Seq<char>,
    gap: Seq<char>,
    commas: Seq<char>,
    line: int,
)
    requires
        identifier_like(name),
        bare_statement(v),
        text::all_in(gap, CharSet::Space),
        text::all_in(commas, CharSet::One(',')),
        commas.len() > 0,
    ensures
        script_items(seq![name + ": "@ + v + gap + commas + ";"@], line) == seq![
            (node::Item {
                node_type: "property"@,
                label: name,
                line,
                detail_type: "property_value"@,
                details: seq![v],
            }),
        ],
{
    reveal_strlit(": ");
    reveal_strlit(":");
    reveal_strlit(";");
    let none = Seq::<char>::empty();
    let rest = seq![' '] + v + gap + commas;
    let t = name + ":"@ + rest;
    let whole = name + ": "@ + v + gap + commas + ";"@;
    assert(whole =~= t + none + ";"@);
    assert(CharSet::One(',').has(commas.last()));
    lemma_name_chars(name, 0);
    assert(t[0] == name[0] && t.last() == commas.last());
    lemma_statement_before_semicolon(t, none);
    lemma_one_line(whole, line);
    assert(t =~= name + (":"@ + rest));
    assert((":"@ + rest)[0] == ':');
    lemma_name_has_no_keyword(name, ":"@ + rest);
    assert forall|j: int| 0 <= j <= name.len() implies #[trigger] t[j] != '(' by {
        if j < name.len() {
            assert(t[j] == name[j]);
            lemma_name_chars(name, j);
        }
    }
    assert(t[name.len() as int] == ':');
    lemma_no_function(t, name.len() as int);
    assert forall|i: int| 0 <= i < name.len() implies !CharSet::One(':').has(
        #[trigger] name[i],
    ) by {
        lemma_name_chars(name, i);
    }
    text::law_split_gives_the_parts(name, ":"@, rest);
    lemma_name_is_trimmed(name);
    lemma_value_before(name, ":"@, v, gap, commas, ',');
}

/// What `function` declares is a name, or nothing is: a text behind it that ends
/// where a name would and is none declares nothing.
pub proof fn law_only_names_follow_function(x: Seq<char>, tail: Seq<char>, line: int)
    requires
        !identifier_like(x),
        forall|i: int| 0 <= i < x.len() ==> !text::white_space(#[trigger] x[i]) && x[i] != '(',
        tail.len() > 0 ==> text::white_space(tail[0]) || tail[0] == '(',
        bare_statement("function "@ + (x + tail)),
        text::stands_nowhere("function "@ + (x + tail), "()"@),
        text::none_in("function "@ + (x + tail), CharSet::One(':')),
        text::none_in("function "@ + (x + tail), CharSet::One('=')),
    ensures
        script_items(seq!["function "@ + (x + tail)], line) == Seq::<node::Item>::empty(),
{
    reveal_strlit("import ");
    reveal_strlit("export default");
    reveal_strlit("const ");
    reveal_strlit("let ");
    reveal_strlit("var ");
    reveal_strlit("function ");
    reveal_strlit(":");
    let s = "function "@ + (x + tail);
    assert(s[0] == 'f');
    lemma_no_keyword(s, "import "@, 0);
    lemma_no_keyword(s, "export default"@, 0);
    lemma_no_keyword(s, "const "@, 0);
    lemma_no_keyword(s, "let "@, 0);
    lemma_no_keyword(s, "var "@, 0);
    lemma_bare_statement(s);
    lemma_one_line(s, line);
    text::law_affixes_come_off("function "@, x + tail);
    text::lemma_first_in_concat(x, tail, CharSet::FunctionNameEnd);
    assert(text::first_in(tail, CharSet::FunctionNameEnd) == 0);
    assert((x + tail).take(x.len() as int) =~= x);
    text::law_pattern_is_missing(s, "()"@);
    text::law_no_split_without_the_pattern(s, ":"@);
    lemma_without_assignment(s);
}

/// The text of a script holds what its first line holds, then what the text behind
/// the line feed holds, one line further down.
pub proof fn law_script_text(x: Seq<char>, rest: Seq<char>, start_line: int)
    requires
        pieces::single_line(x),
        x.len() == 0 || x.last() != '\r',
    ensures
        script_items(pieces::line_seq(x + seq!['\n'] + rest), start_line) == script_items(
            seq![x],
            start_line,
        ) + script_items(pieces::line_seq(rest), start_line + 1),
{
    pieces::law_lines_of_parts(x, rest);
    law_script_parts(seq![x], pieces::line_seq(rest), start_line);
}

/// A statement without keyword that names neither a function nor a property, and
/// that has an operator that assigns, holds the text before the operator, whole.
pub proof fn law_any_assignment(
    target: Seq<char>,
    gap: Seq<char>,
    op: Seq<char>,
    v: Seq<char>,
    line: int,
)
    requires
        assigns(op),
        text::bare_of(target, CharSet::Space),
        text::all_in(gap, CharSet::Space),
        !other_statement(target),
        text::stands_first_behind(target + gap, op),
        no_operator_before(target + gap + op + v, op),
        without_keyword(target + gap + op + v),
        declared_function(target + gap + op + v) is None,
        declared_property(target + gap + op + v) is None,
        bare_statement(target + gap + op + v),
    ensures
        script_items(seq![target + gap + op + v], line) == seq![
            (node::Item {
                node_type: "assignment_statement"@,
                label: target,
                line,
                detail_type: ""@,
                details: seq![],
            }),
        ],
{
    reveal_strlit("{");
    reveal_strlit("}");
    reveal_strlit("=");
    reveal_strlit("+=");
    reveal_strlit("-=");
    reveal_strlit("*=");
    reveal_strlit("/=");
    let s = target + gap + op + v;
    assert(s.len() > 1);
    lemma_bare_statement(s);
    lemma_one_line(s, line);
    law_assigned_target(target, gap, op, v);
    assert(declared_name(s) is None);
}

} // verus!
