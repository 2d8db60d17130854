//! The semantic tree of a single-file component.

use crate::blocks;
use crate::blocks::SfcBlock;
use crate::hash;
use crate::node;
use crate::node::SemanticNode;
use crate::pieces;
use crate::script;
use crate::style;
use crate::tags;
use crate::template;
use crate::text;
use crate::text::CharSet;
use vstd::prelude::*;

verus! {

broadcast use vstd::string::group_string_axioms;

// ---------------------------------------------------------------------------
// Blocks
// ---------------------------------------------------------------------------

/// What a block holds, by its type. A custom block is not looked into.
pub open spec fn block_items(block: blocks::BlockView) -> Seq<node::Item> {
    let lines = pieces::line_seq(block.content);
    if block.node_type == "template_block"@ {
        template::template_items(lines, block.content_start_line)
    } else if block.node_type == "script_block"@ {
        script::script_items(lines, block.content_start_line)
    } else if block.node_type == "style_block"@ {
        style::style_items(lines, block.content_start_line)
    } else {
        seq![]
    }
}

/// The node for a block.
pub open spec fn block_node(block: blocks::BlockView, id: Seq<char>) -> node::NodeView {
    node::NodeView {
        id,
        node_type: block.node_type,
        label: block.label,
        start_line: block.start_line,
        start_col: 0,
        end_line: block.end_line,
        end_col: 0,
        content_hash: block.content_hash,
        children: node::item_nodes(block_items(block), id),
    }
}

/// Whether the number of every line in a block that is looked at fits into 32
/// bits.
pub open spec fn lines_fit(block: blocks::BlockView) -> bool {
    let lines = pieces::line_seq(block.content);
    if block.node_type == "template_block"@ {
        block.content_start_line + lines.len() <= u32::MAX + 1
    } else if block.node_type == "script_block"@ {
        script::line_numbers_fit(lines, block.content_start_line)
    } else if block.node_type == "style_block"@ {
        style::line_numbers_fit(lines, block.content_start_line)
    } else {
        true
    }
}

/// The node for a block.
pub fn sfc_block_to_node(block: &SfcBlock, id: &str) -> (r: SemanticNode)
    requires
        lines_fit(block@),
    ensures
        r@ == block_node(block@, id@),
{
    let content = block.content.as_str();
    let start = block.content_start_line;
    let children = if text::same_text(block.node_type, "template_block") {
        template::extract_template_children(content, start, id)
    } else if text::same_text(block.node_type, "script_block") {
        script::extract_script_children(content, start, id)
    } else if text::same_text(block.node_type, "style_block") {
        style::extract_style_children(content, start, id)
    } else {
        Vec::new()
    };
    let ghost views = children.deep_view();
    assert(views =~= node::item_nodes(block_items(block@), id@));
    let r = SemanticNode {
        id: id.to_string(),
        node_type: block.node_type.to_string(),
        label: block.label.clone(),
        start_line: block.start_line,
        start_col: 0,
        end_line: block.end_line,
        end_col: 0,
        content_hash: block.content_hash.clone(),
        children,
    };
    assert(r@.children =~= views);
    r
}

// ---------------------------------------------------------------------------
// Components
// ---------------------------------------------------------------------------

/// What follows the last `/` or `\` of a path.
pub open spec fn file_name(path: Seq<char>) -> Seq<char> {
    path.skip(path.len() - text::after_last_in(path, CharSet::PathSeparator))
}

/// The name of a component: the stem of its file name, that is what precedes the
/// last `.`. A file name without `.` gives the name `component`.
pub open spec fn component_name(path: Seq<char>) -> Seq<char> {
    let name = file_name(path);
    let extension = text::after_last_in(name, CharSet::One('.'));
    if extension == name.len() {
        "component"@
    } else {
        name.take(name.len() - extension - 1)
    }
}

/// The hash of a component: the hash of its blocks' hashes, with `|` between
/// them.
pub open spec fn component_hash(found: Seq<blocks::BlockView>) -> Seq<char> {
    hash::hash_text(
        pieces::joined(found.map_values(|b: blocks::BlockView| b.content_hash), "|"@),
    )
}

/// The root node for a component with the given blocks and number of lines.
pub open spec fn root_node(
    found: Seq<blocks::BlockView>,
    line_count: nat,
    path: Seq<char>,
) -> node::NodeView {
    node::NodeView {
        id: "0"@,
        node_type: "vue_component"@,
        label: component_name(path),
        start_line: 0,
        start_col: 0,
        end_line: if line_count == 0 {
            0
        } else {
            line_count - 1
        },
        end_col: 0,
        content_hash: component_hash(found),
        children: Seq::new(
            found.len(),
            |i: int| block_node(found[i], node::id_under("0"@, i as nat)),
        ),
    }
}

/// The semantic tree of a component.
pub open spec fn component_node(source: Seq<char>, path: Seq<char>) -> node::NodeView {
    root_node(blocks::source_blocks(source), pieces::line_seq(source).len(), path)
}

/// The name of the component in the file `filename`.
fn find_component_name(filename: &str) -> (r: String)
    ensures
        r@ == component_name(filename@),
{
    let tail = text::find_back_in(filename, CharSet::PathSeparator);
    let name = text::skip(filename, filename.unicode_len() - tail);
    let extension = text::find_back_in(name, CharSet::One('.'));
    let n = name.unicode_len();
    if extension == n {
        return "component".to_string();
    }
    text::take(name, n - extension - 1).to_string()
}

/// The line numbers in the blocks of a source fit where those of the source do.
proof fn lemma_lines_fit(source: Seq<char>, k: int)
    requires
        pieces::line_seq(source).len() <= u32::MAX,
        0 <= k < blocks::source_blocks(source).len(),
    ensures
        lines_fit(blocks::source_blocks(source)[k]),
{
    blocks::law_blocks_are_opened(source, k);
    blocks::law_content_lines(source, k);
}

/// Parses the component `source`, kept in the file `filename`, into its
/// semantic tree.
pub fn process_impl(source: &str, filename: &str) -> (r: SemanticNode)
    requires
        pieces::line_seq(source@).len() <= u32::MAX,
    ensures
        r@ == component_node(source@, filename@),
{
    let found = blocks::extract_blocks(source);
    let ghost views = blocks::source_blocks(source@);
    let line_count = pieces::lines(source).len();
    let ghost root = component_node(source@, filename@);
    let mut children: Vec<SemanticNode> = Vec::new();
    let mut hashes: Vec<&str> = Vec::new();
    let mut i: usize = 0;
    while i < found.len()
        invariant
            found.deep_view() == views,
            views == blocks::source_blocks(source@),
            pieces::line_seq(source@).len() <= u32::MAX,
            i <= found@.len(),
            children@.len() == i,
            hashes@.len() == i,
            forall|j: int|
                0 <= j < i ==> (#[trigger] children@[j])@ == block_node(
                    views[j],
                    node::id_under("0"@, j as nat),
                ),
            forall|j: int| 0 <= j < i ==> (#[trigger] hashes@[j])@ == views[j].content_hash,
        decreases found@.len() - i,
    {
        assert(views[i as int] == found@[i as int]@);
        proof {
            lemma_lines_fit(source@, i as int);
        }
        let id = node::child_id("0", i);
        children.push(sfc_block_to_node(&found[i], id.as_str()));
        hashes.push(found[i].content_hash.as_str());
        i += 1;
    }
    let n = hashes.len();
    assert(hashes.deep_view().subrange(0, n as int) =~= views.map_values(
        |b: blocks::BlockView| b.content_hash,
    ));
    let combined = pieces::join(&hashes, 0, n, "|");
    let end_line = if line_count == 0 {
        0
    } else {
        (line_count - 1) as u32
    };
    let r = SemanticNode {
        id: "0".to_string(),
        node_type: "vue_component".to_string(),
        label: find_component_name(filename),
        start_line: 0,
        start_col: 0,
        end_line,
        end_col: 0,
        content_hash: hash::content_hash(combined.as_str()),
        children,
    };
    assert(line_count == pieces::line_seq(source@).len());
    assert(r@.children =~= root.children);
    r
}

/// The text that a host gets for a component: its serialised tree, or a report
/// of what kept it from being serialised.
pub open spec fn output_of(serialised: Result<Seq<char>, Seq<char>>) -> Seq<char> {
    match serialised {
        Ok(json) => json,
        Err(message) => "{\"error\":\"Serialisation error: "@ + message + "\"}"@,
    }
}

/// The text that a host gets for a component, from its serialised tree or the
/// message of the error that serialising it met.
pub fn process_output(serialised: Result<String, String>) -> (r: String)
    ensures
        r@ == output_of(
            match serialised {
                Ok(json) => Ok(json@),
                Err(message) => Err(message@),
            },
        ),
{
    match serialised {
        Ok(json) => json,
        Err(message) => {
            let mut r = "{\"error\":\"Serialisation error: ".to_string();
            r.append(message.as_str());
            r.append("\"}");
            r
        },
    }
}

// ---------------------------------------------------------------------------
// Laws
// ---------------------------------------------------------------------------

/// The items of a block lie strictly between its opening and its closing line.
proof fn lemma_items_inside(source: Seq<char>, k: int, m: int)
    requires
        0 <= k < blocks::source_blocks(source).len(),
        0 <= m < block_items(blocks::source_blocks(source)[k]).len(),
    ensures
        ({
            let b = blocks::source_blocks(source)[k];
            b.start_line < block_items(b)[m].line < b.end_line
        }),
{
    let b = blocks::source_blocks(source)[k];
    let lines = pieces::line_seq(b.content);
    blocks::law_blocks_are_opened(source, k);
    blocks::law_content_lines(source, k);
    if b.node_type == "template_block"@ {
        template::law_template_items(lines, b.content_start_line, m);
    } else if b.node_type == "script_block"@ {
        script::law_script_items(lines, b.content_start_line, m);
    } else if b.node_type == "style_block"@ {
        style::law_style_items(lines, b.content_start_line, m);
    }
}

/// The blocks of a component lie within it, what a block holds lies strictly
/// between its opening and its closing line, and details are on the line of what
/// they belong to.
pub proof fn law_lines_nest(source: Seq<char>, path: Seq<char>, k: int)
    requires
        0 <= k < component_node(source, path).children.len(),
    ensures
        ({
            let root = component_node(source, path);
            let block = root.children[k];
            &&& root.start_line <= block.start_line <= block.end_line <= root.end_line
            &&& forall|m: int|
                0 <= m < block.children.len() ==> block.start_line < (
                #[trigger] block.children[m]).start_line == block.children[m].end_line
                    < block.end_line
            &&& forall|m: int, j: int|
                0 <= m < block.children.len() && 0 <= j < block.children[m].children.len() ==> (
                #[trigger] block.children[m].children[j]).start_line
                    == block.children[m].start_line && block.children[m].children[j].end_line
                    == block.children[m].end_line
        }),
{
    blocks::law_blocks_are_opened(source, k);
    let b = blocks::source_blocks(source)[k];
    let block = component_node(source, path).children[k];
    assert forall|m: int| 0 <= m < block.children.len() implies block.start_line < (
    #[trigger] block.children[m]).start_line == block.children[m].end_line < block.end_line by {
        lemma_items_inside(source, k, m);
    }
}

/// The root is a `vue_component`. Each child is the block of the tag that its
/// first line opens: its type and label are those of the tag.
pub proof fn law_blocks_are_typed(source: Seq<char>, path: Seq<char>, k: int)
    requires
        0 <= k < component_node(source, path).children.len(),
    ensures
        component_node(source, path).node_type == "vue_component"@,
        ({
            let block = component_node(source, path).children[k];
            let line = pieces::line_seq(source)[block.start_line];
            &&& tags::opening_tag(line) matches Some(t)
            &&& block.node_type == blocks::block_type(t.0)
            &&& block.label == blocks::block_label(t.0, t.1)
        }),
{
    blocks::law_blocks_are_opened(source, k);
}

/// A block holds what its type says: a template elements and interpolations, a
/// script statements, a style rules and declarations, and a custom block
/// nothing.
pub proof fn law_children_are_typed(source: Seq<char>, path: Seq<char>, k: int, m: int)
    requires
        0 <= k < component_node(source, path).children.len(),
        0 <= m < component_node(source, path).children[k].children.len(),
    ensures
        ({
            let block = component_node(source, path).children[k];
            let found = block.children[m].node_type;
            ||| block.node_type == "template_block"@ && (found == "element"@ || found
                == "interpolation"@)
            ||| block.node_type == "script_block"@ && (found == "import_statement"@ || found
                == "export_default"@ || found == "variable_declaration"@ || found
                == "method_declaration"@ || found == "property"@ || found
                == "assignment_statement"@)
            ||| block.node_type == "style_block"@ && (found == "style_rule"@ || found
                == "style_declaration"@)
        }),
{
    let b = blocks::source_blocks(source)[k];
    let lines = pieces::line_seq(b.content);
    if b.node_type == "template_block"@ {
        template::law_template_items(lines, b.content_start_line, m);
    } else if b.node_type == "script_block"@ {
        script::law_script_items(lines, b.content_start_line, m);
    } else if b.node_type == "style_block"@ {
        style::law_style_items(lines, b.content_start_line, m);
    }
}

/// Every id in a tree is made of its parent's id and its place.
pub proof fn law_ids_follow_places(source: Seq<char>, path: Seq<char>)
    ensures
        node::ids_follow_places(component_node(source, path)),
{
    let root = component_node(source, path);
    assert forall|k: int| 0 <= k < root.children.len() implies (#[trigger] root.children[k]).id
        == node::id_under(root.id, k as nat) && node::ids_follow_places(root.children[k]) by {
        let block = root.children[k];
        assert forall|m: int| 0 <= m < block.children.len() implies (
        #[trigger] block.children[m]).id == node::id_under(block.id, m as nat)
            && node::ids_follow_places(block.children[m]) by {
            let item = block.children[m];
            assert forall|j: int| 0 <= j < item.children.len() implies (
            #[trigger] item.children[j]).id == node::id_under(item.id, j as nat)
                && node::ids_follow_places(item.children[j]) by {}
        }
    }
}

/// The name of a component has no path separator.
pub proof fn law_component_name_has_no_separator(path: Seq<char>, i: int)
    requires
        0 <= i < component_name(path).len(),
    ensures
        component_name(path)[i] != '/',
        component_name(path)[i] != '\\',
{
    reveal_strlit("component");
    let name = file_name(path);
    text::lemma_after_last_in(path, CharSet::PathSeparator);
    let cut = path.len() - text::after_last_in(path, CharSet::PathSeparator);
    text::lemma_after_last_in(name, CharSet::One('.'));
    if text::after_last_in(name, CharSet::One('.')) != name.len() {
        assert(component_name(path)[i] == path[cut + i]);
        assert(!CharSet::PathSeparator.has(path[cut + i]));
    } else {
        assert("component"@.len() == 9);
        assert(i == 0 || i == 1 || i == 2 || i == 3 || i == 4 || i == 5 || i == 6 || i == 7 || i
            == 8);
    }
}

/// The directories in front of a file name make no difference to the tree,
/// whichever separator follows them.
pub proof fn law_directories_do_not_matter(source: Seq<char>, d: Seq<char>, f: Seq<char>)
    ensures
        component_name(d + "/"@ + f) == component_name(f),
        component_name(d + "\\"@ + f) == component_name(f),
        component_node(source, d + "/"@ + f) == component_node(source, f),
        component_node(source, d + "\\"@ + f) == component_node(source, f),
{
    reveal_strlit("/");
    reveal_strlit("\\");
    lemma_file_name(d, '/', f);
    lemma_file_name(d, '\\', f);
    assert(d + "/"@ =~= d.push('/'));
    assert(d + "\\"@ =~= d.push('\\'));
}

proof fn lemma_file_name(d: Seq<char>, separator: char, f: Seq<char>)
    requires
        CharSet::PathSeparator.has(separator),
    ensures
        file_name(d.push(separator) + f) == file_name(f),
{
    let head = d.push(separator);
    text::lemma_after_last_in_concat(head, f, CharSet::PathSeparator);
    text::lemma_after_last_in(f, CharSet::PathSeparator);
    let n = text::after_last_in(f, CharSet::PathSeparator);
    assert((head + f).skip((head + f).len() - n) =~= f.skip(f.len() - n));
}

/// No two nodes of a tree have the same id.
pub proof fn law_ids_are_unique(source: Seq<char>, path: Seq<char>, a: Seq<nat>, b: Seq<nat>)
    requires
        node::reaches(component_node(source, path), a),
        node::reaches(component_node(source, path), b),
        node::node_at(component_node(source, path), a).id == node::node_at(
            component_node(source, path),
            b,
        ).id,
    ensures
        a == b,
{
    let root = component_node(source, path);
    reveal_strlit("0");
    law_ids_follow_places(source, path);
    node::law_id_of_address(root, a);
    node::law_id_of_address(root, b);
    node::law_addresses_have_own_ids(root.id, a, b);
}

/// Whether lines end with a line feed or with a carriage return and a line feed
/// makes no difference to the tree, wherever no carriage return precedes a line
/// feed before.
pub proof fn law_line_endings_do_not_matter(source: Seq<char>, path: Seq<char>)
    requires
        pieces::no_return_before_feed(source),
    ensures
        component_node(pieces::with_returns(source), path) == component_node(source, path),
{
    pieces::lemma_lines_with_returns(source);
}

/// The root begins in the first line of the source and ends in its last one. It
/// has one child for each block, with the block's lines, type, label and hash,
/// and its hash is that of its children's hashes with `|` between them.
pub proof fn law_root_shows_blocks(source: Seq<char>, path: Seq<char>)
    ensures
        ({
            let root = component_node(source, path);
            let found = blocks::source_blocks(source);
            let n = pieces::line_seq(source).len();
            &&& root.id == "0"@
            &&& root.node_type == "vue_component"@
            &&& root.label == component_name(path)
            &&& root.start_line == 0
            &&& root.end_line == (if n == 0 {
                0
            } else {
                n - 1
            })
            &&& root.start_col == 0
            &&& root.end_col == 0
            &&& root.children.len() == found.len()
            &&& root.content_hash == hash::hash_text(
                pieces::joined(
                    Seq::new(root.children.len(), |k: int| root.children[k].content_hash),
                    "|"@,
                ),
            )
            &&& forall|k: int|
                0 <= k < found.len() ==> {
                    &&& (#[trigger] root.children[k]).node_type == found[k].node_type
                    &&& root.children[k].label == found[k].label
                    &&& root.children[k].start_line == found[k].start_line
                    &&& root.children[k].end_line == found[k].end_line
                    &&& root.children[k].start_col == 0
                    &&& root.children[k].end_col == 0
                    &&& root.children[k].content_hash == hash::hash_text(found[k].content)
                }
        }),
{
    let root = component_node(source, path);
    let found = blocks::source_blocks(source);
    assert forall|k: int| 0 <= k < found.len() implies (
    #[trigger] root.children[k]).content_hash == hash::hash_text(found[k].content) by {
        blocks::law_block_fields(source, k);
    }
    assert(Seq::new(root.children.len(), |k: int| root.children[k].content_hash)
        =~= found.map_values(|b: blocks::BlockView| b.content_hash));
}

/// The children of a block are what the lines of its content hold, read as its
/// type says, each on its line of the source.
pub proof fn law_block_shows_items(source: Seq<char>, path: Seq<char>, k: int)
    requires
        0 <= k < component_node(source, path).children.len(),
    ensures
        ({
            let block = component_node(source, path).children[k];
            let lines = pieces::line_seq(blocks::source_blocks(source)[k].content);
            let first = block.start_line + 1;
            &&& block.node_type == "template_block"@ ==> block.children == node::item_nodes(
                template::template_items(lines, first),
                block.id,
            )
            &&& block.node_type == "script_block"@ ==> block.children == node::item_nodes(
                script::script_items(lines, first),
                block.id,
            )
            &&& block.node_type == "style_block"@ ==> block.children == node::item_nodes(
                style::style_items(lines, first),
                block.id,
            )
            &&& block.node_type == "custom_block"@ ==> block.children.len() == 0
        }),
{
    reveal_strlit("template_block");
    reveal_strlit("script_block");
    reveal_strlit("style_block");
    reveal_strlit("custom_block");
    assert("template_block"@[0] == 't' && "custom_block"@[0] == 'c');
    assert("script_block"@[1] == 'c' && "style_block"@[1] == 't');
    assert("script_block"@[0] == 's' && "style_block"@[0] == 's');
    blocks::law_block_fields(source, k);
}

/// A component is named by its file's name without the last extension, whole. A
/// file name without `.` gives the name `component`.
pub proof fn law_component_is_named_by_its_file(stem: Seq<char>, extension: Seq<char>)
    requires
        forall|i: int| 0 <= i < stem.len() ==> #[trigger] stem[i] != '/' && stem[i] != '\\',
        forall|i: int|
            0 <= i < extension.len() ==> #[trigger] extension[i] != '/' && extension[i] != '\\'
                && extension[i] != '.',
    ensures
        component_name(stem + "."@ + extension) == stem,
        component_name(extension) == "component"@,
{
    reveal_strlit(".");
    let path = stem.push('.') + extension;
    assert(stem + "."@ + extension =~= path);
    assert forall|i: int| 0 <= i < path.len() implies !CharSet::PathSeparator.has(
        #[trigger] path[i],
    ) by {
        if i < stem.len() {
            assert(path[i] == stem[i]);
        } else if i > stem.len() {
            assert(path[i] == extension[i - stem.len() - 1]);
        }
    }
    text::law_last_is_found(seq![], '/', path, CharSet::PathSeparator);
    assert(file_name(path) =~= path);
    text::law_last_is_found(stem, '.', extension, CharSet::One('.'));
    assert(path.take(stem.len() as int) =~= stem);
    text::law_last_is_found(seq![], '/', extension, CharSet::PathSeparator);
    assert(file_name(extension) =~= extension);
}

/// A serialised tree is handed on as it is. The message of an error is handed on
/// whole, as the value of `error`.
pub proof fn law_output(message: Seq<char>)
    ensures
        output_of(Ok(message)) == message,
        output_of(Err(message)).len() == message.len() + 33,
        output_of(Err(message)).subrange(31, message.len() as int + 31) == message,
        output_of(Err(message)).take(31) == "{\"error\":\"Serialisation error: "@,
        output_of(Err(message)).skip(message.len() as int + 31) == "\"}"@,
{
    reveal_strlit("{\"error\":\"Serialisation error: ");
    reveal_strlit("\"}");
    let r = output_of(Err(message));
    assert(r.subrange(31, message.len() as int + 31) =~= message);
    assert(r.take(31) =~= "{\"error\":\"Serialisation error: "@);
    assert(r.skip(message.len() as int + 31) =~= "\"}"@);
}

} // verus!
