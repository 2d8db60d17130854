use vue_parser::component::{process_impl, sfc_block_to_node};
use vue_parser::blocks::extract_blocks;
use vue_parser::hash::content_hash;
use vue_parser::node::{child_id, make_leaf, SemanticNode};
use vue_parser::script::{
    assignment_label, declaration_name, extract_script_children, function_name,
    is_identifier_like, normalize_statement, property_name,
};
use vue_parser::style::extract_style_children;
use vue_parser::template::{extract_mustache_labels, extract_template_children};

fn shape(nodes: &Vec<SemanticNode>) -> Vec<(String, String, String, u32)> {
    let mut out = Vec::new();
    for n in nodes {
        out.push((n.id.clone(), n.node_type.clone(), n.label.clone(), n.start_line));
        out.extend(shape(&n.children));
    }
    out
}

fn row(id: &str, node_type: &str, label: &str, line: u32) -> (String, String, String, u32) {
    (id.to_string(), node_type.to_string(), label.to_string(), line)
}

#[test]
fn leaves() {
    let leaf = make_leaf("0.1", "attribute", "a=b".to_string(), 7);
    assert_eq!(leaf.id, "0.1");
    assert_eq!(leaf.node_type, "attribute");
    assert_eq!(leaf.label, "a=b");
    assert_eq!((leaf.start_line, leaf.start_col, leaf.end_line, leaf.end_col), (7, 0, 7, 0));
    assert_eq!(leaf.content_hash, "");
    assert!(leaf.children.is_empty());
    assert_eq!(child_id("0.1", 12), "0.1.12");
}

#[test]
fn mustache_labels() {
    assert_eq!(extract_mustache_labels("<p>{{ a }} and {{b}}</p>"), vec!["a", "b"]);
    assert_eq!(extract_mustache_labels("{{ }}{{x"), Vec::<String>::new());
    assert_eq!(extract_mustache_labels("{{{ a }}}"), vec!["{ a"]);
    assert_eq!(extract_mustache_labels("}} {{ y }}"), vec!["y"]);
}

#[test]
fn template_children() {
    let nodes = extract_template_children(
        "<div class=\"a\" v-if=\"ok\">\n  {{ x }}<br/>{{ y }}</div>\n<unfinished",
        3,
        "0.0",
    );
    assert_eq!(
        shape(&nodes),
        vec![
            row("0.0.0", "element", "div", 3),
            row("0.0.0.0", "attribute", "class=a", 3),
            row("0.0.0.1", "attribute", "v-if=ok", 3),
            row("0.0.1", "element", "br", 4),
            row("0.0.2", "interpolation", "x", 4),
            row("0.0.3", "interpolation", "y", 4),
        ]
    );
}

#[test]
fn identifiers() {
    assert!(is_identifier_like("a"));
    assert!(is_identifier_like("_x-1$"));
    assert!(is_identifier_like("$"));
    assert!(!is_identifier_like(""));
    assert!(!is_identifier_like("1a"));
    assert!(!is_identifier_like("-a"));
    assert!(!is_identifier_like("a b"));
    assert!(!is_identifier_like("é"));
}

#[test]
fn statements_are_normalised() {
    assert_eq!(normalize_statement("  a = 1 ; "), "a = 1");
    assert_eq!(normalize_statement("a;,"), "a");
    assert_eq!(normalize_statement("a,;"), "a,");
    assert_eq!(normalize_statement("},"), "}");
    assert_eq!(normalize_statement(" ;; "), "");
}

#[test]
fn names() {
    assert_eq!(declaration_name("const x = 1"), Some("x"));
    assert_eq!(declaration_name("let y: number"), Some("y"));
    assert_eq!(declaration_name("var z"), Some("z"));
    assert_eq!(declaration_name("const { a } = b"), None);
    assert_eq!(declaration_name("constant x"), None);
    assert_eq!(function_name("function go(a) {"), Some("go"));
    assert_eq!(function_name("data() {"), Some("data"));
    assert_eq!(function_name("function (x) {"), None);
    assert_eq!(function_name("this.go()"), None);
    assert_eq!(function_name("go(a)"), None);
    assert_eq!(property_name("greeting: 'Hello'"), Some("greeting"));
    assert_eq!(property_name("\"my-key\" : 1"), Some("my-key"));
    assert_eq!(property_name("a b: 1"), None);
    assert_eq!(property_name("no colon"), None);
}

#[test]
fn assignments() {
    assert_eq!(assignment_label("this.x = 1"), Some("this.x".to_string()));
    assert_eq!(assignment_label("n += 2"), Some("n".to_string()));
    assert_eq!(assignment_label("a = b += c"), Some("a = b".to_string()));
    assert_eq!(assignment_label("return x = 1"), None);
    assert_eq!(assignment_label("const [a] = b"), None);
    assert_eq!(assignment_label("= 1"), None);
    assert_eq!(assignment_label("go"), None);
}

#[test]
fn script_children() {
    let source = "import x from 'y';\nexport default {\n  data() {\n    return {\n      names: ['a'],\n      current: 0\n    }\n  },\n  let n = 1;\n  this.n = 2;\n  go(1)\n}";
    let nodes = extract_script_children(source, 5, "0.1");
    assert_eq!(
        shape(&nodes),
        vec![
            row("0.1.0", "import_statement", "import x from 'y'", 5),
            row("0.1.1", "export_default", "export default", 6),
            row("0.1.2", "method_declaration", "data", 7),
            row("0.1.3", "property", "names", 9),
            row("0.1.3.0", "property_value", "['a']", 9),
            row("0.1.4", "property", "current", 10),
            row("0.1.4.0", "property_value", "0", 10),
            row("0.1.5", "variable_declaration", "n", 13),
            row("0.1.5.0", "declaration_value", "1", 13),
            row("0.1.6", "assignment_statement", "this.n", 14),
        ]
    );
}

#[test]
fn value_edits_show() {
    let before = extract_script_children("let count = 0", 1, "0.0");
    let after = extract_script_children("let count = 1", 1, "0.0");
    assert_ne!(shape(&before), shape(&after));
    let before = extract_script_children("current: 0,", 1, "0.0");
    let after = extract_script_children("current: 1,", 1, "0.0");
    assert_ne!(shape(&before), shape(&after));
    let none = extract_script_children("let count", 1, "0.0");
    assert!(none[0].children.is_empty());
}

#[test]
fn lines_past_the_last_number_may_be_blank() {
    let nodes = extract_script_children("let a = 1\n\n}\n", u32::MAX, "0.0");
    assert_eq!(nodes.len(), 1);
    assert_eq!(nodes[0].start_line, u32::MAX);
    let nodes = extract_style_children("a {\n}\n\n", u32::MAX, "0.0");
    assert_eq!(nodes.len(), 1);
}

#[test]
fn style_children() {
    let nodes = extract_style_children(".btn {\n  color: red;\n}\n{\n.a { b: c }\n: x\n@import", 2, "0.2");
    assert_eq!(
        shape(&nodes),
        vec![
            row("0.2.0", "style_rule", ".btn", 2),
            row("0.2.1", "style_declaration", "color", 3),
            row("0.2.2", "style_declaration", ".a { b", 6),
        ]
    );
}

#[test]
fn component_trees() {
    let src = "<template><div>Hello</div></template>\n<script setup lang=\"ts\">\nconst x = 1;\n</script>\n<style scoped>\n.btn { color: red; }\n</style>";
    let root = process_impl(src, "src/views\\Home.vue");
    assert_eq!(root.id, "0");
    assert_eq!(root.node_type, "vue_component");
    assert_eq!(root.label, "Home");
    assert_eq!((root.start_line, root.end_line), (0, 6));
    assert_eq!(root.content_hash, "74f44444046cfc73");
    let ids: Vec<String> = root.children.iter().map(|c| c.id.clone()).collect();
    assert_eq!(ids, vec!["0.0", "0.1", "0.2"]);
    assert!(root.children[0].children.is_empty());
    assert_eq!(root.children[1].label, "script:setup:ts");
    assert_eq!(root.children[1].content_hash, "cfd132a9f1cfc34d");
    assert_eq!(root.children[1].children[0].id, "0.1.0");
    assert_eq!(root.children[1].children[0].children[0].label, "1");
    assert_eq!(root.children[2].content_hash, content_hash(".btn { color: red; }"));
    for block in &root.children {
        for child in &block.children {
            assert!(block.start_line < child.start_line && child.start_line < block.end_line);
        }
    }
}

#[test]
fn component_names() {
    assert_eq!(process_impl("", "Component.vue").label, "Component");
    assert_eq!(process_impl("", "noextension").label, "component");
    assert_eq!(process_impl("", "a.b/noextension").label, "component");
    assert_eq!(process_impl("", "a.b.vue").label, "a.b");
    assert_eq!(process_impl("", "src/App.story.vue").label, "App.story");
    assert_eq!(process_impl("", "d.e\\App.vue").label, "App");
    assert_eq!(process_impl("", ".vue").label, "");
    assert_eq!(process_impl("", "").label, "component");
}

#[test]
fn empty_component() {
    let root = process_impl("", "A.vue");
    assert_eq!((root.start_line, root.end_line), (0, 0));
    assert!(root.children.is_empty());
    assert_eq!(root.content_hash, "0000000000001505");
}

#[test]
fn custom_blocks_have_no_children() {
    let blocks = extract_blocks("<docs>\n<p>{{ x }}</p>\nlet a = 1\n</docs>");
    let node = sfc_block_to_node(&blocks[0], "0.0");
    assert_eq!(node.node_type, "custom_block");
    assert_eq!(node.label, "docs");
    assert!(node.children.is_empty());
}

#[test]
fn line_endings_do_not_matter() {
    let lf = "<script>\nlet a = 1\n</script>\n<style>\n.a {\n}\n</style>\n";
    let crlf = lf.replace('\n', "\r\n");
    let a = process_impl(lf, "A.vue");
    let b = process_impl(&crlf, "A.vue");
    assert_eq!(a.content_hash, b.content_hash);
    assert_eq!(shape(&a.children), shape(&b.children));
}

#[test]
fn ids_are_unique() {
    let example = vue_parser::plugin::VueParser::example("vue".to_string());
    let root = process_impl(&example.new, "Component.vue");
    let mut ids: Vec<String> = shape(&root.children).into_iter().map(|row| row.0).collect();
    ids.push(root.id.clone());
    let count = ids.len();
    ids.sort();
    ids.dedup();
    assert_eq!(ids.len(), count);
    assert!(count > 10);
}

#[test]
fn tag_lines_lie_in_blocks() {
    let source = "<a>\n<b>\n</a>\nx\n<c></c>\n  <d>\n";
    let blocks = extract_blocks(source);
    for (i, line) in source.lines().enumerate() {
        if vue_parser::tags::parse_tag_open(line).is_some() {
            let i = i as u32;
            assert!(blocks.iter().any(|b| b.start_line <= i && i <= b.end_line));
        }
    }
    assert_eq!(blocks.len(), 3);
}

#[test]
fn children_have_the_types_of_their_block() {
    let example = vue_parser::plugin::VueParser::example("vue".to_string());
    let root = process_impl(&example.new, "Component.vue");
    for child in &root.children[0].children {
        assert!(child.node_type == "element" || child.node_type == "interpolation");
    }
    let types: Vec<&str> =
        root.children[1].children.iter().map(|c| c.node_type.as_str()).collect();
    assert_eq!(
        types,
        vec![
            "export_default",
            "method_declaration",
            "property",
            "property",
            "property",
            "property",
            "method_declaration",
            "assignment_statement",
            "assignment_statement",
        ]
    );
}
