use vue_parser::blocks::extract_blocks;
use vue_parser::hash::content_hash;
use vue_parser::tags::{
    attr_contains, attr_lang, build_label, parse_attr_labels, parse_tag_open, parse_tag_segment,
};

fn pair(a: &str, b: &str) -> Option<(String, String)> {
    Some((a.to_string(), b.to_string()))
}

#[test]
fn hashes() {
    assert_eq!(content_hash(""), "0000000000001505");
    assert_eq!(content_hash("a"), "000000000002b606");
    assert_eq!(content_hash("héllo"), "00000653089eb640");
    assert_eq!(
        content_hash("The quick brown fox jumps over the lazy dog"),
        "36d23eef34cc38de"
    );
    let h = content_hash("anything");
    assert_eq!(h.len(), 16);
    assert!(h.chars().all(|c| c.is_ascii_digit() || ('a'..='f').contains(&c)));
}

#[test]
fn opening_tags() {
    assert_eq!(parse_tag_open("<template>"), pair("template", ""));
    assert_eq!(parse_tag_open("  <Script setup lang=\"ts\">"), pair("script", "setup lang=\"ts\""));
    assert_eq!(parse_tag_open("<docs/>"), pair("docs", "/"));
    assert_eq!(parse_tag_open("<a>>"), pair("a", ""));
    assert_eq!(parse_tag_open("<a><b>x"), pair("a", ""));
    assert_eq!(parse_tag_open("<script setup>const a = 1"), pair("script", "setup"));
    assert_eq!(
        parse_tag_open("<script setup generic=\"T<U>\" lang=\"ts\">x>"),
        pair("script", "setup generic=\"T<U>\" lang=\"ts\"")
    );
    assert_eq!(parse_tag_open("<a b='\">' c>d"), pair("a", "b='\">' c"));
    assert_eq!(parse_tag_open("<a b=\"c>>"), pair("a", "b=\"c"));
    assert_eq!(parse_tag_open("<a b"), pair("a", "b"));
    assert_eq!(parse_tag_open("<script setup >"), pair("script", "setup "));
    assert_eq!(parse_tag_open("<script  >  "), pair("script", ""));
    assert_eq!(parse_tag_open("<ÀB C>"), pair("àb", "C"));
    assert_eq!(parse_tag_open("<ΑΣ>"), pair("ας", ""));
    assert_eq!(parse_tag_open("</template>"), None);
    assert_eq!(parse_tag_open("<!-- x -->"), None);
    assert_eq!(parse_tag_open("<"), None);
    assert_eq!(parse_tag_open("< a"), None);
    assert_eq!(parse_tag_open("x <a>"), None);
    assert_eq!(parse_tag_open(""), None);
}

#[test]
fn tag_segments() {
    assert_eq!(parse_tag_segment("Button @click=\"x\""), pair("button", "@click=\"x\""));
    assert_eq!(parse_tag_segment(" br / "), pair("br", ""));
    assert_eq!(parse_tag_segment("img a / b //"), pair("img", "a / b"));
    assert_eq!(parse_tag_segment("/div"), None);
    assert_eq!(parse_tag_segment("!-- c --"), None);
    assert_eq!(parse_tag_segment("   "), None);
    assert_eq!(parse_tag_segment(">x"), None);
}

#[test]
fn attributes_present() {
    assert!(attr_contains("setup lang=\"ts\"", "setup"));
    assert!(attr_contains("SETUP", "setup"));
    assert!(attr_contains("setup=\"x\"", "setup"));
    assert!(!attr_contains("setups", "setup"));
    assert!(!attr_contains("", "setup"));
    assert!(!attr_contains("setup", "SETUP"));
}

#[test]
fn languages() {
    assert_eq!(attr_lang("setup lang=\"TS\""), Some("ts".to_string()));
    assert_eq!(attr_lang("lang='scss' lang=\"less\""), Some("scss".to_string()));
    assert_eq!(attr_lang("lang="), Some("".to_string()));
    assert_eq!(attr_lang("language=x"), None);
    assert_eq!(attr_lang(""), None);
}

#[test]
fn labels() {
    assert_eq!(build_label("docs", ""), "docs");
    assert_eq!(build_label("style", "lang=\"scss\" scoped"), "style:scoped:scss");
    assert_eq!(build_label("x", "scoped setup lang=a"), "x:setup:scoped:a");
    assert_eq!(build_label("template", "lang=\"pug\""), "template:pug");
}

#[test]
fn attribute_labels() {
    assert_eq!(
        parse_attr_labels("@click=\"go\" v-else :a='{b}' c={d} =x e=/ f>"),
        vec!["@click=go", "v-else", ":a=b", "c=d", "e", "f"]
    );
    assert!(parse_attr_labels(" / > ").is_empty());
    assert_eq!(parse_attr_labels("a=b=c"), vec!["a=b=c"]);
}

#[test]
fn block_lines_and_contents() {
    let src = "\n<template>\n  <template #x>\n  </template>\n</template>\ntext\n<docs lang=\"md\">\nhello\n</docs>\n";
    let blocks = extract_blocks(src);
    assert_eq!(blocks.len(), 2);
    assert_eq!((blocks[0].start_line, blocks[0].end_line), (1, 4));
    assert_eq!(blocks[0].content_start_line, 2);
    assert_eq!(blocks[0].content, "  <template #x>\n  </template>");
    assert_eq!(blocks[1].node_type, "custom_block");
    assert_eq!(blocks[1].label, "docs");
    assert_eq!((blocks[1].start_line, blocks[1].end_line), (6, 8));
    assert_eq!(blocks[1].content, "hello");
    assert_eq!(blocks[1].content_hash, content_hash("hello"));
    assert!(blocks[0].end_line < blocks[1].start_line);
}

#[test]
fn unclosed_block_ends_with_the_source() {
    let blocks = extract_blocks("<script>\na\nb\nc");
    assert_eq!(blocks.len(), 1);
    assert_eq!((blocks[0].start_line, blocks[0].end_line), (0, 3));
    assert_eq!(blocks[0].content, "a\nb");
    let single = extract_blocks("<script>");
    assert_eq!((single[0].start_line, single[0].end_line), (0, 0));
    assert_eq!(single[0].content, "");
}

#[test]
fn depth_is_counted_in_lower_case() {
    let blocks = extract_blocks("<Docs>\nx\n</Docs>\n</docs>\ny");
    assert_eq!(blocks.len(), 1);
    assert_eq!(blocks[0].label, "docs");
    assert_eq!(blocks[0].end_line, 3);
    let nested = extract_blocks("<a><a></a>\n</a>\n<b></b>");
    assert_eq!(nested.len(), 2);
    assert_eq!(nested[0].end_line, 1);
    assert_eq!((nested[1].start_line, nested[1].end_line), (2, 2));
}

#[test]
fn no_blocks() {
    assert!(extract_blocks("").is_empty());
    assert!(extract_blocks("plain text\n</template>\n<!-- c -->").is_empty());
}

#[test]
fn labels_of_blocks() {
    let label = |source: &str| extract_blocks(source)[0].label.clone();
    assert_eq!(label("<docs lang=\"md\">\nhello\n</docs>"), "docs");
    assert_eq!(label("<i18n scoped setup>\n</i18n>"), "i18n");
    assert_eq!(label("<script setup>const a = 1</script>"), "script:setup");
    assert_eq!(label("<template><p lang=\"en\">Hi</p></template>"), "template");
    assert_eq!(label("<script setup generic=\"T<U>\" lang=\"ts\">"), "script:setup:ts");
    assert_eq!(label("<style lang='scss' scoped>"), "style:scoped:scss");
}

#[test]
fn block_lines_read_alone() {
    let source = "x\n<a>\nb\n<a>\n</a>\n</a>\n<style scoped>\n.c {\n}\n";
    let lines: Vec<&str> = source.lines().collect();
    let blocks = extract_blocks(source);
    assert_eq!(blocks.len(), 2);
    for b in &blocks {
        let mut own = lines[b.start_line as usize..=b.end_line as usize].join("\n");
        own.push('\n');
        let again = extract_blocks(&own);
        assert_eq!(again.len(), 1);
        assert_eq!(again[0].node_type, b.node_type);
        assert_eq!(again[0].label, b.label);
        assert_eq!(again[0].content, b.content);
        assert_eq!(again[0].content_hash, b.content_hash);
        assert_eq!(again[0].start_line, 0);
        assert_eq!(again[0].content_start_line, 1);
        assert_eq!(again[0].end_line, b.end_line - b.start_line);
    }
}

#[test]
fn lines_in_front_move_blocks() {
    let source = "<a>\nb\n</a>\n<c></c>";
    let blocks = extract_blocks(source);
    let moved = extract_blocks(&format!("{}{}", "x\n\n</y>\n", source));
    assert_eq!(moved.len(), blocks.len());
    for (m, b) in moved.iter().zip(blocks.iter()) {
        assert_eq!(m.start_line, b.start_line + 3);
        assert_eq!(m.end_line, b.end_line + 3);
        assert_eq!(m.content_start_line, b.content_start_line + 3);
        assert_eq!(m.label, b.label);
        assert_eq!(m.content, b.content);
        assert_eq!(m.content_hash, b.content_hash);
    }
}
