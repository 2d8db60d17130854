use serde_json::Value;
use vue_parser::blocks::extract_blocks;
use vue_parser::component::{process_impl, process_output};
use vue_parser::node::SemanticNode;
use vue_parser::plugin::{language_info_for, LanguageInfo, ParserMode, VueParser};
use vue_parser::tags::build_label;

fn to_json(node: &SemanticNode) -> Value {
    let mut object = serde_json::Map::new();
    object.insert("id".to_string(), Value::from(node.id.as_str()));
    object.insert("node_type".to_string(), Value::from(node.node_type.as_str()));
    object.insert("label".to_string(), Value::from(node.label.as_str()));
    object.insert("start_line".to_string(), Value::from(node.start_line));
    object.insert("end_line".to_string(), Value::from(node.end_line));
    object.insert("content_hash".to_string(), Value::from(node.content_hash.as_str()));
    let children: Vec<Value> = node.children.iter().map(to_json).collect();
    object.insert("children".to_string(), Value::from(children));
    Value::Object(object)
}

fn process_to_json(source: &str, filename: &str) -> String {
    let tree = process_impl(source, filename);
    process_output(serde_json::to_string(&to_json(&tree)).map_err(|e| e.to_string()))
}

fn collect_labels(value: &Value) -> Vec<String> {
    let mut labels = Vec::new();
    if let Some(label) = value["label"].as_str() {
        labels.push(label.to_string());
    }
    if let Some(children) = value["children"].as_array() {
        for child in children {
            labels.extend(collect_labels(child));
        }
    }
    labels
}

#[test]
fn grammar_id_nonempty() {
    assert!(!VueParser::grammar_id().is_empty());
}

#[test]
fn language_ids_contain_grammar_id() {
    let gid = VueParser::grammar_id();
    let ids = VueParser::language_ids();
    assert!(ids.contains(&gid));
}

#[test]
fn detect_language_vue() {
    assert_eq!(
        VueParser::detect_language("App.vue".to_string(), "".to_string()),
        "vue"
    );
}

#[test]
fn detect_language_unknown() {
    assert_eq!(
        VueParser::detect_language("main.ts".to_string(), "".to_string()),
        ""
    );
}

#[test]
fn empty_source_produces_valid_json() {
    let out = process_to_json("", "Component.vue");
    serde_json::from_str::<Value>(&out).expect("valid JSON");
}

#[test]
fn sfc_blocks_extracted() {
    let src = r#"<template><div>Hello</div></template>
<script setup lang="ts">
const x = 1;
</script>
<style scoped>
.btn { color: red; }
</style>"#;
    let blocks = extract_blocks(src);
    assert_eq!(blocks.len(), 3);
    assert_eq!(blocks[0].node_type, "template_block");
    assert_eq!(blocks[1].node_type, "script_block");
    assert_eq!(blocks[2].node_type, "style_block");
    assert!(blocks[1].label.contains("setup"));
    assert!(blocks[1].label.contains("ts"));
    assert!(blocks[2].label.contains("scoped"));
}

#[test]
fn attr_label_setup() {
    assert_eq!(
        build_label("script", "setup lang=\"ts\""),
        "script:setup:ts"
    );
}

#[test]
fn attr_label_scoped() {
    assert_eq!(build_label("style", "scoped"), "style:scoped");
}

#[test]
fn example_extracts_component_children() {
    let example = VueParser::example("vue".to_string());
    let out = process_to_json(&example.new, "Component.vue");
    let v: Value = serde_json::from_str(&out).expect("valid JSON");
    let labels = collect_labels(&v);
    assert!(labels.iter().any(|label| label == "button"));
    assert!(labels.iter().any(|label| label == "@click=changeGreeting"));
    assert!(labels.iter().any(|label| label == "changeGreeting"));
    assert!(labels.iter().any(|label| label == "names"));
}

#[test]
fn detect_language_ignores_case() {
    assert_eq!(VueParser::detect_language("src/APP.VUE".to_string(), "x".to_string()), "vue");
    assert_eq!(VueParser::detect_language("ÀÉ.Vue".to_string(), "".to_string()), "vue");
    assert_eq!(VueParser::detect_language("vue".to_string(), "".to_string()), "");
    assert_eq!(VueParser::detect_language("a.vue.js".to_string(), "".to_string()), "");
    assert_eq!(VueParser::detect_language(".vue".to_string(), "".to_string()), "vue");
}

#[test]
fn fixed_answers() {
    assert_eq!(VueParser::get_parser_mode(), ParserMode::FullParse);
    assert_eq!(VueParser::grammar_id(), "vue");
    assert_eq!(VueParser::language_ids(), vec!["vue".to_string()]);
    assert!(VueParser::trivia_node_types().is_empty());
    assert_eq!(VueParser::priority(), 0);
    assert_eq!(VueParser::preprocess_source("a\r\nb".to_string()), "a\r\nb");
}

#[test]
fn example_shows_an_edit() {
    let example = VueParser::example("anything".to_string());
    let old = VueParser::process(example.old, "vue".to_string(), "Component.vue".to_string());
    assert_eq!(old.children.len(), 2);
    assert_eq!(old.children[0].node_type, "template_block");
    assert_eq!(old.children[0].children.len(), 2);
    assert_eq!(old.children[0].children[0].label, "h1");
    assert_eq!(old.children[0].children[1].label, "greeting");
    let new = VueParser::process(example.new, "vue".to_string(), "Component.vue".to_string());
    assert_eq!(new.children.len(), 2);
    assert_ne!(old.content_hash, new.content_hash);
}

#[test]
fn serialisation_errors_are_reported() {
    assert_eq!(process_output(Ok("{}".to_string())), "{}");
    assert_eq!(
        process_output(Err("key must be a string".to_string())),
        r#"{"error":"Serialisation error: key must be a string"}"#
    );
}

#[test]
fn language_records_repeat_the_metadata() {
    let info = LanguageInfo {
        language_id: "vue".to_string(),
        language_name: "Vue".to_string(),
        language_short_name: "vue".to_string(),
        monaco_language: "html".to_string(),
        default_filename: "App.vue".to_string(),
        language_file_extensions: vec![".vue".to_string()],
    };
    let records = language_info_for(vec![info], "someone", "1.2.3", "2024-01-01");
    assert_eq!(records.len(), 1);
    assert_eq!(records[0].language_id, "vue");
    assert_eq!(records[0].language_name, "Vue");
    assert_eq!(records[0].monaco_language, "html");
    assert_eq!(records[0].default_filename, "App.vue");
    assert_eq!(records[0].language_file_extensions, vec![".vue".to_string()]);
    assert_eq!(records[0].author, "someone");
    assert_eq!(records[0].plugin_version, "1.2.3");
    assert_eq!(records[0].last_updated, "2024-01-01");
}
