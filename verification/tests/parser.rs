use svelte_parser::blocks::extract_blocks;
use svelte_parser::component::component_tree;
use svelte_parser::node::Node;
use svelte_parser::plugin::SvelteParser;

fn to_json(n: &Node) -> serde_json::Value {
    let mut m = serde_json::Map::new();
    m.insert("id".to_string(), serde_json::Value::String(n.id.clone()));
    m.insert("node_type".to_string(), serde_json::Value::String(n.node_type.clone()));
    m.insert("label".to_string(), serde_json::Value::String(n.label.clone()));
    m.insert("start_line".to_string(), serde_json::Value::from(n.start_line));
    m.insert("start_col".to_string(), serde_json::Value::from(n.start_col));
    m.insert("end_line".to_string(), serde_json::Value::from(n.end_line));
    m.insert("end_col".to_string(), serde_json::Value::from(n.end_col));
    m.insert("content_hash".to_string(), serde_json::Value::String(n.content_hash.clone()));
    let kids: Vec<serde_json::Value> = n.children.iter().map(to_json).collect();
    m.insert("children".to_string(), serde_json::Value::Array(kids));
    serde_json::Value::Object(m)
}

fn process_impl(source: &str, filename: &str) -> String {
    let root = component_tree(source, filename);
    serde_json::to_string(&to_json(&root)).unwrap()
}

fn collect_labels(value: &serde_json::Value) -> Vec<String> {
    let mut labels = Vec::new();
    if let Some(label) = value["label"].as_str() {
        labels.push(label.to_string());
    }
    if let Some(children) = value["children"].as_array() {
        for child in children {
            labels.extend(collect_labels(child));
        }
    }
    labels
}

#[test]
fn grammar_id_nonempty() {
    assert!(!SvelteParser::grammar_id().is_empty());
}

#[test]
fn language_ids_contain_grammar_id() {
    assert!(SvelteParser::language_ids().contains(&SvelteParser::grammar_id()));
}

#[test]
fn detect_language_svelte() {
    assert_eq!(
        SvelteParser::detect_language("App.svelte".to_string(), "".to_string()),
        "svelte"
    );
}

#[test]
fn detect_language_unknown() {
    assert_eq!(
        SvelteParser::detect_language("main.ts".to_string(), "".to_string()),
        ""
    );
}

#[test]
fn empty_source_valid_json() {
    let out = process_impl("", "App.svelte");
    serde_json::from_str::<serde_json::Value>(&out).expect("valid JSON");
}

#[test]
fn blocks_extracted() {
    let src = r#"<script lang="ts">
  let count = 0;
</script>
<h1>Hello {count}</h1>
<style>
  h1 { color: blue; }
</style>"#;
    let blocks = extract_blocks(src);
    let has_script = blocks.iter().any(|b| b.node_type == "script_block");
    let has_style = blocks.iter().any(|b| b.node_type == "style_block");
    let has_template = blocks.iter().any(|b| b.node_type == "template_body");
    assert!(has_script, "should have script_block");
    assert!(has_style, "should have style_block");
    assert!(has_template, "should have template_body");
}

#[test]
fn example_extracts_component_children() {
    let example = SvelteParser::example("svelte".to_string());
    let out = process_impl(&example.new, "App.svelte");
    let v: serde_json::Value = serde_json::from_str(&out).expect("valid JSON");
    let labels = collect_labels(&v);
    assert!(labels.iter().any(|label| label == "count"));
    assert!(labels.iter().any(|label| label == "increment"));
    assert!(labels.iter().any(|label| label == "button"));
    assert!(labels.iter().any(|label| label == "on:click=increment"));
}
