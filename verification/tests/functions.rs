use svelte_parser::blocks::{extract_blocks, SfcBlock};
use svelte_parser::children::{
    extract_script_children, extract_style_children, extract_template_children,
};
use svelte_parser::component::component_tree;
use svelte_parser::hash::content_hash;
use svelte_parser::node::{make_leaf, Node};
use svelte_parser::plugin::{language_of_lowered_name, ParserMode, SvelteParser};
use svelte_parser::script::{
    assignment_label, declaration_name, function_name, is_identifier_like, normalize_statement,
};
use svelte_parser::tags::{
    attr_contains, attr_lang, lang_of_lowered_word, extract_brace_labels, parse_attr_labels, parse_tag_open,
    parse_tag_segment,
};

fn pair(a: &str, b: &str) -> Option<(String, String)> {
    Some((a.to_string(), b.to_string()))
}

fn check_node(n: &Node, id: &str, node_type: &str, label: &str, start: u32, end: u32, kids: usize) {
    assert_eq!(n.id, id);
    assert_eq!(n.node_type, node_type);
    assert_eq!(n.label, label);
    assert_eq!(n.start_line, start);
    assert_eq!(n.end_line, end);
    assert_eq!(n.start_col, 0);
    assert_eq!(n.end_col, 0);
    assert_eq!(n.children.len(), kids);
}

fn check_block(b: &SfcBlock, node_type: &str, label: &str, start: u32, end: u32, cstart: u32, content: &str) {
    assert_eq!(b.node_type, node_type);
    assert_eq!(b.label, label);
    assert_eq!(b.start_line, start);
    assert_eq!(b.end_line, end);
    assert_eq!(b.content_start_line, cstart);
    assert_eq!(b.content, content);
    assert_eq!(b.content_hash, content_hash(content));
}

#[test]
fn content_hash_values() {
    assert_eq!(content_hash(""), "0000000000001505");
    assert_eq!(content_hash("a"), "000000000002b606");
    assert_eq!(content_hash("é"), "0000000000598411");
    assert_eq!(content_hash("export const x = 1;"), "04dd34bb3271accf");
    let h = content_hash("<h1>x</h1>");
    assert_eq!(h.len(), 16);
    assert!(h.chars().all(|c| c.is_ascii_digit() || ('a'..='f').contains(&c)));
}

#[test]
fn parse_tag_open_cases() {
    assert_eq!(parse_tag_open("  <Script lang=\"ts\">"), pair("script", "lang=\"ts\""));
    assert_eq!(parse_tag_open("<SCRIPT>"), pair("script", ""));
    assert_eq!(parse_tag_open("<ÄB x>"), pair("äb", "x"));
    assert_eq!(parse_tag_open("<div/>"), pair("div", "/"));
    assert_eq!(parse_tag_open("<style global>>"), pair("style", "global"));
    assert_eq!(parse_tag_open("</script>"), None);
    assert_eq!(parse_tag_open("<!-- note -->"), None);
    assert_eq!(parse_tag_open("<>"), None);
    assert_eq!(parse_tag_open("text <b>"), None);
}

#[test]
fn attr_contains_and_lang() {
    assert!(attr_contains("Context=\"MODULE\"", "context=\"module\""));
    assert!(!attr_contains("context=module", "context=\"module\""));
    assert!(attr_contains("x", ""));
    assert_eq!(attr_lang("lang=\"TS\" other"), Some("ts".to_string()));
    assert_eq!(attr_lang("a=1  LANG='scss'"), Some("scss".to_string()));
    assert_eq!(attr_lang("type='x'"), None);
    assert_eq!(attr_lang(""), None);
    let w: Vec<char> = "lang='ts'".chars().collect();
    assert_eq!(lang_of_lowered_word(&w), Some(vec!['t', 's']));
    let w: Vec<char> = "LANG=ts".chars().collect();
    assert_eq!(lang_of_lowered_word(&w), None);
}

#[test]
fn identifiers_and_statements() {
    assert!(is_identifier_like("count"));
    assert!(is_identifier_like("$store"));
    assert!(is_identifier_like("_x1"));
    assert!(is_identifier_like("a-b"));
    assert!(!is_identifier_like("9x"));
    assert!(!is_identifier_like(""));
    assert!(!is_identifier_like("a b"));
    assert_eq!(normalize_statement("  let x = 1;  "), "let x = 1");
    assert_eq!(normalize_statement("foo,;"), "foo,");
    assert_eq!(normalize_statement("\u{3000}\t x;\u{85}\u{2028}"), "x");
    assert_eq!(normalize_statement("\u{200b}x"), "\u{200b}x");
    assert_eq!(normalize_statement("a;,"), "a");
    assert_eq!(normalize_statement("\u{a0}x\u{3000}"), "x");
}

#[test]
fn declaration_function_assignment() {
    assert_eq!(declaration_name("let count = 0"), Some("count"));
    assert_eq!(declaration_name("const x: number = 1"), Some("x"));
    assert_eq!(declaration_name("var $a;"), Some("$a"));
    assert_eq!(declaration_name("let {a} = b"), None);
    assert_eq!(declaration_name("letter = 1"), None);
    assert_eq!(function_name("function increment() {"), Some("increment"));
    assert_eq!(function_name("function (x)"), None);
    assert_eq!(function_name("fn x()"), None);
    assert_eq!(assignment_label("count += 1"), Some("count".to_string()));
    assert_eq!(assignment_label("x = y"), Some("x".to_string()));
    assert_eq!(assignment_label("a == b"), Some("a".to_string()));
    assert_eq!(assignment_label("return a = b"), None);
    assert_eq!(assignment_label("let a = b"), None);
    assert_eq!(assignment_label("= b"), None);
    assert_eq!(assignment_label("plain"), None);
}

#[test]
fn attribute_labels() {
    assert_eq!(
        parse_attr_labels("class=\"btn\" disabled on:click={increment} />"),
        vec!["class=btn".to_string(), "disabled".to_string(), "on:click=increment".to_string()]
    );
    assert_eq!(parse_attr_labels("='x' a="), vec!["a".to_string()]);
    assert_eq!(parse_attr_labels(""), Vec::<String>::new());
}

#[test]
fn tag_segments() {
    assert_eq!(
        parse_tag_segment("button on:click={increment}"),
        pair("button", "on:click={increment}")
    );
    assert_eq!(parse_tag_segment(" Img src=x / "), pair("img", "src=x"));
    assert_eq!(parse_tag_segment("/div"), None);
    assert_eq!(parse_tag_segment(""), None);
    assert_eq!(parse_tag_segment("!doctype html"), None);
}

#[test]
fn brace_labels() {
    assert_eq!(
        extract_brace_labels("Hello {name}! {{raw}} {#if x} {/if} { } {count"),
        vec!["name".to_string()]
    );
    assert_eq!(
        extract_brace_labels("{ a } and {b}"),
        vec!["a".to_string(), "b".to_string()]
    );
    assert!(extract_brace_labels("no braces").is_empty());
}

#[test]
fn leaf_nodes() {
    let n = make_leaf("0.1", "attribute", "x=1".to_string(), 7);
    check_node(&n, "0.1", "attribute", "x=1", 7, 7, 0);
    assert_eq!(n.content_hash, "");
}

#[test]
fn script_children() {
    let content = "  let count = 0;\n  function increment() {\n    count += 1;\n  }\nimport x from 'y';";
    let kids = extract_script_children(content, 1, "0.0");
    assert_eq!(kids.len(), 4);
    check_node(&kids[0], "0.0.0", "variable_declaration", "count", 1, 1, 1);
    check_node(&kids[0].children[0], "0.0.0.0", "declaration_value", "0", 1, 1, 0);
    check_node(&kids[1], "0.0.1", "function_declaration", "increment", 2, 2, 0);
    check_node(&kids[2], "0.0.2", "assignment_statement", "count", 3, 3, 0);
    check_node(&kids[3], "0.0.3", "import_statement", "import x from 'y'", 5, 5, 0);
    let decl = extract_script_children("let a;", 0, "p");
    check_node(&decl[0], "p.0", "variable_declaration", "a", 0, 0, 0);
}

#[test]
fn style_children() {
    let content = "  h1 {\n    color: blue;\n  }\n  .a{\n  {\n  :x";
    let kids = extract_style_children(content, 5, "0.1");
    assert_eq!(kids.len(), 3);
    check_node(&kids[0], "0.1.0", "style_rule", "h1", 5, 5, 0);
    check_node(&kids[1], "0.1.1", "style_declaration", "color", 6, 6, 0);
    check_node(&kids[2], "0.1.2", "style_rule", ".a", 8, 8, 0);
}

#[test]
fn template_children() {
    let content = "<h1>Hello, {name}!</h1>\n<button on:click={increment}>Inc</button>";
    let kids = extract_template_children(content, 4, "0.2");
    assert_eq!(kids.len(), 4);
    check_node(&kids[0], "0.2.0", "element", "h1", 4, 4, 0);
    check_node(&kids[1], "0.2.1", "interpolation", "name", 4, 4, 0);
    check_node(&kids[2], "0.2.2", "element", "button", 5, 5, 1);
    check_node(&kids[2].children[0], "0.2.2.0", "attribute", "on:click=increment", 5, 5, 0);
    check_node(&kids[3], "0.2.3", "interpolation", "increment", 5, 5, 0);
}

#[test]
fn unclosed_block_runs_to_the_end() {
    let blocks = extract_blocks("<script context=\"module\">\nlet a = 1;");
    assert_eq!(blocks.len(), 1);
    check_block(&blocks[0], "script_block", "script:module", 0, 1, 1, "let a = 1;");
    let blocks = extract_blocks("<style global lang=\"css\">\np { }");
    assert_eq!(blocks.len(), 1);
    check_block(&blocks[0], "style_block", "style:global:css", 0, 1, 1, "p { }");
}

#[test]
fn block_closed_on_its_opening_line() {
    let blocks = extract_blocks("<style>h1 { color: red; }</style>\n<p>x</p>");
    assert_eq!(blocks.len(), 2);
    check_block(&blocks[0], "style_block", "style", 0, 0, 0, "h1 { color: red; }");
    check_block(&blocks[1], "template_body", "template", 1, 1, 1, "<p>x</p>");
    let blocks = extract_blocks("  <script>let a = 1;</script>");
    assert_eq!(blocks.len(), 1);
    check_block(&blocks[0], "script_block", "script", 0, 0, 0, "let a = 1;");
    let root = component_tree("<script>let a = 1;</script>", "A.svelte");
    check_node(&root.children[0], "0.0", "script_block", "script", 0, 0, 1);
    check_node(&root.children[0].children[0], "0.0.0", "variable_declaration", "a", 0, 0, 1);
}

#[test]
fn module_script_and_template() {
    let blocks = extract_blocks(
        "<script context=\"module\" lang=\"ts\">\nexport const x = 1;\n</script>\n<p>hi</p>",
    );
    assert_eq!(blocks.len(), 2);
    check_block(&blocks[0], "script_block", "script:module:ts", 0, 2, 1, "export const x = 1;");
    check_block(&blocks[1], "template_body", "template", 3, 3, 3, "<p>hi</p>");
    assert_eq!(blocks[1].content_hash, "0377928d3ad52bb9");
}

#[test]
fn nested_tags_and_global_style() {
    let blocks = extract_blocks("<script>\n<script>\n</script>\n</script>\nx");
    assert_eq!(blocks.len(), 2);
    check_block(&blocks[0], "script_block", "script", 0, 3, 1, "<script>\n</script>");
    check_block(&blocks[1], "template_body", "template", 4, 4, 4, "x");
    let blocks = extract_blocks("<style global lang=\"scss\">\n</style>");
    assert_eq!(blocks.len(), 1);
    check_block(&blocks[0], "style_block", "style:global:scss", 0, 1, 1, "");
    let blocks = extract_blocks("<style>a{}</style>\n<p/>");
    assert_eq!(blocks.len(), 2);
    check_block(&blocks[0], "style_block", "style", 0, 0, 0, "a{}");
    check_block(&blocks[1], "template_body", "template", 1, 1, 1, "<p/>");
    let blocks = extract_blocks("<script><script></script>\nx\n</script>");
    assert_eq!(blocks.len(), 2);
    check_block(&blocks[0], "script_block", "script", 0, 0, 0, "<script>");
    check_block(&blocks[1], "template_body", "template", 1, 2, 1, "x\n</script>");
}

#[test]
fn openings_on_the_opening_line_do_not_nest() {
    let blocks = extract_blocks("<script>let s = \"<script\";\nlet a = 1;\n</script>\n<p/>");
    assert_eq!(blocks.len(), 2);
    check_block(&blocks[0], "script_block", "script", 0, 2, 1, "let a = 1;");
    check_block(&blocks[1], "template_body", "template", 3, 3, 3, "<p/>");
}

#[test]
fn template_lines_and_line_endings() {
    let blocks = extract_blocks("a\r\n<script>\nlet x;\n</script>\nb\r");
    assert_eq!(blocks.len(), 2);
    check_block(&blocks[0], "script_block", "script", 1, 3, 2, "let x;");
    check_block(&blocks[1], "template_body", "template", 0, 4, 0, "a\nb\r");
    assert!(extract_blocks("").is_empty());
}

#[test]
fn component_tree_order_and_hash() {
    let root = component_tree("<h1>x</h1>\n<script>\nlet a;\n</script>", "src/App.svelte");
    check_node(&root, "0", "svelte_component", "App", 0, 3, 2);
    assert_eq!(root.content_hash, "172b03d01d16c081");
    check_node(&root.children[0], "0.0", "template_body", "template", 0, 0, 1);
    assert_eq!(root.children[0].content_hash, "7269d96b742e91b2");
    check_node(&root.children[0].children[0], "0.0.0", "element", "h1", 0, 0, 0);
    check_node(&root.children[1], "0.1", "script_block", "script", 1, 3, 1);
    assert_eq!(root.children[1].content_hash, "000006530b300466");
    check_node(&root.children[1].children[0], "0.1.0", "variable_declaration", "a", 2, 2, 0);
}

#[test]
fn component_stems() {
    assert_eq!(component_tree("", "a.b.svelte").label, "a.b");
    assert_eq!(component_tree("", "ui/my.widget.svelte").label, "my.widget");
    assert_eq!(component_tree("", "README").label, "README");
    assert_eq!(component_tree("", "dir\\file.x").label, "file");
    assert_eq!(component_tree("", "x/.svelte").label, ".svelte");
    assert_eq!(component_tree("", "x/.a.svelte").label, ".a");
    assert_eq!(component_tree("", "").label, "component");
    assert_eq!(component_tree("", "dir/").label, "component");
    let root = component_tree("", "App.svelte");
    check_node(&root, "0", "svelte_component", "App", 0, 0, 0);
    assert_eq!(root.content_hash, "0000000000001505");
}

#[test]
fn plugin_entry_points() {
    assert!(SvelteParser::get_parser_mode() == ParserMode::FullParse);
    assert_eq!(SvelteParser::detect_language("APP.SVELTE".to_string(), String::new()), "svelte");
    assert_eq!(SvelteParser::detect_language("x.svelte.bak".to_string(), String::new()), "");
    assert_eq!(language_of_lowered_name("app.svelte"), "svelte");
    assert_eq!(language_of_lowered_name("App.SVELTE"), "");
    assert_eq!(SvelteParser::preprocess_source("<p/>".to_string()), "<p/>");
    assert!(SvelteParser::trivia_node_types().is_empty());
    assert_eq!(SvelteParser::language_ids(), vec!["svelte".to_string()]);
    assert_eq!(SvelteParser::priority(), 0);
    let ex = SvelteParser::example("svelte".to_string());
    assert!(ex.old.starts_with("<script>"));
    let root = SvelteParser::process_tree(ex.old.clone(), "svelte".to_string(), "App.svelte".to_string());
    assert_eq!(root.children.len(), 2);
}
