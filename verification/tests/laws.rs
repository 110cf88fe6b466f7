use svelte_parser::blocks::extract_blocks;
use svelte_parser::component::component_tree;
use svelte_parser::node::Node;
use svelte_parser::tags::extract_brace_labels;

fn ids_consistent(n: &Node) -> bool {
    n.children.iter().enumerate().all(|(i, c)| c.id == format!("{}.{}", n.id, i) && ids_consistent(c))
}

const SAMPLE: &str = "<h1>{title}</h1>\n<script context=\"module\">\nexport const a = 1;\n</script>\n<p>{a}</p>\n<style global>\n  p { color: red; }\n</style>\n<footer/>";

#[test]
fn ids_follow_positions() {
    let root = component_tree(SAMPLE, "Page.svelte");
    assert_eq!(root.id, "0");
    assert!(ids_consistent(&root));
}

#[test]
fn root_children_ordered_by_start_line() {
    let root = component_tree(SAMPLE, "Page.svelte");
    let starts: Vec<u32> = root.children.iter().map(|c| c.start_line).collect();
    assert_eq!(starts, vec![0, 1, 5]);
}

#[test]
fn module_and_global_labels() {
    let blocks = extract_blocks(SAMPLE);
    assert!(blocks[0].label.starts_with("script:module"));
    assert!(blocks[1].label.starts_with("style:global"));
}

#[test]
fn template_is_the_rest() {
    let blocks = extract_blocks(SAMPLE);
    assert_eq!(blocks.len(), 3);
    assert!(blocks[0].end_line < blocks[1].start_line);
    let t = &blocks[2];
    assert_eq!(t.node_type, "template_body");
    assert_eq!(t.start_line, 0);
    assert_eq!(t.end_line, 8);
    assert_eq!(t.content, "<h1>{title}</h1>\n<p>{a}</p>\n<footer/>");
}

#[test]
fn interpolation_labels_shape() {
    for l in extract_brace_labels("{a} {#each x} {/each} {:else} { } {{b}} {c}") {
        assert!(!l.is_empty() && !l.starts_with('#') && !l.starts_with('/'));
    }
}

#[test]
fn block_list_shape() {
    for src in [SAMPLE, "", "<p/>", "<style>a{}</style>\n<p/>", "<script>\nx"] {
        let blocks = extract_blocks(src);
        for (k, b) in blocks.iter().enumerate() {
            assert!(["script_block", "style_block", "template_body"].contains(&b.node_type.as_str()));
            if b.node_type == "template_body" {
                assert_eq!(k, blocks.len() - 1);
            }
        }
    }
    assert!(extract_blocks("").is_empty());
}

#[test]
fn attribute_labels_shape() {
    let attrs = "a =b c=\"d\" /> ='x' e";
    let labels = svelte_parser::tags::parse_attr_labels(attrs);
    assert!(labels.len() <= attrs.split_whitespace().count());
    for l in labels {
        assert!(!l.is_empty() && !l.starts_with('='));
        assert!(!l.contains(char::is_whitespace));
    }
}

#[test]
fn tag_segment_shape() {
    for seg in ["", "  ", " /div", "!DOCTYPE html", ">", "Div class=x", " br/", "a>b"] {
        let t = seg.trim();
        let r = svelte_parser::tags::parse_tag_segment(seg);
        let refused = t.is_empty() || t.starts_with('/') || t.starts_with('!') || t.starts_with('>');
        assert_eq!(r.is_none(), refused);
        if let Some((tag, _)) = r {
            let end = t.find(|c: char| c.is_whitespace() || c == '>' || c == '/').unwrap_or(t.len());
            assert!(end > 0);
            assert_eq!(tag, t[..end].to_lowercase());
        }
    }
}
