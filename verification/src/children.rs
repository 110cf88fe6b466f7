//! Children of the script, style and template blocks: one pass over the lines of a block.

use vstd::prelude::*;
use crate::node::{
    Node, NodeSpec, node_is, nodes_are, child_id, leaf, child_id_chars, leaf_node, new_node,
};
use crate::tags::{
    spec_attr_labels, parse_attr_labels_chars, spec_brace_labels, brace_labels_chars,
    spec_parse_tag_segment, parse_tag_segment_chars, template_tags, segments, segments_chars,
};
use crate::script::{
    spec_normalize_statement, normalize_statement_chars, spec_declaration_name,
    declaration_range_chars, spec_function_name, function_range_chars, spec_assignment_label,
    assignment_label_chars,
};
use crate::text::{
    CharClass, copy_range, ends_with, find_from, lines, scan, split_lines, starts_with,
    starts_with_exec, to_chars, trim, trim_end_char, trim_end_class, trim_ws, views,
};

verus! {

broadcast use vstd::string::group_string_axioms;

/// An optional node matches an optional description.
pub open spec fn opt_node_is(r: Option<Node>, s: Option<NodeSpec>) -> bool {
    match r {
        Some(n) => s matches Some(x) && node_is(n, x),
        None => s is None,
    }
}

// ---------------------------------------------------------------------------
// Script

/// A normalized script line that yields no node and takes no id: empty, `{` or `}`.
pub open spec fn script_skipped(line: Seq<char>) -> bool {
    line.len() == 0 || line == seq!['{'] || line == seq!['}']
}

/// The declared value of a declaration line: the text after its first `=`, trimmed and without
/// trailing `;`, when that is not empty.
pub open spec fn declaration_value(line: Seq<char>) -> Option<Seq<char>> {
    let k = find_from(line, CharClass::Exactly('='), true, 0);
    if k < line.len() {
        let rhs = trim(trim_end_char(trim(line.skip(k + 1)), ';'));
        if rhs.len() > 0 {
            Some(rhs)
        } else {
            None
        }
    } else {
        None
    }
}

/// The node of a normalized, not skipped script statement with id `id` on line `abs`:
/// an import, a declaration (with its value as child `.0`), a function declaration or an
/// assignment, tried in that order.
pub open spec fn script_stmt_node(line: Seq<char>, id: Seq<char>, abs: int) -> Option<NodeSpec> {
    if starts_with(line, "import "@) {
        Some(leaf(id, "import_statement"@, line, abs))
    } else if spec_declaration_name(line) is Some {
        let base = leaf(id, "variable_declaration"@, spec_declaration_name(line)->0, abs);
        match declaration_value(line) {
            Some(rhs) => Some(
                NodeSpec {
                    children: seq![leaf(child_id(id, 0), "declaration_value"@, rhs, abs)],
                    ..base
                },
            ),
            None => Some(base),
        }
    } else if spec_function_name(line) is Some {
        Some(leaf(id, "function_declaration"@, spec_function_name(line)->0, abs))
    } else {
        match spec_assignment_label(line) {
            Some(l) => Some(leaf(id, "assignment_statement"@, l, abs)),
            None => None,
        }
    }
}

/// The children of a script block with content lines `ls`, for its first `n` lines.
pub open spec fn script_children_upto(ls: Seq<Seq<char>>, start: int, prefix: Seq<char>, n: int) -> Seq<NodeSpec>
    decreases n,
{
    if n <= 0 {
        seq![]
    } else {
        let prev = script_children_upto(ls, start, prefix, n - 1);
        let line = spec_normalize_statement(ls[n - 1]);
        if script_skipped(line) {
            prev
        } else {
            match script_stmt_node(line, child_id(prefix, prev.len()), start + n - 1) {
                Some(x) => prev.push(x),
                None => prev,
            }
        }
    }
}

/// The children of a script block whose content starts on line `start`.
pub open spec fn spec_script_children(content: Seq<char>, start: int, prefix: Seq<char>) -> Seq<NodeSpec> {
    script_children_upto(lines(content), start, prefix, lines(content).len() as int)
}

/// Line numbers of the statements of a script block fit in `u32`.
pub open spec fn script_lines_fit(content: Seq<char>, start: int) -> bool {
    forall|idx: int|
        0 <= idx < lines(content).len() && !script_skipped(
            spec_normalize_statement(#[trigger] lines(content)[idx]),
        ) ==> start + idx <= u32::MAX
}

fn script_stmt_node_exec(line: &[char], id: &[char], abs: u32) -> (r: Option<Node>)
    ensures
        opt_node_is(r, script_stmt_node(line@, id@, abs as int)),
{
    let import_kw = to_chars("import ");
    if starts_with_exec(line, &import_kw) {
        return Some(leaf_node(id, "import_statement", line, abs));
    }
    if let Some((a, b)) = declaration_range_chars(line) {
        let name = copy_range(line, a, b);
        let mut decl = leaf_node(id, "variable_declaration", &name, abs);
        let k = scan(line, CharClass::Exactly('='), true, 0);
        if k < line.len() {
            let r0 = copy_range(line, k + 1, line.len());
            let r1 = trim_ws(&r0);
            let r2 = trim_end_class(&r1, CharClass::Exactly(';'));
            let rhs = trim_ws(&r2);
            if rhs.len() > 0 {
                let vid = child_id_chars(id, 0);
                let value = leaf_node(&vid, "declaration_value", &rhs, abs);
                let ghost base = decl;
                decl.children = vec![value];
                proof {
                    let s = NodeSpec {
                        children: seq![leaf(child_id(id@, 0), "declaration_value"@, rhs@, abs as int)],
                        ..leaf(id@, "variable_declaration"@, name@, abs as int)
                    };
                    assert(decl.children@.len() == 1);
                    assert(node_is(decl.children@[0], s.children[0]));
                    assert(node_is(decl, s));
                }
            }
        }
        return Some(decl);
    }
    if let Some((a, b)) = function_range_chars(line) {
        let name = copy_range(line, a, b);
        return Some(leaf_node(id, "function_declaration", &name, abs));
    }
    match assignment_label_chars(line) {
        Some(l) => Some(leaf_node(id, "assignment_statement", &l, abs)),
        None => None,
    }
}

pub fn script_children_chars(content: &[char], start_line: u32, prefix: &[char]) -> (r: Vec<Node>)
    requires
        script_lines_fit(content@, start_line as int),
    ensures
        nodes_are(r@, spec_script_children(content@, start_line as int, prefix@)),
{
    let ls = split_lines(content);
    let ghost lv = lines(content@);
    let mut children: Vec<Node> = Vec::new();
    let mut idx: usize = 0;
    while idx < ls.len()
        invariant
            idx <= ls@.len(),
            views(ls@) == lv,
            lv == lines(content@),
            script_lines_fit(content@, start_line as int),
            nodes_are(children@, script_children_upto(lv, start_line as int, prefix@, idx as int)),
        decreases ls@.len() - idx,
    {
        assert(ls@[idx as int]@ == lv[idx as int]);
        let line = normalize_statement_chars(ls[idx].as_slice());
        let skip = line.len() == 0 || (line.len() == 1 && (line[0] == '{' || line[0] == '}'));
        assert(skip == script_skipped(line@)) by {
            if line@.len() == 1 {
                if line@[0] == '{' {
                    assert(line@ =~= seq!['{']);
                }
                if line@[0] == '}' {
                    assert(line@ =~= seq!['}']);
                }
            }
        }
        if !skip {
            assert(start_line + idx <= u32::MAX);
            let abs = start_line + idx as u32;
            let cid = child_id_chars(prefix, children.len());
            let node = script_stmt_node_exec(&line, &cid, abs);
            match node {
                Some(n) => {
                    children.push(n);
                },
                None => {},
            }
        }
        idx += 1;
    }
    children
}

/// The children of a script block: one node per import, declaration, function declaration
/// or assignment statement, with ids `prefix.0`, `prefix.1`, ...
pub fn extract_script_children(content: &str, start_line: u32, id_prefix: &str) -> (r: Vec<Node>)
    requires
        script_lines_fit(content@, start_line as int),
    ensures
        nodes_are(r@, spec_script_children(content@, start_line as int, id_prefix@)),
{
    let c = to_chars(content);
    let p = to_chars(id_prefix);
    script_children_chars(&c, start_line, &p)
}


// ---------------------------------------------------------------------------
// Style

/// A trimmed style line that yields no node and takes no id: empty or `}`.
pub open spec fn style_skipped(line: Seq<char>) -> bool {
    line.len() == 0 || line == seq!['}']
}

/// The node of a trimmed, not skipped style line: a rule for `selector {`, a declaration for
/// `property: value`.
pub open spec fn style_stmt_node(line: Seq<char>, id: Seq<char>, abs: int) -> Option<NodeSpec> {
    if ends_with(line, seq!['{']) {
        let selector = trim(line.drop_last());
        if selector.len() > 0 {
            Some(leaf(id, "style_rule"@, selector, abs))
        } else {
            None
        }
    } else {
        let k = find_from(line, CharClass::Exactly(':'), true, 0);
        if k < line.len() {
            let property = trim(line.take(k));
            if property.len() > 0 {
                Some(leaf(id, "style_declaration"@, property, abs))
            } else {
                None
            }
        } else {
            None
        }
    }
}

/// The children of a style block with content lines `ls`, for its first `n` lines.
pub open spec fn style_children_upto(ls: Seq<Seq<char>>, start: int, prefix: Seq<char>, n: int) -> Seq<NodeSpec>
    decreases n,
{
    if n <= 0 {
        seq![]
    } else {
        let prev = style_children_upto(ls, start, prefix, n - 1);
        let line = trim(ls[n - 1]);
        if style_skipped(line) {
            prev
        } else {
            match style_stmt_node(line, child_id(prefix, prev.len()), start + n - 1) {
                Some(x) => prev.push(x),
                None => prev,
            }
        }
    }
}

/// The children of a style block whose content starts on line `start`.
pub open spec fn spec_style_children(content: Seq<char>, start: int, prefix: Seq<char>) -> Seq<NodeSpec> {
    style_children_upto(lines(content), start, prefix, lines(content).len() as int)
}

/// Line numbers of the rules and declarations of a style block fit in `u32`.
pub open spec fn style_lines_fit(content: Seq<char>, start: int) -> bool {
    forall|idx: int|
        0 <= idx < lines(content).len() && !style_skipped(trim(#[trigger] lines(content)[idx]))
            ==> start + idx <= u32::MAX
}

fn style_stmt_node_exec(line: &[char], id: &[char], abs: u32) -> (r: Option<Node>)
    ensures
        opt_node_is(r, style_stmt_node(line@, id@, abs as int)),
{
    if line.len() > 0 && line[line.len() - 1] == '{' {
        assert(crate::text::ends_with(line@, seq!['{'])) by {
            assert(line@.subrange(line@.len() - 1, line@.len() as int) =~= seq!['{']);
        }
        let raw = copy_range(line, 0, line.len() - 1);
        let selector = trim_ws(&raw);
        if selector.len() > 0 {
            return Some(leaf_node(id, "style_rule", &selector, abs));
        }
        return None;
    }
    assert(!crate::text::ends_with(line@, seq!['{'])) by {
        if crate::text::ends_with(line@, seq!['{']) {
            assert(line@.subrange(line@.len() - 1, line@.len() as int)[0] == line@[line@.len() - 1]);
        }
    }
    let k = scan(line, CharClass::Exactly(':'), true, 0);
    if k < line.len() {
        let raw = copy_range(line, 0, k);
        let property = trim_ws(&raw);
        if property.len() > 0 {
            return Some(leaf_node(id, "style_declaration", &property, abs));
        }
    }
    None
}

pub fn style_children_chars(content: &[char], start_line: u32, prefix: &[char]) -> (r: Vec<Node>)
    requires
        style_lines_fit(content@, start_line as int),
    ensures
        nodes_are(r@, spec_style_children(content@, start_line as int, prefix@)),
{
    let ls = split_lines(content);
    let ghost lv = lines(content@);
    let mut children: Vec<Node> = Vec::new();
    let mut idx: usize = 0;
    while idx < ls.len()
        invariant
            idx <= ls@.len(),
            views(ls@) == lv,
            lv == lines(content@),
            style_lines_fit(content@, start_line as int),
            nodes_are(children@, style_children_upto(lv, start_line as int, prefix@, idx as int)),
        decreases ls@.len() - idx,
    {
        assert(ls@[idx as int]@ == lv[idx as int]);
        let line = trim_ws(ls[idx].as_slice());
        let skip = line.len() == 0 || (line.len() == 1 && line[0] == '}');
        assert(skip == style_skipped(line@)) by {
            if line@.len() == 1 && line@[0] == '}' {
                assert(line@ =~= seq!['}']);
            }
        }
        if !skip {
            assert(start_line + idx <= u32::MAX);
            let abs = start_line + idx as u32;
            let cid = child_id_chars(prefix, children.len());
            match style_stmt_node_exec(&line, &cid, abs) {
                Some(n) => {
                    children.push(n);
                },
                None => {},
            }
        }
        idx += 1;
    }
    children
}

/// The children of a style block: one node per rule (`selector {`) and per declaration
/// (`property: value`), with ids `prefix.0`, `prefix.1`, ...
pub fn extract_style_children(content: &str, start_line: u32, id_prefix: &str) -> (r: Vec<Node>)
    requires
        style_lines_fit(content@, start_line as int),
    ensures
        nodes_are(r@, spec_style_children(content@, start_line as int, id_prefix@)),
{
    let c = to_chars(content);
    let p = to_chars(id_prefix);
    style_children_chars(&c, start_line, &p)
}


// ---------------------------------------------------------------------------
// Template

/// An element node: its children are the attribute labels, with ids `id.0`, `id.1`, ...
pub open spec fn element_node(tag: Seq<char>, attrs: Seq<char>, id: Seq<char>, abs: int) -> NodeSpec {
    let labels = spec_attr_labels(attrs);
    NodeSpec {
        id,
        node_type: "element"@,
        label: tag,
        start_line: abs,
        end_line: abs,
        content_hash: seq![],
        children: Seq::new(
            labels.len(),
            |i: int| leaf(child_id(id, i as nat), "attribute"@, labels[i], abs),
        ),
    }
}

/// Element nodes for `tags`, numbered from `base` under `prefix`.
pub open spec fn elements_of(tags: Seq<(Seq<char>, Seq<char>)>, abs: int, prefix: Seq<char>, base: nat) -> Seq<NodeSpec> {
    Seq::new(
        tags.len(),
        |k: int| element_node(tags[k].0, tags[k].1, child_id(prefix, (base + k) as nat), abs),
    )
}

/// Interpolation nodes for `labels`, numbered from `base` under `prefix`.
pub open spec fn interpolations_of(labels: Seq<Seq<char>>, abs: int, prefix: Seq<char>, base: nat) -> Seq<NodeSpec> {
    Seq::new(
        labels.len(),
        |j: int| leaf(child_id(prefix, (base + j) as nat), "interpolation"@, labels[j], abs),
    )
}

/// The nodes of one markup line: its elements, then its interpolations, numbered from `base`.
pub open spec fn template_line_nodes(line: Seq<char>, abs: int, prefix: Seq<char>, base: nat) -> Seq<NodeSpec> {
    let tags = template_tags(line);
    elements_of(tags, abs, prefix, base) + interpolations_of(
        spec_brace_labels(line),
        abs,
        prefix,
        base + tags.len(),
    )
}

/// The children of the template block with content lines `ls`, for its first `n` lines.
pub open spec fn template_children_upto(ls: Seq<Seq<char>>, start: int, prefix: Seq<char>, n: int) -> Seq<NodeSpec>
    decreases n,
{
    if n <= 0 {
        seq![]
    } else {
        let prev = template_children_upto(ls, start, prefix, n - 1);
        prev + template_line_nodes(ls[n - 1], start + n - 1, prefix, prev.len())
    }
}

/// The children of the template block whose content starts on line `start`.
pub open spec fn spec_template_children(content: Seq<char>, start: int, prefix: Seq<char>) -> Seq<NodeSpec> {
    template_children_upto(lines(content), start, prefix, lines(content).len() as int)
}

/// Line numbers of all content lines of a template block fit in `u32`.
pub open spec fn template_lines_fit(content: Seq<char>, start: int) -> bool {
    start + lines(content).len() <= u32::MAX + 1
}

pub fn element_node_exec(tag: &[char], attrs: &[char], id: &[char], abs: u32) -> (r: Node)
    ensures
        node_is(r, element_node(tag@, attrs@, id@, abs as int)),
{
    let labels = parse_attr_labels_chars(attrs);
    let ghost lv = spec_attr_labels(attrs@);
    let ghost spec_kids = element_node(tag@, attrs@, id@, abs as int).children;
    let mut kids: Vec<Node> = Vec::new();
    let mut i: usize = 0;
    while i < labels.len()
        invariant
            i <= labels@.len(),
            crate::text::views(labels@) == lv,
            lv == spec_attr_labels(attrs@),
            spec_kids == element_node(tag@, attrs@, id@, abs as int).children,
            nodes_are(kids@, spec_kids.take(i as int)),
        decreases labels@.len() - i,
    {
        assert(labels@[i as int]@ == lv[i as int]);
        let aid = child_id_chars(id, i);
        let kid = leaf_node(&aid, "attribute", labels[i].as_slice(), abs);
        kids.push(kid);
        i += 1;
        assert(spec_kids.take(i as int) =~= spec_kids.take(i - 1).push(spec_kids[i - 1]));
    }
    assert(spec_kids.take(labels@.len() as int) =~= spec_kids);
    let empty: Vec<char> = Vec::new();
    let r = new_node(id, "element", tag, abs, abs, &empty, kids);
    r
}

/// Appends the nodes of one markup line to `children`, numbering them after the nodes already there.
fn push_template_line(
    children: &mut Vec<Node>,
    line: &[char],
    abs: u32,
    prefix: &[char],
    Ghost(prev): Ghost<Seq<NodeSpec>>,
)
    requires
        nodes_are(old(children)@, prev),
    ensures
        nodes_are(final(children)@, prev + template_line_nodes(line@, abs as int, prefix@, prev.len())),
{
    let ghost f = |seg: Seq<char>| spec_parse_tag_segment(seg);
    let ghost absi = abs as int;
    let ghost base = prev.len();
    let segs = segments_chars(line);
    let ghost sv = views(segs@);
    let mut si: usize = 0;
    while si < segs.len()
        invariant
            si <= segs@.len(),
            sv == views(segs@),
            sv == segments(line@),
            absi == abs as int,
            f == (|seg: Seq<char>| spec_parse_tag_segment(seg)),
            base == prev.len(),
            nodes_are(children@, prev + elements_of(sv.take(si as int).filter_map(f), absi, prefix@, base)),
        decreases segs@.len() - si,
    {
        assert(segs@[si as int]@ == sv[si as int]);
        let ghost tp = sv.take(si as int).filter_map(f);
        let ghost t = sv.take(si + 1);
        assert(t.drop_last() =~= sv.take(si as int));
        assert(t.last() == sv[si as int]);
        match parse_tag_segment_chars(segs[si].as_slice()) {
            Some((tag, attrs)) => {
                assert(f(t.last()) == Some((tag@, attrs@)));
                assert(t.filter_map(f) == tp + seq![(tag@, attrs@)]);
                assert(children@.len() == base + tp.len());
                let cid = child_id_chars(prefix, children.len());
                let el = element_node_exec(&tag, &attrs, &cid, abs);
                let ghost es = element_node(tag@, attrs@, child_id(prefix@, (base + tp.len()) as nat), absi);
                assert(node_is(el, es));
                proof {
                    crate::node::lemma_nodes_push(children@, prev + elements_of(tp, absi, prefix@, base), el, es);
                }
                children.push(el);
                assert(elements_of(t.filter_map(f), absi, prefix@, base) =~= elements_of(tp, absi, prefix@, base).push(es));
                assert(prev + elements_of(t.filter_map(f), absi, prefix@, base) =~= (prev + elements_of(tp, absi, prefix@, base)).push(es));
            },
            None => {
                assert(f(t.last()) is None);
                assert(t.filter_map(f) == tp);
            },
        }
        si += 1;
    }
    assert(sv.take(segs@.len() as int) =~= sv);
    let ghost tags = template_tags(line@);
    assert(sv.filter_map(f) == tags);
    let ghost els = prev + elements_of(tags, absi, prefix@, base);
    let labels = brace_labels_chars(line);
    let ghost bl = spec_brace_labels(line@);
    let mut j: usize = 0;
    while j < labels.len()
        invariant
            j <= labels@.len(),
            views(labels@) == bl,
            absi == abs as int,
            els.len() == base + tags.len(),
            nodes_are(children@, els + interpolations_of(bl.take(j as int), absi, prefix@, base + tags.len())),
        decreases labels@.len() - j,
    {
        assert(labels@[j as int]@ == bl[j as int]);
        assert(children@.len() == base + tags.len() + j);
        let cid = child_id_chars(prefix, children.len());
        let node = leaf_node(&cid, "interpolation", labels[j].as_slice(), abs);
        let ghost ls = leaf(child_id(prefix@, (base + tags.len() + j) as nat), "interpolation"@, bl[j as int], absi);
        assert(node_is(node, ls));
        proof {
            crate::node::lemma_nodes_push(
                children@,
                els + interpolations_of(bl.take(j as int), absi, prefix@, base + tags.len()),
                node,
                ls,
            );
        }
        children.push(node);
        j += 1;
        assert(els + interpolations_of(bl.take(j as int), absi, prefix@, base + tags.len()) =~= (els
            + interpolations_of(bl.take(j - 1), absi, prefix@, base + tags.len())).push(ls));
    }
    assert(bl.take(labels@.len() as int) =~= bl);
    assert(els + interpolations_of(bl, absi, prefix@, base + tags.len()) =~= prev + template_line_nodes(line@, absi, prefix@, base));
}

pub fn template_children_chars(content: &[char], start_line: u32, prefix: &[char]) -> (r: Vec<Node>)
    requires
        template_lines_fit(content@, start_line as int),
    ensures
        nodes_are(r@, spec_template_children(content@, start_line as int, prefix@)),
{
    let ls = split_lines(content);
    let ghost lv = lines(content@);
    let mut children: Vec<Node> = Vec::new();
    let mut idx: usize = 0;
    while idx < ls.len()
        invariant
            idx <= ls@.len(),
            views(ls@) == lv,
            lv == lines(content@),
            template_lines_fit(content@, start_line as int),
            nodes_are(children@, template_children_upto(lv, start_line as int, prefix@, idx as int)),
        decreases ls@.len() - idx,
    {
        assert(ls@[idx as int]@ == lv[idx as int]);
        let abs = start_line + idx as u32;
        let ghost prev = template_children_upto(lv, start_line as int, prefix@, idx as int);
        push_template_line(&mut children, ls[idx].as_slice(), abs, prefix, Ghost(prev));
        idx += 1;
    }
    children
}

/// The children of the template block: for each line, its elements (with their attributes as
/// children), then its `{...}` interpolations, with ids `prefix.0`, `prefix.1`, ...
pub fn extract_template_children(content: &str, start_line: u32, id_prefix: &str) -> (r: Vec<Node>)
    requires
        template_lines_fit(content@, start_line as int),
    ensures
        nodes_are(r@, spec_template_children(content@, start_line as int, id_prefix@)),
{
    let c = to_chars(content);
    let p = to_chars(id_prefix);
    template_children_chars(&c, start_line, &p)
}

} // verus!
