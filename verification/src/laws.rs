//! Properties of the parser that hold for every input.

use vstd::prelude::*;
use crate::blocks::{
    BlockSpec, block_open, close_line, closed_block, open_block, scan_from, template_block,
    spec_extract_blocks, is_module_script, is_global_style, label_of, lemma_close_from,
};
use crate::text::{
    lines, starts_with, join_upto, trim, find_from, keep_end, lemma_find_from, CharClass,
    is_white_space, in_class, trim_in, trim_end_in, trim_start_in, lemma_keep_end, words_from,
};
use crate::node::{NodeSpec, child_id, leaf};
use crate::children::{
    script_children_upto, script_stmt_node, style_children_upto, style_stmt_node,
    template_children_upto, template_line_nodes, elements_of, interpolations_of, script_skipped,
    style_skipped,
};
use crate::component::{spec_component_tree, sort_blocks, insert_pos, block_node};
use crate::script::spec_normalize_statement;

verus! {

broadcast use vstd::string::group_string_axioms;

/// Block `b` was opened on its start line by a `script` or `style` tag, and is the closed or
/// unclosed block that the opening gives.
pub open spec fn opened_on_start_line(ls: Seq<Seq<char>>, b: BlockSpec) -> bool {
    &&& 0 <= b.start_line < ls.len()
    &&& block_open(ls[b.start_line]) is Some
    &&& ({
        let (tag, attrs) = block_open(ls[b.start_line])->0;
        match close_line(ls, tag, b.start_line) {
            Some(j) => b == closed_block(ls, tag, attrs, b.start_line, j),
            None => b == open_block(ls, tag, attrs, b.start_line),
        }
    })
}

proof fn lemma_scan_origin(ls: Seq<Seq<char>>, i: int, tmpl: Seq<int>, blocks: Seq<BlockSpec>)
    requires
        0 <= i,
        forall|k: int| 0 <= k < blocks.len() ==> opened_on_start_line(ls, #[trigger] blocks[k]),
    ensures
        forall|k: int| 0 <= k < scan_from(ls, i, tmpl, blocks).1.len() ==> opened_on_start_line(
            ls,
            #[trigger] scan_from(ls, i, tmpl, blocks).1[k],
        ),
    decreases ls.len() - i,
{
    if i < ls.len() {
        match block_open(ls[i]) {
            Some((tag, attrs)) => {
                lemma_close_from(ls, tag, i, i);
                match close_line(ls, tag, i) {
                    Some(j) => {
                        let nb = closed_block(ls, tag, attrs, i, j);
                        assert(opened_on_start_line(ls, nb));
                        let bs = blocks.push(nb);
                        assert forall|k: int| 0 <= k < bs.len() implies opened_on_start_line(ls, #[trigger] bs[k]) by {
                            if k < blocks.len() {
                                assert(bs[k] == blocks[k]);
                            }
                        }
                        assert(scan_from(ls, i, tmpl, blocks) == scan_from(ls, j + 1, tmpl, bs));
                        lemma_scan_origin(ls, j + 1, tmpl, bs);
                        let r = scan_from(ls, j + 1, tmpl, bs).1;
                        assert forall|k: int| 0 <= k < r.len() implies opened_on_start_line(ls, #[trigger] r[k]) by {}
                    },
                    None => {
                        let nb = open_block(ls, tag, attrs, i);
                        assert(opened_on_start_line(ls, nb));
                        let bs = blocks.push(nb);
                        assert forall|k: int| 0 <= k < bs.len() implies opened_on_start_line(ls, #[trigger] bs[k]) by {
                            if k < blocks.len() {
                                assert(bs[k] == blocks[k]);
                            }
                        }
                        assert(scan_from(ls, i, tmpl, blocks) == (tmpl, bs));
                    },
                }
            },
            None => {
                assert(scan_from(ls, i, tmpl, blocks) == scan_from(ls, i + 1, tmpl.push(i), blocks));
                lemma_scan_origin(ls, i + 1, tmpl.push(i), blocks);
                let r = scan_from(ls, i + 1, tmpl.push(i), blocks).1;
                assert forall|k: int| 0 <= k < r.len() implies opened_on_start_line(ls, #[trigger] r[k]) by {}
            },
        }
    }
}

/// Every block of a component except the template block comes from the `script` or `style` tag
/// on its start line; the template block, if any, is the last one.
pub proof fn lemma_block_origin(source: Seq<char>, k: int)
    requires
        0 <= k < spec_extract_blocks(source).len(),
    ensures
        spec_extract_blocks(source)[k].node_type != "template_body"@ ==> opened_on_start_line(
            lines(source),
            spec_extract_blocks(source)[k],
        ),
        spec_extract_blocks(source)[k].node_type == "template_body"@ ==> k == spec_extract_blocks(
            source,
        ).len() - 1,
{
    let ls = lines(source);
    lemma_scan_origin(ls, 0, seq![], seq![]);
    let (t, b) = scan_from(ls, 0, seq![], seq![]);
    reveal_strlit("template_body");
    reveal_strlit("script_block");
    reveal_strlit("style_block");
    if k < b.len() {
        assert(spec_extract_blocks(source)[k] == b[k]);
        let x = b[k];
        assert(x.node_type == "script_block"@ || x.node_type == "style_block"@);
        assert(x.node_type != "template_body"@) by {
            assert(x.node_type.len() != "template_body"@.len());
        }
    }
}

/// A script block whose opening tag says `context="module"` (or with single quotes),
/// in any case, is labelled `script:module` (followed by `:lang` when the tag gives a `lang`).
pub proof fn lemma_module_script_label(source: Seq<char>, k: int)
    requires
        0 <= k < spec_extract_blocks(source).len(),
        spec_extract_blocks(source)[k].node_type == "script_block"@,
        ({
            let ls = lines(source);
            let b = spec_extract_blocks(source)[k];
            &&& 0 <= b.start_line < ls.len()
            &&& block_open(ls[b.start_line]) matches Some((tag, attrs))
            &&& (crate::text::contains(crate::text::to_lower(attrs), "context=\"module\""@)
                || crate::text::contains(crate::text::to_lower(attrs), "context='module'"@))
        }),
    ensures
        starts_with(spec_extract_blocks(source)[k].label, "script:module"@),
{
    lemma_block_origin(source, k);
    reveal_strlit("template_body");
    reveal_strlit("script_block");
    let ls = lines(source);
    let b = spec_extract_blocks(source)[k];
    assert(b.node_type != "template_body"@) by {
        assert(b.node_type.len() != "template_body"@.len());
    }
    let (tag, attrs) = block_open(ls[b.start_line])->0;
    lemma_flag_label("script"@, "module"@, crate::tags::spec_attr_lang(attrs));
    reveal_strlit("style_block");
    assert(tag == "script"@) by {
        if tag != "script"@ {
            assert(crate::blocks::block_node_type(tag) == "style_block"@);
            assert(b.node_type.len() != "style_block"@.len());
        }
    }
    assert(b.label == crate::blocks::block_label(tag, attrs));
    assert(b.label == label_of("script"@, Some("module"@), crate::tags::spec_attr_lang(attrs)));
    reveal_strlit("script");
    reveal_strlit("module");
    reveal_strlit("script:module");
    assert("script"@ + seq![':'] + "module"@ =~= "script:module"@);
}

/// A style block whose opening tag mentions `global`, in any case, is labelled
/// `style:global` (followed by `:lang` when the tag gives a `lang`).
pub proof fn lemma_global_style_label(source: Seq<char>, k: int)
    requires
        0 <= k < spec_extract_blocks(source).len(),
        spec_extract_blocks(source)[k].node_type == "style_block"@,
        ({
            let ls = lines(source);
            let b = spec_extract_blocks(source)[k];
            &&& 0 <= b.start_line < ls.len()
            &&& block_open(ls[b.start_line]) matches Some((tag, attrs))
            &&& crate::text::contains(crate::text::to_lower(attrs), "global"@)
        }),
    ensures
        starts_with(spec_extract_blocks(source)[k].label, "style:global"@),
{
    lemma_block_origin(source, k);
    reveal_strlit("template_body");
    reveal_strlit("script_block");
    reveal_strlit("style_block");
    let ls = lines(source);
    let b = spec_extract_blocks(source)[k];
    assert(b.node_type != "template_body"@) by {
        assert(b.node_type.len() != "template_body"@.len());
    }
    let (tag, attrs) = block_open(ls[b.start_line])->0;
    lemma_flag_label("style"@, "global"@, crate::tags::spec_attr_lang(attrs));
    assert(tag != "script"@) by {
        if tag == "script"@ {
            assert(crate::blocks::block_node_type(tag) == "script_block"@);
            assert(b.node_type.len() != "script_block"@.len());
        }
    }
    assert(b.label == crate::blocks::block_label(tag, attrs));
    assert(b.label == label_of("style"@, Some("global"@), crate::tags::spec_attr_lang(attrs)));
    reveal_strlit("style");
    reveal_strlit("global");
    reveal_strlit("style:global");
    assert("style"@ + seq![':'] + "global"@ =~= "style:global"@);
}

proof fn lemma_flag_label(first: Seq<char>, flag: Seq<char>, lang: Option<Seq<char>>)
    ensures
        starts_with(label_of(first, Some(flag), lang), first + seq![':'] + flag),
{
    let a = seq![first].push(flag);
    let two = join_upto(a, seq![':'], 2);
    assert(join_upto(a, seq![':'], 1) == first);
    assert(two == first + seq![':'] + flag);
    match lang {
        Some(l) => {
            let c = a.push(l);
            assert(join_upto(c, seq![':'], 1) == first);
            assert(join_upto(c, seq![':'], 2) == two);
            assert(label_of(first, Some(flag), lang) == two + seq![':'] + l);
            assert((two + seq![':'] + l).subrange(0, two.len() as int) =~= two);
        },
        None => {
            assert(label_of(first, Some(flag), lang) == two);
            assert(two.subrange(0, two.len() as int) =~= two);
        },
    }
}

// ---------------------------------------------------------------------------
// Order of the blocks

/// The blocks are ordered by start line.
pub open spec fn ordered_by_start(bs: Seq<BlockSpec>) -> bool {
    forall|a: int, b: int| 0 <= a < b < bs.len() ==> bs[a].start_line <= bs[b].start_line
}

/// Sorting by start line gives blocks ordered by start line.
pub proof fn lemma_sort_blocks_ordered(bs: Seq<BlockSpec>)
    ensures
        ordered_by_start(sort_blocks(bs)),
        sort_blocks(bs).len() == bs.len(),
    decreases bs.len(),
{
    if bs.len() > 0 {
        let rest = bs.drop_last();
        lemma_sort_blocks_ordered(rest);
        let s = sort_blocks(rest);
        let x = bs.last();
        let p = insert_pos(s, x.start_line, 0);
        crate::component::lemma_insert_pos(s, x.start_line, 0);
        let r = s.insert(p, x);
        assert(r == sort_blocks(bs));
        assert forall|a: int, b: int| 0 <= a < b < r.len() implies r[a].start_line <= r[b].start_line by {
            let ra = if a < p { s[a] } else if a == p { x } else { s[a - 1] };
            let rb = if b < p { s[b] } else if b == p { x } else { s[b - 1] };
            assert(r[a] == ra);
            assert(r[b] == rb);
            if a < p && b == p {
            } else if a == p && b > p {
                assert(s[p].start_line > x.start_line);
                if b - 1 > p {
                    assert(s[p].start_line <= s[b - 1].start_line);
                }
            } else if a < p && b > p {
                assert(s[a].start_line <= x.start_line);
            }
        }
    }
}

/// The block nodes under the root of a component's tree are ordered by start line.
pub proof fn lemma_root_children_ordered(source: Seq<char>, filename: Seq<char>)
    ensures
        forall|a: int, b: int|
            0 <= a < b < spec_component_tree(source, filename).children.len() ==> spec_component_tree(
                source,
                filename,
            ).children[a].start_line <= spec_component_tree(source, filename).children[b].start_line,
{
    let bs = sort_blocks(spec_extract_blocks(source));
    lemma_sort_blocks_ordered(spec_extract_blocks(source));
    let t = spec_component_tree(source, filename);
    assert forall|a: int, b: int| 0 <= a < b < t.children.len() implies t.children[a].start_line
        <= t.children[b].start_line by {
        assert(t.children[a].start_line == bs[a].start_line);
        assert(t.children[b].start_line == bs[b].start_line);
    }
}

// ---------------------------------------------------------------------------
// Node ids

/// Every child's id is its parent's id, a `.`, and its position among its siblings.
pub open spec fn ids_consistent(s: NodeSpec) -> bool
    decreases s,
{
    forall|i: int|
        0 <= i < s.children.len() ==> (#[trigger] s.children[i]).id == child_id(s.id, i as nat)
            && ids_consistent(s.children[i])
}

/// The nodes of `ss` have ids `prefix.0`, `prefix.1`, ... and consistent ids below them.
pub open spec fn numbered_under(ss: Seq<NodeSpec>, prefix: Seq<char>) -> bool {
    forall|k: int|
        0 <= k < ss.len() ==> (#[trigger] ss[k]).id == child_id(prefix, k as nat) && ids_consistent(
            ss[k],
        )
}

proof fn lemma_numbered_push(ss: Seq<NodeSpec>, prefix: Seq<char>, x: NodeSpec)
    requires
        numbered_under(ss, prefix),
        x.id == child_id(prefix, ss.len()),
        ids_consistent(x),
    ensures
        numbered_under(ss.push(x), prefix),
{
    assert forall|k: int| 0 <= k < ss.push(x).len() implies (#[trigger] ss.push(x)[k]).id == child_id(
        prefix,
        k as nat,
    ) && ids_consistent(ss.push(x)[k]) by {
        if k < ss.len() {
            assert(ss.push(x)[k] == ss[k]);
        }
    }
}

proof fn lemma_script_ids(ls: Seq<Seq<char>>, start: int, prefix: Seq<char>, n: int)
    ensures
        numbered_under(script_children_upto(ls, start, prefix, n), prefix),
    decreases n,
{
    if n > 0 {
        lemma_script_ids(ls, start, prefix, n - 1);
        let prev = script_children_upto(ls, start, prefix, n - 1);
        let line = spec_normalize_statement(ls[n - 1]);
        if !script_skipped(line) {
            let id = child_id(prefix, prev.len());
            match script_stmt_node(line, id, start + n - 1) {
                Some(x) => {
                    assert(ids_consistent(x)) by {
                        if x.children.len() > 0 {
                            assert(x.children[0].id == child_id(x.id, 0));
                            assert(ids_consistent(x.children[0]));
                        }
                    }
                    lemma_numbered_push(prev, prefix, x);
                },
                None => {},
            }
        }
    }
}

proof fn lemma_style_ids(ls: Seq<Seq<char>>, start: int, prefix: Seq<char>, n: int)
    ensures
        numbered_under(style_children_upto(ls, start, prefix, n), prefix),
    decreases n,
{
    if n > 0 {
        lemma_style_ids(ls, start, prefix, n - 1);
        let prev = style_children_upto(ls, start, prefix, n - 1);
        let line = crate::text::trim(ls[n - 1]);
        if !style_skipped(line) {
            match style_stmt_node(line, child_id(prefix, prev.len()), start + n - 1) {
                Some(x) => {
                    assert(ids_consistent(x));
                    lemma_numbered_push(prev, prefix, x);
                },
                None => {},
            }
        }
    }
}

proof fn lemma_template_ids(ls: Seq<Seq<char>>, start: int, prefix: Seq<char>, n: int)
    ensures
        numbered_under(template_children_upto(ls, start, prefix, n), prefix),
    decreases n,
{
    if n > 0 {
        lemma_template_ids(ls, start, prefix, n - 1);
        let prev = template_children_upto(ls, start, prefix, n - 1);
        let base = prev.len();
        let abs = start + n - 1;
        let line = ls[n - 1];
        let nodes = template_line_nodes(line, abs, prefix, base);
        let all = prev + nodes;
        let tags = crate::tags::template_tags(line);
        let els = elements_of(tags, abs, prefix, base);
        let ints = interpolations_of(crate::tags::spec_brace_labels(line), abs, prefix, base + tags.len());
        assert(nodes == els + ints);
        assert forall|k: int| 0 <= k < all.len() implies (#[trigger] all[k]).id == child_id(
            prefix,
            k as nat,
        ) && ids_consistent(all[k]) by {
            if k < base {
                assert(all[k] == prev[k]);
            } else if k < base + tags.len() {
                let e = els[k - base];
                assert(all[k] == e);
                assert(ids_consistent(e)) by {
                    assert forall|i: int| 0 <= i < e.children.len() implies (#[trigger] e.children[i]).id
                        == child_id(e.id, i as nat) && ids_consistent(e.children[i]) by {
                    }
                }
            } else {
                assert(all[k] == ints[k - base - tags.len()]);
            }
        }
    }
}

/// In the tree of every component, each child's id is its parent's id followed by `.` and its
/// position among its siblings; the root's id is `0`.
pub proof fn lemma_tree_ids(source: Seq<char>, filename: Seq<char>)
    ensures
        spec_component_tree(source, filename).id == "0"@,
        ids_consistent(spec_component_tree(source, filename)),
{
    let t = spec_component_tree(source, filename);
    let bs = sort_blocks(spec_extract_blocks(source));
    assert forall|k: int| 0 <= k < t.children.len() implies (#[trigger] t.children[k]).id == child_id(
        t.id,
        k as nat,
    ) && ids_consistent(t.children[k]) by {
        let b = bs[k];
        let id = child_id("0"@, k as nat);
        assert(t.children[k] == block_node(b, id));
        let c = block_node(b, id).children;
        let ls = lines(b.content);
        lemma_script_ids(ls, b.content_start_line, id, ls.len() as int);
        lemma_style_ids(ls, b.content_start_line, id, ls.len() as int);
        lemma_template_ids(ls, b.content_start_line, id, ls.len() as int);
        assert(numbered_under(c, id));
        assert forall|i: int| 0 <= i < c.len() implies (#[trigger] c[i]).id == child_id(id, i as nat)
            && ids_consistent(c[i]) by {}
    }
}


// ---------------------------------------------------------------------------
// Template lines

/// The script and style blocks of a component, in the order found.
pub open spec fn script_style_blocks(source: Seq<char>) -> Seq<BlockSpec> {
    scan_from(lines(source), 0, seq![], seq![]).1
}

/// Block `b` spans line `n`.
pub open spec fn spans(b: BlockSpec, n: int) -> bool {
    b.start_line <= n <= b.end_line
}

/// Some block of `bs` spans line `n`.
pub open spec fn spanned(bs: Seq<BlockSpec>, n: int) -> bool {
    exists|k: int| 0 <= k < bs.len() && spans(#[trigger] bs[k], n)
}

/// The lines below `m` that no block of `bs` spans, in increasing order.
pub open spec fn unspanned_upto(bs: Seq<BlockSpec>, m: int) -> Seq<int>
    decreases m,
{
    if m <= 0 {
        seq![]
    } else {
        let p = unspanned_upto(bs, m - 1);
        if spanned(bs, m - 1) {
            p
        } else {
            p.push(m - 1)
        }
    }
}

/// Blocks follow each other without overlapping: each ends before the next starts.
pub open spec fn disjoint_in_order(bs: Seq<BlockSpec>) -> bool {
    &&& forall|k: int| 0 <= k < bs.len() ==> (#[trigger] bs[k]).start_line <= bs[k].end_line
    &&& forall|a: int, b: int| 0 <= a < b < bs.len() ==> bs[a].end_line < bs[b].start_line
}

proof fn lemma_unspanned_new_block(bs: Seq<BlockSpec>, nb: BlockSpec, m: int)
    requires
        m <= nb.start_line,
    ensures
        unspanned_upto(bs.push(nb), m) == unspanned_upto(bs, m),
    decreases m,
{
    if m > 0 {
        lemma_unspanned_new_block(bs, nb, m - 1);
        let b2 = bs.push(nb);
        if spanned(b2, m - 1) {
            let k = choose|k: int| 0 <= k < b2.len() && spans(#[trigger] b2[k], m - 1);
            assert(k < bs.len());
            assert(bs[k] == b2[k]);
            assert(spanned(bs, m - 1));
        }
        if spanned(bs, m - 1) {
            let k = choose|k: int| 0 <= k < bs.len() && spans(#[trigger] bs[k], m - 1);
            assert(b2[k] == bs[k]);
            assert(spanned(b2, m - 1));
        }
    }
}

proof fn lemma_unspanned_skip(bs: Seq<BlockSpec>, a: int, m: int)
    requires
        0 <= a <= m,
        forall|n: int| a <= n < m ==> spanned(bs, n),
    ensures
        unspanned_upto(bs, m) == unspanned_upto(bs, a),
    decreases m - a,
{
    if m > a {
        lemma_unspanned_skip(bs, a, m - 1);
        assert(spanned(bs, m - 1));
    }
}

proof fn lemma_scan_partition(ls: Seq<Seq<char>>, i: int, tmpl: Seq<int>, blocks: Seq<BlockSpec>)
    requires
        0 <= i <= ls.len(),
        tmpl == unspanned_upto(blocks, i),
        disjoint_in_order(blocks),
        forall|k: int| 0 <= k < blocks.len() ==> 0 <= (#[trigger] blocks[k]).start_line && blocks[k].end_line < i,
    ensures
        ({
            let (t, b) = scan_from(ls, i, tmpl, blocks);
            &&& t == unspanned_upto(b, ls.len() as int)
            &&& disjoint_in_order(b)
            &&& forall|k: int| 0 <= k < b.len() ==> 0 <= (#[trigger] b[k]).start_line && b[k].end_line < ls.len()
        }),
    decreases ls.len() - i,
{
    if i < ls.len() {
        match block_open(ls[i]) {
            Some((tag, attrs)) => {
                lemma_close_from(ls, tag, i, i);
                let nb = match close_line(ls, tag, i) {
                    Some(j) => closed_block(ls, tag, attrs, i, j),
                    None => open_block(ls, tag, attrs, i),
                };
                let b2 = blocks.push(nb);
                assert(nb.start_line == i && i <= nb.end_line < ls.len());
                lemma_unspanned_new_block(blocks, nb, i);
                assert forall|n: int| i <= n <= nb.end_line implies spanned(b2, n) by {
                    assert(spans(b2[blocks.len() as int], n));
                }
                lemma_unspanned_skip(b2, i, nb.end_line + 1);
                assert(disjoint_in_order(b2)) by {
                    assert forall|a: int, b: int| 0 <= a < b < b2.len() implies b2[a].end_line < b2[b].start_line by {
                        if b < blocks.len() {
                            assert(b2[a] == blocks[a] && b2[b] == blocks[b]);
                        } else {
                            assert(b2[a] == blocks[a]);
                        }
                    }
                    assert forall|k: int| 0 <= k < b2.len() implies (#[trigger] b2[k]).start_line <= b2[k].end_line by {
                        if k < blocks.len() {
                            assert(b2[k] == blocks[k]);
                        }
                    }
                }
                assert forall|k: int| 0 <= k < b2.len() implies 0 <= (#[trigger] b2[k]).start_line && b2[k].end_line < nb.end_line + 1 by {
                    if k < blocks.len() {
                        assert(b2[k] == blocks[k]);
                    }
                }
                match close_line(ls, tag, i) {
                    Some(j) => {
                        lemma_scan_partition(ls, j + 1, tmpl, b2);
                    },
                    None => {},
                }
            },
            None => {
                assert(!spanned(blocks, i)) by {
                    if spanned(blocks, i) {
                        let k = choose|k: int| 0 <= k < blocks.len() && spans(#[trigger] blocks[k], i);
                    }
                }
                lemma_scan_partition(ls, i + 1, tmpl.push(i), blocks);
            },
        }
    }
}

/// The blocks of a component are its script and style blocks, which follow each other without
/// overlapping, then, when some line lies outside all of them, the template block made of
/// exactly those lines.
pub proof fn lemma_template_is_the_rest(source: Seq<char>)
    ensures
        disjoint_in_order(script_style_blocks(source)),
        ({
            let ls = lines(source);
            let bs = script_style_blocks(source);
            let rest = unspanned_upto(bs, ls.len() as int);
            spec_extract_blocks(source) == if rest.len() > 0 {
                bs.push(template_block(ls, rest))
            } else {
                bs
            }
        }),
{
    let ls = lines(source);
    assert(unspanned_upto(seq![], 0) == Seq::<int>::empty());
    lemma_scan_partition(ls, 0, seq![], seq![]);
}


// ---------------------------------------------------------------------------
// Shape of the block list

/// Every block of a component is a script, style or template block; a template block can only
/// be the last one; an empty source has no blocks.
pub proof fn lemma_blocks_shape(source: Seq<char>)
    ensures
        forall|k: int|
            0 <= k < spec_extract_blocks(source).len() ==> {
                let t = (#[trigger] spec_extract_blocks(source)[k]).node_type;
                t == "script_block"@ || t == "style_block"@ || t == "template_body"@
            },
        forall|k: int|
            0 <= k < spec_extract_blocks(source).len() && (#[trigger] spec_extract_blocks(
                source,
            )[k]).node_type == "template_body"@ ==> k == spec_extract_blocks(source).len() - 1,
        source.len() == 0 ==> spec_extract_blocks(source).len() == 0,
{
    let bs = spec_extract_blocks(source);
    assert forall|k: int| 0 <= k < bs.len() implies {
        let t = (#[trigger] bs[k]).node_type;
        t == "script_block"@ || t == "style_block"@ || t == "template_body"@
    } by {
        lemma_block_origin(source, k);
    }
    assert forall|k: int| 0 <= k < bs.len() && (#[trigger] bs[k]).node_type == "template_body"@ implies k
        == bs.len() - 1 by {
        lemma_block_origin(source, k);
    }
    if source.len() == 0 {
        assert(lines(source).len() == 0);
        assert(scan_from(lines(source), 0, seq![], seq![]) == (Seq::<int>::empty(), Seq::<BlockSpec>::empty()));
    }
}

// ---------------------------------------------------------------------------
// Attribute labels

proof fn lemma_filter_map_len(ws: Seq<Seq<char>>)
    ensures
        crate::tags::labels_of_words(ws).len() <= ws.len(),
        forall|k: int|
            0 <= k < crate::tags::labels_of_words(ws).len() ==> exists|w: Seq<char>|
                crate::tags::attr_label(w) == Some(#[trigger] crate::tags::labels_of_words(ws)[k]),
    decreases ws.len(),
{
    if ws.len() > 0 {
        lemma_filter_map_len(ws.drop_last());
        let r = crate::tags::labels_of_words(ws);
        let p = crate::tags::labels_of_words(ws.drop_last());
        assert forall|k: int| 0 <= k < r.len() implies exists|w: Seq<char>|
            crate::tags::attr_label(w) == Some(#[trigger] r[k]) by {
            if k < p.len() {
                assert(r[k] == p[k]);
            } else {
                assert(crate::tags::attr_label(ws.last()) == Some(r[k]));
            }
        }
    }
}

proof fn lemma_attr_label_shape(w: Seq<char>)
    ensures
        crate::tags::attr_label(w) matches Some(l) ==> l.len() > 0 && l[0] != '=',
{
    if let Some(l) = crate::tags::attr_label(w) {
        let clean = trim(crate::text::trim_end_char(crate::text::trim_end_char(trim(w), '>'), '/'));
        let k = find_from(clean, CharClass::Exactly('='), true, 0);
        lemma_find_from(clean, CharClass::Exactly('='), true, 0);
        let x = clean.take(k);
        let a = find_from(x, CharClass::WhiteSpace, false, 0);
        lemma_find_from(x, CharClass::WhiteSpace, false, 0);
        let y = x.skip(a);
        let name = trim(x);
        crate::text::lemma_keep_end(y, CharClass::WhiteSpace, y.len() as int);
        assert(name == y.take(keep_end(y, CharClass::WhiteSpace, y.len() as int)));
        assert(name.len() > 0);
        assert(name[0] == y[0]);
        assert(y[0] == x[a]);
        assert(x[a] == clean[a]);
        assert(l[0] == name[0]);
    }
}

/// No character of `s` is whitespace.
pub open spec fn blank_free(s: Seq<char>) -> bool {
    forall|i: int| 0 <= i < s.len() ==> !is_white_space(#[trigger] s[i])
}

proof fn lemma_blank_free_sub(s: Seq<char>, a: int, b: int)
    requires
        blank_free(s),
        0 <= a <= b <= s.len(),
    ensures
        blank_free(s.subrange(a, b)),
{
    let t = s.subrange(a, b);
    assert forall|i: int| 0 <= i < t.len() implies !is_white_space(#[trigger] t[i]) by {
        assert(t[i] == s[a + i]);
    }
}

proof fn lemma_blank_free_concat(a: Seq<char>, b: Seq<char>)
    requires
        blank_free(a),
        blank_free(b),
    ensures
        blank_free(a + b),
{
    let t = a + b;
    assert forall|i: int| 0 <= i < t.len() implies !is_white_space(#[trigger] t[i]) by {
        if i < a.len() {
            assert(t[i] == a[i]);
        } else {
            assert(t[i] == b[i - a.len()]);
        }
    }
}

proof fn lemma_blank_free_trim(s: Seq<char>, k: CharClass)
    requires
        blank_free(s),
    ensures
        blank_free(trim_in(s, k)),
        blank_free(trim_end_in(s, k)),
{
    lemma_find_from(s, k, false, 0);
    let a = find_from(s, k, false, 0);
    let t = trim_start_in(s, k);
    assert(t =~= s.subrange(a, s.len() as int));
    lemma_blank_free_sub(s, a, s.len() as int);
    lemma_keep_end(t, k, t.len() as int);
    let e = keep_end(t, k, t.len() as int);
    assert(trim_in(s, k) =~= t.subrange(0, e));
    lemma_blank_free_sub(t, 0, e);
    lemma_keep_end(s, k, s.len() as int);
    let f = keep_end(s, k, s.len() as int);
    assert(trim_end_in(s, k) =~= s.subrange(0, f));
    lemma_blank_free_sub(s, 0, f);
}

proof fn lemma_words_blank_free(s: Seq<char>, i: int)
    ensures
        forall|k: int|
            0 <= k < words_from(s, i).len() ==> blank_free(#[trigger] words_from(s, i)[k]),
    decreases s.len() - i,
{
    if 0 <= i < s.len() {
        lemma_find_from(s, CharClass::WhiteSpace, false, i);
        let a = find_from(s, CharClass::WhiteSpace, false, i);
        if a < s.len() {
            lemma_find_from(s, CharClass::WhiteSpace, true, a);
            let b = find_from(s, CharClass::WhiteSpace, true, a);
            assert(b > a);
            lemma_words_blank_free(s, b);
            let w = s.subrange(a, b);
            assert forall|j: int| 0 <= j < w.len() implies !is_white_space(#[trigger] w[j]) by {
                assert(w[j] == s[a + j]);
                assert(!in_class(CharClass::WhiteSpace, s[a + j]));
            }
            let r = words_from(s, i);
            let rest = words_from(s, b);
            assert(r == seq![w] + rest);
            assert forall|k: int| 0 <= k < r.len() implies blank_free(#[trigger] r[k]) by {
                if k > 0 {
                    assert(r[k] == rest[k - 1]);
                }
            }
        }
    }
}

proof fn lemma_attr_label_blank_free(w: Seq<char>)
    requires
        blank_free(w),
    ensures
        crate::tags::attr_label(w) matches Some(l) ==> blank_free(l),
{
    let ws = CharClass::WhiteSpace;
    lemma_blank_free_trim(w, ws);
    let t0 = trim(w);
    lemma_blank_free_trim(t0, CharClass::Exactly('>'));
    let t1 = crate::text::trim_end_char(t0, '>');
    lemma_blank_free_trim(t1, CharClass::Exactly('/'));
    let t2 = crate::text::trim_end_char(t1, '/');
    lemma_blank_free_trim(t2, ws);
    let clean = trim(t2);
    lemma_find_from(clean, CharClass::Exactly('='), true, 0);
    let k = find_from(clean, CharClass::Exactly('='), true, 0);
    assert(clean.take(k) =~= clean.subrange(0, k));
    lemma_blank_free_sub(clean, 0, k);
    lemma_blank_free_trim(clean.take(k), ws);
    let value = if k < clean.len() { clean.skip(k + 1) } else { seq![] };
    if k < clean.len() {
        assert(value =~= clean.subrange(k + 1, clean.len() as int));
        lemma_blank_free_sub(clean, k + 1, clean.len() as int);
    }
    lemma_blank_free_trim(value, ws);
    let v0 = trim(value);
    lemma_blank_free_trim(v0, CharClass::Exactly('"'));
    let v1 = crate::text::trim_char(v0, '"');
    lemma_blank_free_trim(v1, CharClass::Exactly('\''));
    let v2 = crate::text::trim_char(v1, '\'');
    lemma_blank_free_trim(v2, CharClass::Exactly('{'));
    let v3 = crate::text::trim_char(v2, '{');
    lemma_blank_free_trim(v3, CharClass::Exactly('}'));
    let v4 = crate::text::trim_char(v3, '}');
    let name = trim(clean.take(k));
    assert(blank_free(seq!['=']));
    lemma_blank_free_concat(name, seq!['=']);
    lemma_blank_free_concat(name + seq!['='], v4);
}

/// The attribute labels of an attribute text are at most as many as its words, and each is
/// non-empty, does not start with `=`, and holds no whitespace.
pub proof fn lemma_attr_labels_shape(attrs: Seq<char>)
    ensures
        crate::tags::spec_attr_labels(attrs).len() <= crate::text::words(attrs).len(),
        forall|k: int|
            0 <= k < crate::tags::spec_attr_labels(attrs).len() ==> (#[trigger] crate::tags::spec_attr_labels(
                attrs,
            )[k]).len() > 0 && crate::tags::spec_attr_labels(attrs)[k][0] != '='
                && blank_free(crate::tags::spec_attr_labels(attrs)[k]),
{
    let ws = crate::text::words(attrs);
    lemma_filter_map_len(ws);
    lemma_words_blank_free(attrs, 0);
    lemma_filter_map_blank_free(ws);
    let r = crate::tags::spec_attr_labels(attrs);
    assert forall|k: int| 0 <= k < r.len() implies (#[trigger] r[k]).len() > 0 && r[k][0] != '='
        && blank_free(r[k]) by {
        let w = choose|w: Seq<char>| crate::tags::attr_label(w) == Some(r[k]);
        lemma_attr_label_shape(w);
    }
}

proof fn lemma_filter_map_blank_free(ws: Seq<Seq<char>>)
    requires
        forall|k: int| 0 <= k < ws.len() ==> blank_free(#[trigger] ws[k]),
    ensures
        forall|k: int|
            0 <= k < crate::tags::labels_of_words(ws).len() ==> blank_free(
                #[trigger] crate::tags::labels_of_words(ws)[k],
            ),
    decreases ws.len(),
{
    if ws.len() > 0 {
        lemma_filter_map_blank_free(ws.drop_last());
        let r = crate::tags::labels_of_words(ws);
        let p = crate::tags::labels_of_words(ws.drop_last());
        lemma_attr_label_blank_free(ws.last());
        assert forall|k: int| 0 <= k < r.len() implies blank_free(#[trigger] r[k]) by {
            if k < p.len() {
                assert(r[k] == p[k]);
            } else {
                assert(crate::tags::attr_label(ws.last()) == Some(r[k]));
            }
        }
    }
}


// ---------------------------------------------------------------------------
// Tag segments

proof fn lemma_trim_first(s: Seq<char>)
    ensures
        trim(s).len() > 0 ==> !is_white_space(trim(s)[0]),
{
    crate::text::lemma_trim_start_idem(s);
    let t = crate::text::trim_start(s);
    lemma_keep_end(t, CharClass::WhiteSpace, t.len() as int);
    if trim(s).len() > 0 {
        assert(trim(s)[0] == t[0]);
    }
}

proof fn lemma_trim_plain(x: Seq<char>)
    requires
        forall|j: int| 0 <= j < x.len() ==> !is_white_space(#[trigger] x[j]),
    ensures
        trim(x) == x,
{
    let ws = CharClass::WhiteSpace;
    if x.len() > 0 {
        assert(!in_class(ws, x[0]));
        assert(find_from(x, ws, false, 0) == 0);
        assert(x.skip(0) =~= x);
        assert(!in_class(ws, x[x.len() - 1]));
        assert(keep_end(x, ws, x.len() as int) == x.len());
        assert(x.take(x.len() as int) =~= x);
    } else {
        assert(trim(x) =~= x);
    }
}

/// A tag segment gives no tag exactly when, trimmed, it is empty or starts with `/`, `!` or
/// `>`. Otherwise its tag is `to_lower` of the run of characters before the first whitespace,
/// `>` or `/`, a run that is not empty.
pub proof fn lemma_tag_segment_shape(segment: Seq<char>)
    ensures
        ({
            let t = trim(segment);
            crate::tags::spec_parse_tag_segment(segment) is None <==> (t.len() == 0 || t[0] == '/'
                || t[0] == '!' || t[0] == '>')
        }),
        crate::tags::spec_parse_tag_segment(segment) matches Some((tag, _)) ==> ({
            let t = trim(segment);
            let e = find_from(t, CharClass::TagNameEnd, true, 0);
            &&& 0 < e <= t.len()
            &&& tag == crate::text::to_lower(t.take(e))
            &&& forall|j: int| 0 <= j < e ==> !in_class(CharClass::TagNameEnd, #[trigger] t[j])
        }),
{
    let t = trim(segment);
    lemma_trim_first(segment);
    if t.len() > 0 && t[0] != '/' && t[0] != '!' {
        let k = CharClass::TagNameEnd;
        lemma_find_from(t, k, true, 0);
        let e = find_from(t, k, true, 0);
        let n = t.take(e);
        if t[0] == '>' {
            assert(in_class(k, t[0]));
            assert(e == 0);
            assert(trim(n) =~= Seq::<char>::empty()) by {
                assert(n.len() == 0);
                lemma_find_from(n, CharClass::WhiteSpace, false, 0);
                lemma_keep_end(crate::text::trim_start(n), CharClass::WhiteSpace, 0);
            }
        } else {
            assert(!in_class(k, t[0]));
            assert(e > 0);
            assert forall|j: int| 0 <= j < n.len() implies !is_white_space(#[trigger] n[j]) by {
                assert(n[j] == t[j]);
                assert(!in_class(k, t[j]));
            }
            lemma_trim_plain(n);
        }
    }
}


// ---------------------------------------------------------------------------
// Block labels, stated on the attribute text

/// A `script` tag whose attributes, lower-cased, contain `context="module"` or
/// `context='module'` gives a block label that starts with `script:module`.
pub proof fn lemma_script_module_label_of_attrs(attrs: Seq<char>)
    requires
        crate::text::contains(crate::text::to_lower(attrs), "context=\"module\""@)
            || crate::text::contains(crate::text::to_lower(attrs), "context='module'"@),
    ensures
        starts_with(crate::blocks::block_label("script"@, attrs), "script:module"@),
{
    lemma_flag_label("script"@, "module"@, crate::tags::spec_attr_lang(attrs));
    reveal_strlit("script");
    reveal_strlit("module");
    reveal_strlit("script:module");
    assert("script"@ + seq![':'] + "module"@ =~= "script:module"@);
}

/// A `style` tag whose attributes, lower-cased, contain `global` gives a block label that
/// starts with `style:global`.
pub proof fn lemma_style_global_label_of_attrs(attrs: Seq<char>)
    requires
        crate::text::contains(crate::text::to_lower(attrs), "global"@),
    ensures
        starts_with(crate::blocks::block_label("style"@, attrs), "style:global"@),
{
    lemma_flag_label("style"@, "global"@, crate::tags::spec_attr_lang(attrs));
    reveal_strlit("script");
    reveal_strlit("style");
    reveal_strlit("global");
    reveal_strlit("style:global");
    assert("style"@ != "script"@) by {
        assert("style"@.len() != "script"@.len());
    }
    assert("style"@ + seq![':'] + "global"@ =~= "style:global"@);
}

// ---------------------------------------------------------------------------
// Style lines

/// In a style block, a line that, trimmed, ends with `{` after a non-empty selector adds a
/// `style_rule` node labelled with that selector, trimmed, whatever `:` it holds; a line that
/// does not end with `{` and names a non-empty property before its first `:` adds a
/// `style_declaration` node labelled with that property, trimmed. Either node is numbered after
/// the nodes of the lines before it and sits on the line's own number.
pub proof fn lemma_style_line_node(ls: Seq<Seq<char>>, start: int, prefix: Seq<char>, n: int)
    requires
        0 <= n < ls.len(),
    ensures
        ({
            let line = trim(ls[n]);
            let prev = style_children_upto(ls, start, prefix, n);
            let sel = trim(line.drop_last());
            line.len() > 0 && line[line.len() - 1] == '{' && sel.len() > 0
                ==> style_children_upto(ls, start, prefix, n + 1) == prev.push(
                leaf(child_id(prefix, prev.len()), "style_rule"@, sel, start + n),
            )
        }),
        ({
            let line = trim(ls[n]);
            let prev = style_children_upto(ls, start, prefix, n);
            let k = find_from(line, CharClass::Exactly(':'), true, 0);
            let prop = trim(line.take(k));
            (line.len() == 0 || line[line.len() - 1] != '{') && k < line.len() && prop.len() > 0
                ==> style_children_upto(ls, start, prefix, n + 1) == prev.push(
                leaf(child_id(prefix, prev.len()), "style_declaration"@, prop, start + n),
            )
        }),
{
    let line = trim(ls[n]);
    lemma_find_from(line, CharClass::Exactly(':'), true, 0);
    if line.len() > 0 {
        if line[line.len() - 1] == '{' {
            assert(crate::text::ends_with(line, seq!['{'])) by {
                assert(line.subrange(line.len() - 1, line.len() as int) =~= seq!['{']);
            }
            assert(line != seq!['}']) by {
                assert(line[line.len() - 1] != '}');
            }
        } else {
            assert(!crate::text::ends_with(line, seq!['{'])) by {
                if crate::text::ends_with(line, seq!['{']) {
                    assert(line.subrange(line.len() - 1, line.len() as int)[0] == line[line.len() - 1]);
                }
            }
            let k = find_from(line, CharClass::Exactly(':'), true, 0);
            if k < line.len() && line == seq!['}'] {
                assert(line[k] == ':');
            }
        }
    }
}


// ---------------------------------------------------------------------------
// Assignment targets

/// Where `s` holds a single `=`, at `q`, the two-character operator `c=` is found exactly at
/// `q - 1` when `c` stands there, and nowhere otherwise.
proof fn lemma_find_op(s: Seq<char>, q: int, c: char)
    requires
        0 < q < s.len(),
        s[q] == '=',
        forall|m: int| 0 <= m < s.len() && m != q ==> s[m] != '=',
    ensures
        crate::text::find_sub(s, seq![c, '=']) == (if s[q - 1] == c { Some(q - 1) } else { None::<int> }),
{
    let p = seq![c, '='];
    crate::text::lemma_find_sub_from(s, p, 0);
    assert forall|m: int| #[trigger] crate::text::occurs_at(s, p, m) implies m == q - 1 && s[q - 1] == c by {
        assert(s.subrange(m, m + 2)[1] == s[m + 1]);
        assert(s.subrange(m, m + 2)[0] == s[m]);
    }
    if s[q - 1] == c {
        assert(s.subrange(q - 1, q + 1) =~= p);
        assert(crate::text::occurs_at(s, p, q - 1));
    }
}

/// A label with no whitespace starts with none of `const `, `let `, `var `.
proof fn lemma_no_keyword_space(l: Seq<char>)
    requires
        blank_free(l),
    ensures
        !starts_with(l, "const "@),
        !starts_with(l, "let "@),
        !starts_with(l, "var "@),
{
    reveal_strlit("const ");
    reveal_strlit("let ");
    reveal_strlit("var ");
    if starts_with(l, "const "@) {
        assert(l.subrange(0, 6)[5] == l[5]);
        assert(!is_white_space(l[5]));
    }
    if starts_with(l, "let "@) {
        assert(l.subrange(0, 4)[3] == l[3]);
        assert(!is_white_space(l[3]));
    }
    if starts_with(l, "var "@) {
        assert(l.subrange(0, 4)[3] == l[3]);
        assert(!is_white_space(l[3]));
    }
}

/// For a statement `a OP e`, where `OP` is `+=`, `-=`, `*=` or `/=` and neither `a` nor `e`
/// holds `=`, the assignment target is `a`, trimmed, when that is non-empty, holds no
/// whitespace and does not start with `return`: no character of the operator is part of it.
pub proof fn lemma_compound_assignment_target(a: Seq<char>, op: Seq<char>, e: Seq<char>)
    requires
        op == "+="@ || op == "-="@ || op == "*="@ || op == "/="@,
        forall|m: int| 0 <= m < a.len() ==> a[m] != '=',
        forall|m: int| 0 <= m < e.len() ==> e[m] != '=',
        trim(a).len() > 0,
        blank_free(trim(a)),
        !starts_with(trim(a), "return"@),
    ensures
        crate::script::spec_assignment_label(a + op + e) == Some(trim(a)),
{
    reveal_strlit("+=");
    reveal_strlit("-=");
    reveal_strlit("*=");
    reveal_strlit("/=");
    let s = a + op + e;
    let q: int = a.len() as int + 1;
    assert(op.len() == 2 && op[1] == '=');
    assert(s[q] == '=');
    assert(s[q - 1] == op[0]);
    assert forall|m: int| 0 <= m < s.len() && m != q implies s[m] != '=' by {
        if m < a.len() {
            assert(s[m] == a[m]);
        } else if m == a.len() {
            assert(s[m] == op[0]);
        } else {
            assert(s[m] == e[m - a.len() - 2]);
        }
    }
    lemma_find_op(s, q, '+');
    lemma_find_op(s, q, '-');
    lemma_find_op(s, q, '*');
    lemma_find_op(s, q, '/');
    assert("+="@ =~= seq!['+', '=']);
    assert("-="@ =~= seq!['-', '=']);
    assert("*="@ =~= seq!['*', '=']);
    assert("/="@ =~= seq!['/', '=']);
    assert(s.take(a.len() as int) =~= a);
    lemma_no_keyword_space(trim(a));
    assert(crate::script::assign_with(s, op) == Some(trim(a)));
}


// ---------------------------------------------------------------------------
// Quoted attribute values

proof fn lemma_trim_in_plain(x: Seq<char>, k: CharClass)
    requires
        forall|j: int| 0 <= j < x.len() ==> !in_class(k, #[trigger] x[j]),
    ensures
        trim_in(x, k) == x,
        trim_end_in(x, k) == x,
{
    if x.len() > 0 {
        assert(!in_class(k, x[0]));
        assert(find_from(x, k, false, 0) == 0);
        assert(x.skip(0) =~= x);
        assert(!in_class(k, x[x.len() - 1]));
        assert(keep_end(x, k, x.len() as int) == x.len());
        assert(x.take(x.len() as int) =~= x);
    } else {
        assert(trim_in(x, k) =~= x);
        assert(trim_end_in(x, k) =~= x);
    }
}

proof fn lemma_trim_end_last(x: Seq<char>, k: CharClass)
    requires
        x.len() > 0,
        !in_class(k, x[x.len() - 1]),
    ensures
        trim_end_in(x, k) == x,
{
    assert(keep_end(x, k, x.len() as int) == x.len());
    assert(x.take(x.len() as int) =~= x);
}

proof fn lemma_trim_in_wrapped(v: Seq<char>, c: char)
    requires
        forall|j: int| 0 <= j < v.len() ==> #[trigger] v[j] != c,
    ensures
        trim_in(seq![c] + v + seq![c], CharClass::Exactly(c)) == v,
{
    let k = CharClass::Exactly(c);
    let s = seq![c] + v + seq![c];
    assert(s[0] == c);
    if v.len() > 0 {
        assert(s[1] == v[0]);
        assert(find_from(s, k, false, 1) == 1);
        assert(find_from(s, k, false, 0) == 1);
        let t = s.skip(1);
        assert(t =~= v + seq![c]);
        assert(t[t.len() - 1] == c);
        assert(t[t.len() - 2] == v[v.len() - 1]);
        assert(keep_end(t, k, t.len() - 1) == t.len() - 1);
        assert(keep_end(t, k, t.len() as int) == t.len() - 1);
        assert(t.take(t.len() - 1) =~= v);
    } else {
        assert(s[1] == c);
        assert(find_from(s, k, false, 2) == 2);
        assert(find_from(s, k, false, 1) == 2);
        assert(find_from(s, k, false, 0) == 2);
        assert(s.skip(2) =~= Seq::<char>::empty());
        assert(trim_in(s, k) =~= v);
    }
}

/// An attribute word `name=QvQ`, where the quote `Q` is `"` or `'`, `name` is non-empty and
/// holds no whitespace or `=`, and `v` holds no quote, brace or whitespace, gives the label
/// `name=v`: the quotes are dropped. The attribute text made of that one word gives exactly
/// that label.
pub proof fn lemma_quoted_attr_label(name: Seq<char>, q: char, v: Seq<char>)
    requires
        q == '"' || q == '\'',
        name.len() > 0,
        forall|j: int| 0 <= j < name.len() ==> !is_white_space(#[trigger] name[j]) && name[j] != '=',
        forall|j: int|
            0 <= j < v.len() ==> !is_white_space(#[trigger] v[j]) && v[j] != '"' && v[j] != '\''
                && v[j] != '{' && v[j] != '}',
    ensures
        crate::tags::attr_label(name + seq!['='] + seq![q] + v + seq![q]) == Some(
            name + seq!['='] + v,
        ),
        crate::tags::spec_attr_labels(name + seq!['='] + seq![q] + v + seq![q]) == seq![
            name + seq!['='] + v,
        ],
{
    let w = name + seq!['='] + seq![q] + v + seq![q];
    let n = name.len() as int;
    assert forall|j: int| 0 <= j < w.len() implies !is_white_space(#[trigger] w[j]) by {
        if j < n {
            assert(w[j] == name[j]);
        } else if j == n {
            assert(w[j] == '=');
        } else if j == n + 1 || j == w.len() - 1 {
            assert(w[j] == q);
        } else {
            assert(w[j] == v[j - n - 2]);
        }
    }
    lemma_trim_plain(w);
    assert(w[w.len() - 1] == q);
    lemma_trim_end_last(w, CharClass::Exactly('>'));
    lemma_trim_end_last(w, CharClass::Exactly('/'));
    let clean = trim(crate::text::trim_end_char(crate::text::trim_end_char(trim(w), '>'), '/'));
    assert(clean == w);
    lemma_find_from(w, CharClass::Exactly('='), true, 0);
    let k = find_from(w, CharClass::Exactly('='), true, 0);
    assert(w[n] == '=');
    if k < n {
        assert(w[k] == name[k]);
    }
    assert(k == n);
    assert(w.take(k) =~= name);
    lemma_trim_plain(name);
    let value = w.skip(k + 1);
    assert(value =~= seq![q] + v + seq![q]);
    assert forall|j: int| 0 <= j < value.len() implies !is_white_space(#[trigger] value[j]) by {
        assert(value[j] == w[j + n + 1]);
    }
    lemma_trim_plain(value);
    assert forall|j: int| 0 <= j < v.len() implies !in_class(CharClass::Exactly('\''), #[trigger] v[j])
        && !in_class(CharClass::Exactly('{'), v[j]) && !in_class(CharClass::Exactly('}'), v[j])
        && !in_class(CharClass::Exactly('"'), v[j]) by {}
    lemma_trim_in_plain(v, CharClass::Exactly('\''));
    lemma_trim_in_plain(v, CharClass::Exactly('{'));
    lemma_trim_in_plain(v, CharClass::Exactly('}'));
    if q == '"' {
        lemma_trim_in_wrapped(v, '"');
    } else {
        assert forall|j: int| 0 <= j < value.len() implies !in_class(CharClass::Exactly('"'), #[trigger] value[j]) by {
            if j == 0 || j == value.len() - 1 {
                assert(value[j] == q);
            } else {
                assert(value[j] == v[j - 1]);
            }
        }
        lemma_trim_in_plain(value, CharClass::Exactly('"'));
        lemma_trim_in_wrapped(v, '\'');
    }
    let label = name + seq!['='] + v;
    assert(crate::tags::attr_label(w) == Some(label));
    // The word is the whole attribute text.
    let ws = CharClass::WhiteSpace;
    assert(find_from(w, ws, false, 0) == 0);
    lemma_find_from(w, ws, true, 0);
    let b = find_from(w, ws, true, 0);
    assert(b == w.len());
    assert(w.subrange(0, b) =~= w);
    assert(words_from(w, b) =~= Seq::<Seq<char>>::empty());
    assert(crate::text::words(w) =~= seq![w]);
    assert(seq![w].drop_last() =~= Seq::<Seq<char>>::empty());
    assert(crate::tags::labels_of_words(Seq::<Seq<char>>::empty()) =~= Seq::<Seq<char>>::empty());
    assert(crate::tags::labels_of_words(seq![w].drop_last()) =~= Seq::<Seq<char>>::empty());
    assert(seq![w].last() == w);
    assert(crate::tags::labels_of_words(seq![w]) =~= seq![label]);
}


// ---------------------------------------------------------------------------
// Tag segments of a line

proof fn lemma_find_from_shift(pre: Seq<char>, q: Seq<char>, k: CharClass, want: bool, i: int)
    requires
        0 <= i <= q.len(),
    ensures
        find_from(pre + q, k, want, pre.len() + i) == pre.len() + find_from(q, k, want, i),
    decreases q.len() - i,
{
    let s = pre + q;
    if i < q.len() {
        assert(s[pre.len() + i] == q[i]);
        lemma_find_from_shift(pre, q, k, want, i + 1);
    }
}

proof fn lemma_segments_shift(pre: Seq<char>, q: Seq<char>, i: int)
    requires
        0 <= i <= q.len(),
    ensures
        crate::tags::segments_from(pre + q, pre.len() + i) == crate::tags::segments_from(q, i),
    decreases q.len() - i,
{
    let s = pre + q;
    let lt = CharClass::Exactly('<');
    let gt = CharClass::Exactly('>');
    lemma_find_from_shift(pre, q, lt, true, i);
    lemma_find_from(q, lt, true, i);
    let o = find_from(q, lt, true, i);
    if o < q.len() {
        lemma_find_from_shift(pre, q, gt, true, o + 1);
        lemma_find_from(q, gt, true, o + 1);
        let c = find_from(q, gt, true, o + 1);
        if c < q.len() {
            assert(s.subrange(pre.len() + o + 1, pre.len() + c) =~= q.subrange(o + 1, c));
            lemma_segments_shift(pre, q, c + 1);
        }
    }
}

proof fn lemma_first_at(s: Seq<char>, k: CharClass, from: int, at: int)
    requires
        0 <= from <= at < s.len(),
        in_class(k, s[at]),
        forall|j: int| from <= j < at ==> !in_class(k, #[trigger] s[j]),
    ensures
        find_from(s, k, true, from) == at,
{
    lemma_find_from(s, k, true, from);
}

/// The tag segments of a line `p<x>q`, where `p` holds no `<` and `x` no `>`, are `x` followed
/// by the tag segments of `q`: the scan goes on after each tag, so every `<...>` of a line is
/// one of its segments, in order.
pub proof fn lemma_segments_split(p: Seq<char>, x: Seq<char>, q: Seq<char>)
    requires
        forall|j: int| 0 <= j < p.len() ==> #[trigger] p[j] != '<',
        forall|j: int| 0 <= j < x.len() ==> #[trigger] x[j] != '>',
    ensures
        crate::tags::segments(p + seq!['<'] + x + seq!['>'] + q) == seq![x] + crate::tags::segments(q),
{
    let pre = p + seq!['<'] + x + seq!['>'];
    let s = pre + q;
    assert(p + seq!['<'] + x + seq!['>'] + q == s);
    let o = p.len() as int;
    let c: int = p.len() as int + 1 + x.len() as int;
    assert(s[o] == '<');
    assert forall|j: int| 0 <= j < o implies !in_class(CharClass::Exactly('<'), #[trigger] s[j]) by {
        assert(s[j] == p[j]);
    }
    lemma_first_at(s, CharClass::Exactly('<'), 0, o);
    assert(s[c] == '>');
    assert forall|j: int| o + 1 <= j < c implies !in_class(CharClass::Exactly('>'), #[trigger] s[j]) by {
        assert(s[j] == x[j - o - 1]);
    }
    lemma_first_at(s, CharClass::Exactly('>'), o + 1, c);
    assert(s.subrange(o + 1, c) =~= x);
    lemma_segments_shift(pre, q, 0);
    assert(pre.len() == c + 1);
}


proof fn lemma_filter_map_cons<A, B>(x: A, r: Seq<A>, f: spec_fn(A) -> Option<B>)
    ensures
        (seq![x] + r).filter_map(f) == (match f(x) {
            Some(y) => seq![y],
            None => Seq::<B>::empty(),
        }) + r.filter_map(f),
    decreases r.len(),
{
    let s = seq![x] + r;
    if r.len() == 0 {
        assert(s =~= seq![x]);
        assert(s.drop_last() =~= Seq::<A>::empty());
        assert(Seq::<A>::empty().filter_map(f) =~= Seq::<B>::empty());
        assert(r =~= Seq::<A>::empty());
        match f(x) {
            Some(y) => assert(s.filter_map(f) =~= seq![y]),
            None => assert(s.filter_map(f) =~= Seq::<B>::empty()),
        }
    } else {
        lemma_filter_map_cons(x, r.drop_last(), f);
        assert(s.drop_last() =~= seq![x] + r.drop_last());
        assert(s.last() == r.last());
        let h = match f(x) {
            Some(y) => seq![y],
            None => Seq::<B>::empty(),
        };
        match f(r.last()) {
            Some(z) => {
                assert(s.filter_map(f) =~= h + r.drop_last().filter_map(f) + seq![z]);
                assert(r.filter_map(f) == r.drop_last().filter_map(f) + seq![z]);
                assert(s.filter_map(f) =~= h + r.filter_map(f));
            },
            None => {},
        }
    }
}

/// The elements of a line `p<x>q`, where `p` holds no `<` and `x` no `>`: the opening tag that
/// `x` parses as, if any, and then the elements of `q`. So every opening tag of a line is one
/// of its elements, in order.
pub proof fn lemma_template_tags_split(p: Seq<char>, x: Seq<char>, q: Seq<char>)
    requires
        forall|j: int| 0 <= j < p.len() ==> #[trigger] p[j] != '<',
        forall|j: int| 0 <= j < x.len() ==> #[trigger] x[j] != '>',
    ensures
        crate::tags::template_tags(p + seq!['<'] + x + seq!['>'] + q) == (match crate::tags::spec_parse_tag_segment(x) {
            Some(t) => seq![t],
            None => Seq::empty(),
        }) + crate::tags::template_tags(q),
{
    lemma_segments_split(p, x, q);
    let f = |seg: Seq<char>| crate::tags::spec_parse_tag_segment(seg);
    lemma_filter_map_cons(x, crate::tags::segments(q), f);
}


/// For a statement `a = e`, where neither `a` nor `e` holds `=` and `a` does not end with `+`,
/// `-`, `*` or `/`, the assignment target is `a`, trimmed, when that is non-empty, holds no
/// whitespace and does not start with `return`.
pub proof fn lemma_plain_assignment_target(a: Seq<char>, e: Seq<char>)
    requires
        a.len() > 0,
        a.last() != '+' && a.last() != '-' && a.last() != '*' && a.last() != '/',
        forall|m: int| 0 <= m < a.len() ==> a[m] != '=',
        forall|m: int| 0 <= m < e.len() ==> e[m] != '=',
        trim(a).len() > 0,
        blank_free(trim(a)),
        !starts_with(trim(a), "return"@),
    ensures
        crate::script::spec_assignment_label(a + seq!['='] + e) == Some(trim(a)),
{
    reveal_strlit("+=");
    reveal_strlit("-=");
    reveal_strlit("*=");
    reveal_strlit("/=");
    reveal_strlit("=");
    let s = a + seq!['='] + e;
    let q: int = a.len() as int;
    assert(s[q] == '=');
    assert(s[q - 1] == a.last());
    assert forall|m: int| 0 <= m < s.len() && m != q implies s[m] != '=' by {
        if m < a.len() {
            assert(s[m] == a[m]);
        } else {
            assert(s[m] == e[m - a.len() - 1]);
        }
    }
    lemma_find_op(s, q, '+');
    lemma_find_op(s, q, '-');
    lemma_find_op(s, q, '*');
    lemma_find_op(s, q, '/');
    assert("+="@ =~= seq!['+', '=']);
    assert("-="@ =~= seq!['-', '=']);
    assert("*="@ =~= seq!['*', '=']);
    assert("/="@ =~= seq!['/', '=']);
    assert("="@ =~= seq!['=']);
    let p = seq!['='];
    crate::text::lemma_find_sub_from(s, p, 0);
    assert forall|m: int| #[trigger] crate::text::occurs_at(s, p, m) implies m == q by {
        assert(s.subrange(m, m + 1)[0] == s[m]);
    }
    assert(s.subrange(q, q + 1) =~= p);
    assert(crate::text::occurs_at(s, p, q));
    assert(crate::text::find_sub(s, p) == Some(q));
    assert(s.take(q) =~= a);
    lemma_no_keyword_space(trim(a));
}

/// A lower-cased attribute word `lang=QvQ`, where the quote `Q` is `"` or `'` and `v` holds no
/// quote, gives the language `v`; the word `lang=v` gives `v` too.
pub proof fn lemma_quoted_lang(q: char, v: Seq<char>)
    requires
        q == '"' || q == '\'',
        forall|j: int| 0 <= j < v.len() ==> #[trigger] v[j] != '"' && v[j] != '\'',
    ensures
        crate::tags::spec_lang_of_lowered_word("lang="@ + seq![q] + v + seq![q]) == Some(v),
        crate::tags::spec_lang_of_lowered_word("lang="@ + v) == Some(v),
{
    reveal_strlit("lang=");
    let w = "lang="@ + seq![q] + v + seq![q];
    assert(w.subrange(0, 5) =~= "lang="@);
    assert(w.skip(5) =~= seq![q] + v + seq![q]);
    let u = "lang="@ + v;
    assert(u.subrange(0, 5) =~= "lang="@);
    assert(u.skip(5) =~= v);
    let value = seq![q] + v + seq![q];
    lemma_trim_in_plain(v, CharClass::Exactly('"'));
    lemma_trim_in_plain(v, CharClass::Exactly('\''));
    if q == '"' {
        lemma_trim_in_wrapped(v, '"');
    } else {
        assert forall|j: int| 0 <= j < value.len() implies !in_class(CharClass::Exactly('"'), #[trigger] value[j]) by {
            if j == 0 || j == value.len() - 1 {
                assert(value[j] == q);
            } else {
                assert(value[j] == v[j - 1]);
            }
        }
        lemma_trim_in_plain(value, CharClass::Exactly('"'));
        lemma_trim_in_wrapped(v, '\'');
    }
}


// ---------------------------------------------------------------------------
// Interpolations of a line

proof fn lemma_brace_labels_shift(pre: Seq<char>, q: Seq<char>, i: int)
    requires
        0 <= i <= q.len(),
    ensures
        crate::tags::brace_labels_from(pre + q, pre.len() + i) == crate::tags::brace_labels_from(q, i),
    decreases q.len() - i,
{
    let s = pre + q;
    let ob = CharClass::Exactly('{');
    let cb = CharClass::Exactly('}');
    lemma_find_from_shift(pre, q, ob, true, i);
    lemma_find_from(q, ob, true, i);
    let st = find_from(q, ob, true, i);
    if st < q.len() {
        if st + 1 < q.len() {
            assert(s[pre.len() + st + 1] == q[st + 1]);
        }
        if st + 1 < q.len() && q[st + 1] == '{' {
            lemma_brace_labels_shift(pre, q, st + 2);
        } else {
            lemma_find_from_shift(pre, q, cb, true, st + 1);
            lemma_find_from(q, cb, true, st + 1);
            let en = find_from(q, cb, true, st + 1);
            if en < q.len() {
                assert(s.subrange(pre.len() + st + 1, pre.len() + en) =~= q.subrange(st + 1, en));
                lemma_brace_labels_shift(pre, q, en + 1);
            }
        }
    }
}

/// The interpolation labels of a line `p{x}q`, where `p` holds no `{` and `x` neither `{` nor
/// `}`: `x`, trimmed, when that is not empty and starts with neither `#` nor `/`, and then the
/// labels of `q`. A `{{` is no interpolation: the labels of `p{{q` are those of `q`.
pub proof fn lemma_brace_labels_split(p: Seq<char>, x: Seq<char>, q: Seq<char>)
    requires
        forall|j: int| 0 <= j < p.len() ==> #[trigger] p[j] != '{',
        forall|j: int| 0 <= j < x.len() ==> #[trigger] x[j] != '{' && x[j] != '}',
    ensures
        crate::tags::spec_brace_labels(p + seq!['{'] + x + seq!['}'] + q) == (if crate::tags::is_interpolation_label(trim(x)) {
            seq![trim(x)]
        } else {
            Seq::empty()
        }) + crate::tags::spec_brace_labels(q),
        crate::tags::spec_brace_labels(p + seq!['{', '{'] + q) == crate::tags::spec_brace_labels(q),
{
    let ob = CharClass::Exactly('{');
    let cb = CharClass::Exactly('}');
    let pre = p + seq!['{'] + x + seq!['}'];
    let s = pre + q;
    assert(p + seq!['{'] + x + seq!['}'] + q == s);
    let o = p.len() as int;
    let c: int = p.len() as int + 1 + x.len() as int;
    assert(s[o] == '{');
    assert forall|j: int| 0 <= j < o implies !in_class(ob, #[trigger] s[j]) by {
        assert(s[j] == p[j]);
    }
    lemma_first_at(s, ob, 0, o);
    assert(s[o + 1] != '{') by {
        if x.len() > 0 {
            assert(s[o + 1] == x[0]);
        } else {
            assert(s[o + 1] == '}');
        }
    }
    assert(s[c] == '}');
    assert forall|j: int| o + 1 <= j < c implies !in_class(cb, #[trigger] s[j]) by {
        assert(s[j] == x[j - o - 1]);
    }
    lemma_first_at(s, cb, o + 1, c);
    assert(s.subrange(o + 1, c) =~= x);
    lemma_brace_labels_shift(pre, q, 0);
    assert(pre.len() == c + 1);
    // `{{`
    let pre2 = p + seq!['{', '{'];
    let s2 = pre2 + q;
    assert(p + seq!['{', '{'] + q == s2);
    assert(s2[o] == '{');
    assert(s2[o + 1] == '{');
    assert forall|j: int| 0 <= j < o implies !in_class(ob, #[trigger] s2[j]) by {
        assert(s2[j] == p[j]);
    }
    lemma_first_at(s2, ob, 0, o);
    lemma_brace_labels_shift(pre2, q, 0);
}


// ---------------------------------------------------------------------------
// Declarations

/// For a line `kw name rest`, where `kw` is `const `, `let ` or `var `, `name` is
/// identifier-like and `rest` is empty or starts with whitespace, `=`, `:` or `;`, the declared
/// name is `name`.
pub proof fn lemma_declaration_name(kw: Seq<char>, name: Seq<char>, rest: Seq<char>)
    requires
        kw == "const "@ || kw == "let "@ || kw == "var "@,
        crate::script::spec_is_identifier_like(name),
        rest.len() == 0 || in_class(CharClass::DeclNameEnd, rest[0]),
    ensures
        crate::script::spec_declaration_name(kw + name + rest) == Some(name),
{
    reveal_strlit("const ");
    reveal_strlit("let ");
    reveal_strlit("var ");
    let line = kw + name + rest;
    let k = CharClass::DeclNameEnd;
    assert(line.subrange(0, kw.len() as int) =~= kw);
    let tail = line.skip(kw.len() as int);
    assert(tail =~= name + rest);
    assert forall|j: int| 0 <= j < name.len() implies !in_class(k, #[trigger] tail[j]) by {
        assert(tail[j] == name[j]);
        if j > 0 {
            assert(crate::script::ident_continue(name[j]));
        }
    }
    lemma_find_from(tail, k, true, 0);
    let e = find_from(tail, k, true, 0);
    if name.len() < tail.len() {
        assert(tail[name.len() as int] == rest[0]);
    }
    assert(e == name.len());
    assert(tail.take(e) =~= name);
    assert(line.subrange(kw.len() as int, kw.len() + e) =~= name);
    assert(line[0] == kw[0]);
    if kw != "const "@ {
        assert(!starts_with(line, "const "@)) by {
            if starts_with(line, "const "@) {
                assert(line.subrange(0, 6)[0] == line[0]);
            }
        }
    }
    if kw == "var "@ {
        assert(!starts_with(line, "let "@)) by {
            if starts_with(line, "let "@) {
                assert(line.subrange(0, 4)[0] == line[0]);
            }
        }
    }
}

} // verus!
