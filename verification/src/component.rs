//! The semantic tree of a whole component: the root node, one node per block (ordered by
//! start line) and the children of each block.

use vstd::prelude::*;
use crate::blocks::{
    SfcBlock, BlockSpec, block_is, blocks_are, spec_extract_blocks, extract_blocks_chars,
    line_count_fits, block_lines_fit, lemma_blocks_fit,
};
use crate::children::{
    spec_script_children, spec_style_children, spec_template_children, script_children_chars,
    style_children_chars, template_children_chars,
};
use crate::hash::{spec_content_hash, content_hash};
use crate::node::{Node, NodeSpec, node_is, nodes_are, child_id, child_id_chars, new_node};
use crate::text::{
    CharClass, rfind_in, rscan, copy_range, to_chars, from_chars, chars_eq, lines, split_lines,
    join, join_chars, views, lemma_rfind_in,
};

verus! {

broadcast use vstd::string::group_string_axioms;

// ---------------------------------------------------------------------------
// File name stem

/// The last component of a path (after the last `/` or `\\`).
pub open spec fn file_name(path: Seq<char>) -> Seq<char> {
    path.skip(rfind_in(path, CharClass::PathSep, path.len() as int) + 1)
}

/// The stem of a file name: its last path component up to the last `.` of that component, or
/// the whole component when it has no `.` or its last `.` is its first character (as in
/// `.svelte`); `component` when the last path component is empty.
pub open spec fn spec_stem(filename: Seq<char>) -> Seq<char> {
    let f = file_name(filename);
    let d = rfind_in(f, CharClass::Exactly('.'), f.len() as int);
    if f.len() == 0 {
        "component"@
    } else if d <= 0 {
        f
    } else {
        f.take(d)
    }
}

pub fn stem_chars(filename: &[char]) -> (r: Vec<char>)
    ensures
        r@ == spec_stem(filename@),
{
    proof {
        lemma_rfind_in(filename@, CharClass::PathSep, filename@.len() as int);
    }
    let f = match rscan(filename, CharClass::PathSep) {
        Some(j) => {
            let n = filename.len();
            assert(j < n);
            copy_range(filename, j + 1, n)
        },
        None => copy_range(filename, 0, filename.len()),
    };
    assert(f@ == file_name(filename@));
    proof {
        lemma_rfind_in(f@, CharClass::Exactly('.'), f@.len() as int);
    }
    if f.len() == 0 {
        return to_chars("component");
    }
    match rscan(&f, CharClass::Exactly('.')) {
        Some(d) if d > 0 => copy_range(&f, 0, d),
        _ => f,
    }
}

// ---------------------------------------------------------------------------
// Ordering blocks by start line

/// First index `j >= k` of `s` whose block starts after line `key`, or `s.len()`.
pub open spec fn insert_pos(s: Seq<BlockSpec>, key: int, k: int) -> int
    decreases s.len() - k,
{
    if k < 0 || k >= s.len() {
        s.len() as int
    } else if s[k].start_line > key {
        k
    } else {
        insert_pos(s, key, k + 1)
    }
}

pub(crate) proof fn lemma_insert_pos(s: Seq<BlockSpec>, key: int, k: int)
    requires
        0 <= k <= s.len(),
    ensures
        k <= insert_pos(s, key, k) <= s.len(),
        forall|j: int| k <= j < insert_pos(s, key, k) ==> (#[trigger] s[j]).start_line <= key,
        insert_pos(s, key, k) < s.len() ==> s[insert_pos(s, key, k)].start_line > key,
    decreases s.len() - k,
{
    if k < s.len() && s[k].start_line <= key {
        lemma_insert_pos(s, key, k + 1);
    }
}

/// `s` with `b` inserted after every block that starts on or before `b`'s start line.
pub open spec fn insert_block(s: Seq<BlockSpec>, b: BlockSpec) -> Seq<BlockSpec> {
    s.insert(insert_pos(s, b.start_line, 0), b)
}

/// Stable sort by start line, by insertion.
pub open spec fn sort_blocks(bs: Seq<BlockSpec>) -> Seq<BlockSpec>
    decreases bs.len(),
{
    if bs.len() == 0 {
        seq![]
    } else {
        insert_block(sort_blocks(bs.drop_last()), bs.last())
    }
}

proof fn lemma_blocks_insert(bs: Seq<SfcBlock>, ss: Seq<BlockSpec>, p: int, b: SfcBlock, s: BlockSpec)
    requires
        blocks_are(bs, ss),
        block_is(b, s),
        0 <= p <= ss.len(),
    ensures
        blocks_are(bs.insert(p, b), ss.insert(p, s)),
{
    assert forall|i: int| 0 <= i < ss.insert(p, s).len() implies block_is(
        #[trigger] bs.insert(p, b)[i],
        ss.insert(p, s)[i],
    ) by {
        if i < p {
            assert(bs.insert(p, b)[i] == bs[i]);
            assert(ss.insert(p, s)[i] == ss[i]);
        } else if i > p {
            assert(bs.insert(p, b)[i] == bs[i - 1]);
            assert(ss.insert(p, s)[i] == ss[i - 1]);
        }
    }
}

/// Sorts blocks by start line, keeping the order of blocks that start on the same line.
fn sort_blocks_by_start(blocks: Vec<SfcBlock>, Ghost(ss): Ghost<Seq<BlockSpec>>) -> (r: Vec<SfcBlock>)
    requires
        blocks_are(blocks@, ss),
    ensures
        blocks_are(r@, sort_blocks(ss)),
{
    let mut src = blocks;
    let mut out: Vec<SfcBlock> = Vec::new();
    let ghost mut k: int = 0;
    assert(ss.take(0) =~= Seq::<BlockSpec>::empty());
    while src.len() > 0
        invariant
            0 <= k <= ss.len(),
            blocks_are(src@, ss.skip(k)),
            blocks_are(out@, sort_blocks(ss.take(k))),
        decreases src@.len(),
    {
        let ghost sorted = sort_blocks(ss.take(k));
        let b = src.remove(0);
        assert(block_is(b, ss[k]));
        assert forall|i: int| 0 <= i < ss.skip(k + 1).len() implies block_is(
            #[trigger] src@[i],
            ss.skip(k + 1)[i],
        ) by {
            assert(ss.skip(k + 1)[i] == ss.skip(k)[i + 1]);
        }
        let mut p: usize = 0;
        proof {
            lemma_insert_pos(sorted, ss[k].start_line, 0);
        }
        while p < out.len() && out[p].start_line <= b.start_line
            invariant
                p <= out@.len(),
                blocks_are(out@, sorted),
                block_is(b, ss[k]),
                insert_pos(sorted, ss[k].start_line, 0) == insert_pos(sorted, ss[k].start_line, p as int),
            decreases out@.len() - p,
        {
            p += 1;
        }
        proof {
            lemma_blocks_insert(out@, sorted, p as int, b, ss[k]);
            assert(ss.take(k + 1).drop_last() =~= ss.take(k));
            assert(ss.take(k + 1).last() == ss[k]);
        }
        out.insert(p, b);
        proof {
            k = k + 1;
        }
    }
    assert(ss.take(k) =~= ss);
    out
}

// ---------------------------------------------------------------------------
// The tree

/// The node of a block with id `id`: its children depend on its kind.
pub open spec fn block_node(b: BlockSpec, id: Seq<char>) -> NodeSpec {
    NodeSpec {
        id,
        node_type: b.node_type,
        label: b.label,
        start_line: b.start_line,
        end_line: b.end_line,
        content_hash: b.content_hash,
        children: if b.node_type == "script_block"@ {
            spec_script_children(b.content, b.content_start_line, id)
        } else if b.node_type == "style_block"@ {
            spec_style_children(b.content, b.content_start_line, id)
        } else if b.node_type == "template_body"@ {
            spec_template_children(b.content, b.content_start_line, id)
        } else {
            seq![]
        },
    }
}

/// The hash of the root: the content hash of the block hashes joined by `|`.
pub open spec fn root_hash(bs: Seq<BlockSpec>) -> Seq<char> {
    spec_content_hash(join(Seq::new(bs.len(), |k: int| bs[k].content_hash), seq!['|']))
}

/// The semantic tree of a component: a `svelte_component` root labelled with the file stem,
/// spanning all lines, whose children are the block nodes ordered by start line, with ids
/// `0.0`, `0.1`, ...
pub open spec fn spec_component_tree(source: Seq<char>, filename: Seq<char>) -> NodeSpec {
    let bs = sort_blocks(spec_extract_blocks(source));
    let n = lines(source).len();
    NodeSpec {
        id: "0"@,
        node_type: "svelte_component"@,
        label: spec_stem(filename),
        start_line: 0,
        end_line: if n == 0 { 0 } else { n - 1 },
        content_hash: root_hash(bs),
        children: Seq::new(bs.len(), |k: int| block_node(bs[k], child_id("0"@, k as nat))),
    }
}

proof fn lemma_sorted_contains(bs: Seq<BlockSpec>)
    ensures
        sort_blocks(bs).len() == bs.len(),
        forall|k: int| 0 <= k < sort_blocks(bs).len() ==> bs.contains(#[trigger] sort_blocks(bs)[k]),
    decreases bs.len(),
{
    if bs.len() > 0 {
        let rest = bs.drop_last();
        lemma_sorted_contains(rest);
        let s = sort_blocks(rest);
        let p = insert_pos(s, bs.last().start_line, 0);
        lemma_insert_pos(s, bs.last().start_line, 0);
        assert forall|k: int| 0 <= k < sort_blocks(bs).len() implies bs.contains(
            #[trigger] sort_blocks(bs)[k],
        ) by {
            if k < p {
                assert(sort_blocks(bs)[k] == s[k]);
                assert(rest.contains(s[k]));
                let w = choose|w: int| 0 <= w < rest.len() && rest[w] == s[k];
                assert(bs[w] == rest[w]);
            } else if k == p {
                assert(bs[bs.len() - 1] == bs.last());
            } else {
                assert(sort_blocks(bs)[k] == s[k - 1]);
                assert(rest.contains(s[k - 1]));
                let w = choose|w: int| 0 <= w < rest.len() && rest[w] == s[k - 1];
                assert(bs[w] == rest[w]);
            }
        }
    }
}

fn block_children(b: &SfcBlock, id: &[char], Ghost(s): Ghost<BlockSpec>) -> (r: Vec<Node>)
    requires
        block_is(*b, s),
        block_lines_fit(s),
    ensures
        nodes_are(r@, block_node(s, id@).children),
{
    let content = to_chars(b.content.as_str());
    let ty = to_chars(b.node_type.as_str());
    let script = to_chars("script_block");
    let style = to_chars("style_block");
    let template = to_chars("template_body");
    if chars_eq(&ty, &script) {
        script_children_chars(&content, b.content_start_line, id)
    } else if chars_eq(&ty, &style) {
        style_children_chars(&content, b.content_start_line, id)
    } else if chars_eq(&ty, &template) {
        template_children_chars(&content, b.content_start_line, id)
    } else {
        Vec::new()
    }
}

pub fn component_tree_chars(source: &[char], filename: &[char]) -> (r: Node)
    requires
        line_count_fits(source@),
    ensures
        node_is(r, spec_component_tree(source@, filename@)),
{
    let stem = stem_chars(filename);
    let ghost extracted = spec_extract_blocks(source@);
    let blocks = extract_blocks_chars(source);
    let blocks = sort_blocks_by_start(blocks, Ghost(extracted));
    let ghost bs = sort_blocks(extracted);
    proof {
        lemma_blocks_fit(source@);
        lemma_sorted_contains(extracted);
    }
    let ls = split_lines(source);
    let end_line: u32 = if ls.len() == 0 { 0 } else { (ls.len() - 1) as u32 };
    let root_id = to_chars("0");
    let ghost kids_spec = Seq::new(bs.len(), |k: int| block_node(bs[k], child_id("0"@, k as nat)));
    let ghost hashes = Seq::new(bs.len(), |k: int| bs[k].content_hash);
    let mut children: Vec<Node> = Vec::new();
    let mut hash_parts: Vec<Vec<char>> = Vec::new();
    let mut i: usize = 0;
    while i < blocks.len()
        invariant
            i <= blocks@.len(),
            blocks_are(blocks@, bs),
            root_id@ == "0"@,
            forall|k: int| 0 <= k < bs.len() ==> extracted.contains(#[trigger] bs[k]),
            forall|k: int| 0 <= k < extracted.len() ==> block_lines_fit(#[trigger] extracted[k]),
            kids_spec == Seq::new(bs.len(), |k: int| block_node(bs[k], child_id("0"@, k as nat))),
            hashes == Seq::new(bs.len(), |k: int| bs[k].content_hash),
            nodes_are(children@, kids_spec.take(i as int)),
            views(hash_parts@) == hashes.take(i as int),
        decreases blocks@.len() - i,
    {
        let b = &blocks[i];
        assert(block_is(*b, bs[i as int]));
        assert(block_lines_fit(bs[i as int])) by {
            let w = choose|w: int| 0 <= w < extracted.len() && extracted[w] == bs[i as int];
        }
        let id = child_id_chars(&root_id, i);
        let kids = block_children(b, &id, Ghost(bs[i as int]));
        let label = to_chars(b.label.as_str());
        let hash = to_chars(b.content_hash.as_str());
        let node = new_node(&id, b.node_type.as_str(), &label, b.start_line, b.end_line, &hash, kids);
        assert(node_is(node, kids_spec[i as int]));
        proof {
            crate::node::lemma_nodes_push(children@, kids_spec.take(i as int), node, kids_spec[i as int]);
        }
        children.push(node);
        let ghost before = views(hash_parts@);
        let ghost hv = hash@;
        assert(hv == hashes[i as int]);
        hash_parts.push(hash);
        assert(views(hash_parts@) =~= before.push(hv));
        i += 1;
        assert(kids_spec.take(i as int) =~= kids_spec.take(i - 1).push(kids_spec[i - 1]));
        assert(views(hash_parts@) =~= hashes.take(i as int));
    }
    assert(kids_spec.take(blocks@.len() as int) =~= kids_spec);
    assert(hashes.take(blocks@.len() as int) =~= hashes);
    let bar: Vec<char> = vec!['|'];
    assert(bar@ =~= seq!['|']);
    let combined = join_chars(&hash_parts, &bar);
    let combined_s = from_chars(&combined);
    let root_hash_s = content_hash(combined_s.as_str());
    let root_hash_v = to_chars(root_hash_s.as_str());
    let r = new_node(&root_id, "svelte_component", &stem, 0, end_line, &root_hash_v, children);
    r
}

/// The semantic tree of a component read from `source`, named after `filename`.
pub fn component_tree(source: &str, filename: &str) -> (r: Node)
    requires
        line_count_fits(source@),
    ensures
        node_is(r, spec_component_tree(source@, filename@)),
{
    let s = to_chars(source);
    let f = to_chars(filename);
    component_tree_chars(&s, &f)
}

} // verus!
