//! Splitting a component into its `<script>` and `<style>` blocks and the template markup
//! around them.

use vstd::prelude::*;
use crate::hash::{spec_content_hash, content_hash};
use crate::tags::{
    spec_parse_tag_open, parse_tag_open_chars, spec_attr_lang, attr_lang_chars,
    attr_contains_chars,
};
use crate::text::{
    find_sub_from, find_from,
    no_newline, lemma_lines_of_join, lemma_lines_no_newline,
    CharClass, contains, count_matches, count_matches_from, copy_range, from_chars, join,
    join_chars, join_range, lines, split_lines, to_chars, to_lower, trim_start,
    trim_start_class, views,
};

verus! {

broadcast use vstd::string::group_string_axioms;

/// A block of a component: a script, a style, or the template markup.
pub struct SfcBlock {
    pub node_type: String,
    pub label: String,
    pub start_line: u32,
    pub end_line: u32,
    pub content_start_line: u32,
    pub content: String,
    pub content_hash: String,
}

/// The mathematical model of a block.
pub struct BlockSpec {
    pub node_type: Seq<char>,
    pub label: Seq<char>,
    pub start_line: int,
    pub end_line: int,
    pub content_start_line: int,
    pub content: Seq<char>,
    pub content_hash: Seq<char>,
}

pub open spec fn block_is(b: SfcBlock, s: BlockSpec) -> bool {
    &&& b.node_type@ == s.node_type
    &&& b.label@ == s.label
    &&& b.start_line == s.start_line
    &&& b.end_line == s.end_line
    &&& b.content_start_line == s.content_start_line
    &&& b.content@ == s.content
    &&& b.content_hash@ == s.content_hash
}

pub open spec fn blocks_are(bs: Seq<SfcBlock>, ss: Seq<BlockSpec>) -> bool {
    &&& bs.len() == ss.len()
    &&& forall|i: int| 0 <= i < ss.len() ==> block_is(#[trigger] bs[i], ss[i])
}

/// Tags whose blocks are split off the template.
pub open spec fn is_block_tag(tag: Seq<char>) -> bool {
    tag == "script"@ || tag == "style"@
}

/// How much line `l` changes the nesting depth of `tag`: its `<tag` openings minus its
/// `</tag` closings.
pub open spec fn depth_delta(l: Seq<char>, tag: Seq<char>) -> int {
    count_matches_from(l, seq!['<'] + tag, 0) - count_matches_from(l, seq!['<', '/'] + tag, 0)
}

/// The text of line `l` after the name of the tag that opens it.
pub open spec fn after_tag_name(l: Seq<char>) -> Seq<char> {
    let r = trim_start(l).drop_first();
    r.skip(find_from(r, CharClass::TagNameEnd, true, 0))
}

/// Nesting depth of `tag` for a block opened on line `i`, after the rest of the opening line
/// and lines `i + 1 ..= j`. On the opening line only `</tag` closings count.
pub open spec fn depth_at(ls: Seq<Seq<char>>, tag: Seq<char>, i: int, j: int) -> int
    decreases j - i,
{
    if j <= i {
        1 - count_matches_from(after_tag_name(ls[i]), seq!['<', '/'] + tag, 0)
    } else {
        depth_at(ls, tag, i, j - 1) + depth_delta(ls[j], tag)
    }
}

/// The first line `k >= j` at which the depth of a block opened on line `i` drops to 0 or below.
pub open spec fn close_from(ls: Seq<Seq<char>>, tag: Seq<char>, i: int, j: int) -> Option<int>
    decreases ls.len() - j,
{
    if j < 0 || j >= ls.len() {
        None
    } else if depth_at(ls, tag, i, j) <= 0 {
        Some(j)
    } else {
        close_from(ls, tag, i, j + 1)
    }
}

/// The line that closes a block opened on line `i`: the opening line itself when the rest of
/// it after the tag name closes the block.
pub open spec fn close_line(ls: Seq<Seq<char>>, tag: Seq<char>, i: int) -> Option<int> {
    close_from(ls, tag, i, i)
}

pub proof fn lemma_close_from(ls: Seq<Seq<char>>, tag: Seq<char>, i: int, j: int)
    requires
        0 <= j,
    ensures
        close_from(ls, tag, i, j) matches Some(k) ==> j <= k < ls.len() && depth_at(ls, tag, i, k)
            <= 0 && forall|m: int| j <= m < k ==> depth_at(ls, tag, i, m) > 0,
        close_from(ls, tag, i, j) is None ==> forall|m: int|
            j <= m < ls.len() ==> depth_at(ls, tag, i, m) > 0,
    decreases ls.len() - j,
{
    if j < ls.len() && depth_at(ls, tag, i, j) > 0 {
        lemma_close_from(ls, tag, i, j + 1);
    }
}

/// The node type of a block opened by `tag`.
pub open spec fn block_node_type(tag: Seq<char>) -> Seq<char> {
    if tag == "script"@ {
        "script_block"@
    } else {
        "style_block"@
    }
}

/// Label parts `[first, flag?, lang?]` joined by `:`.
pub open spec fn label_of(first: Seq<char>, flag: Option<Seq<char>>, lang: Option<Seq<char>>) -> Seq<char> {
    let a = seq![first];
    let b = match flag {
        Some(f) => a.push(f),
        None => a,
    };
    let c = match lang {
        Some(l) => b.push(l),
        None => b,
    };
    join(c, seq![':'])
}

/// The script is a module script: its attributes name `context="module"` or `context='module'`.
pub open spec fn is_module_script(attrs: Seq<char>) -> bool {
    contains(to_lower(attrs), "context=\"module\""@) || contains(to_lower(attrs), "context='module'"@)
}

/// The style is global: its attributes mention `global`.
pub open spec fn is_global_style(attrs: Seq<char>) -> bool {
    contains(to_lower(attrs), "global"@)
}

/// Label of a block: `script[:module][:lang]` or `style[:global][:lang]`.
pub open spec fn block_label(tag: Seq<char>, attrs: Seq<char>) -> Seq<char> {
    if tag == "script"@ {
        label_of(
            "script"@,
            if is_module_script(attrs) { Some("module"@) } else { None },
            spec_attr_lang(attrs),
        )
    } else {
        label_of(
            "style"@,
            if is_global_style(attrs) { Some("global"@) } else { None },
            spec_attr_lang(attrs),
        )
    }
}

/// The content of a block that closes on its opening line `l`: the text after the `>` that ends
/// the opening tag, up to the first `</tag` after it.
pub open spec fn inline_content(l: Seq<char>, tag: Seq<char>) -> Seq<char> {
    inner_text(after_tag_name(l), tag)
}

/// The text of `r` after its first `>`, up to the first `</tag` after that.
pub open spec fn inner_text(r: Seq<char>, tag: Seq<char>) -> Seq<char> {
    let g = find_from(r, CharClass::Exactly('>'), true, 0);
    let a = if g < r.len() { g + 1 } else { r.len() as int };
    let b = match find_sub_from(r, seq!['<', '/'] + tag, a) {
        Some(p) => p,
        None => r.len() as int,
    };
    r.subrange(a, b)
}

/// A block opened on line `i` and closed on line `j`. When `j > i` its content is the lines
/// strictly between; when it closes on its opening line, the text inside its tags there.
pub open spec fn closed_block(ls: Seq<Seq<char>>, tag: Seq<char>, attrs: Seq<char>, i: int, j: int) -> BlockSpec {
    let content = if j == i {
        inline_content(ls[i], tag)
    } else {
        join(ls.subrange(i + 1, j), seq!['\n'])
    };
    BlockSpec {
        node_type: block_node_type(tag),
        label: block_label(tag, attrs),
        start_line: i,
        end_line: j,
        content_start_line: if j == i { i } else { i + 1 },
        content,
        content_hash: spec_content_hash(content),
    }
}

/// A block opened on line `i` and never closed: it runs to the last line.
pub open spec fn open_block(ls: Seq<Seq<char>>, tag: Seq<char>, attrs: Seq<char>, i: int) -> BlockSpec {
    let content = join(ls.subrange(i + 1, ls.len() as int), seq!['\n']);
    BlockSpec {
        node_type: block_node_type(tag),
        label: block_label(tag, attrs),
        start_line: i,
        end_line: ls.len() - 1,
        content_start_line: i + 1,
        content,
        content_hash: spec_content_hash(content),
    }
}

/// The opening `script` or `style` tag of line `l`, with its attribute text.
pub open spec fn block_open(l: Seq<char>) -> Option<(Seq<char>, Seq<char>)> {
    match spec_parse_tag_open(trim_start(l)) {
        Some((tag, attrs)) => if is_block_tag(tag) {
            Some((tag, attrs))
        } else {
            None
        },
        None => None,
    }
}

/// The line scan from line `i` on, with template lines `tmpl` and blocks `blocks` found so far:
/// a line that opens a script or style block starts a block that ends at its closing line,
/// possibly the opening line itself (scanning resumes after it) or, unclosed, at the last line
/// (scanning stops); every other line is template markup.
pub open spec fn scan_from(ls: Seq<Seq<char>>, i: int, tmpl: Seq<int>, blocks: Seq<BlockSpec>) -> (Seq<int>, Seq<BlockSpec>)
    decreases ls.len() - i,
{
    if i < 0 || i >= ls.len() {
        (tmpl, blocks)
    } else {
        match block_open(ls[i]) {
            Some((tag, attrs)) => {
                proof {
                    lemma_close_from(ls, tag, i, i);
                }
                match close_line(ls, tag, i) {
                    Some(j) => scan_from(ls, j + 1, tmpl, blocks.push(closed_block(ls, tag, attrs, i, j))),
                    None => (tmpl, blocks.push(open_block(ls, tag, attrs, i))),
                }
            },
            None => scan_from(ls, i + 1, tmpl.push(i), blocks),
        }
    }
}

/// The template block: the template lines, joined, from the first to the last of them.
pub open spec fn template_block(ls: Seq<Seq<char>>, tmpl: Seq<int>) -> BlockSpec {
    let content = join(Seq::new(tmpl.len(), |k: int| ls[tmpl[k]]), seq!['\n']);
    BlockSpec {
        node_type: "template_body"@,
        label: "template"@,
        start_line: tmpl[0],
        end_line: tmpl.last(),
        content_start_line: tmpl[0],
        content,
        content_hash: spec_content_hash(content),
    }
}

/// The blocks of a component, in the order found, the template block (if any) last.
pub open spec fn spec_extract_blocks(source: Seq<char>) -> Seq<BlockSpec> {
    let ls = lines(source);
    let (tmpl, blocks) = scan_from(ls, 0, seq![], seq![]);
    if tmpl.len() > 0 {
        blocks.push(template_block(ls, tmpl))
    } else {
        blocks
    }
}

/// Line numbers of a text fit in `u32`.
pub open spec fn line_count_fits(source: Seq<char>) -> bool {
    lines(source).len() <= u32::MAX
}

/// The line that closes the block of `tag` opened on line `i`.
fn find_close(ls: &Vec<Vec<char>>, tag: &[char], i: usize, after: &[char]) -> (r: Option<usize>)
    requires
        i < ls@.len() <= u32::MAX,
        after@ == after_tag_name(views(ls@)[i as int]),
    ensures
        match r {
            Some(j) => close_line(views(ls@), tag@, i as int) == Some(j as int),
            None => close_line(views(ls@), tag@, i as int) is None,
        },
{
    let ghost lv = views(ls@);
    let mut opening: Vec<char> = vec!['<'];
    crate::text::append_chars(&mut opening, tag);
    let mut closing: Vec<char> = vec!['<', '/'];
    crate::text::append_chars(&mut closing, tag);
    assert(opening@ =~= seq!['<'] + tag@);
    assert(closing@ =~= seq!['<', '/'] + tag@);
    let c0 = count_matches(after, &closing);
    let mut depth: i128 = 1 - c0 as i128;
    assert(depth == depth_at(lv, tag@, i as int, i as int));
    if depth <= 0 {
        return Some(i);
    }
    let mut j: usize = i + 1;
    while j < ls.len()
        invariant
            i < j <= ls@.len() <= u32::MAX,
            lv == views(ls@),
            opening@ == seq!['<'] + tag@,
            closing@ == seq!['<', '/'] + tag@,
            depth == depth_at(lv, tag@, i as int, j - 1),
            -((j - i) * 0xffff_ffff_ffff_ffffint) <= depth - 1 <= (j - i) * 0xffff_ffff_ffff_ffffint,
            close_line(lv, tag@, i as int) == close_from(lv, tag@, i as int, j as int),
        decreases ls@.len() - j,
    {
        assert(ls@[j as int]@ == lv[j as int]);
        let o = count_matches(ls[j].as_slice(), &opening);
        let c = count_matches(ls[j].as_slice(), &closing);
        assert(depth_at(lv, tag@, i as int, j as int) == depth + o - c);
        depth = depth + o as i128 - c as i128;
        if depth <= 0 {
            return Some(j);
        }
        j += 1;
    }
    None
}

fn inner_text_exec(r: &[char], tag: &[char]) -> (c: Vec<char>)
    ensures
        c@ == inner_text(r@, tag@),
{
    let g = crate::text::scan(r, CharClass::Exactly('>'), true, 0);
    let a = if g < r.len() { g + 1 } else { r.len() };
    let mut closing: Vec<char> = vec!['<', '/'];
    crate::text::append_chars(&mut closing, tag);
    assert(closing@ =~= seq!['<', '/'] + tag@);
    let b = match crate::text::find_sub_from_exec(r, &closing, a) {
        Some(p) => {
            proof {
                crate::text::lemma_find_sub_from(r@, closing@, a as int);
            }
            p
        },
        None => r.len(),
    };
    copy_range(r, a, b)
}

/// The `:`-joined label of a block.
fn block_label_exec(tag: &[char], attrs: &[char]) -> (r: Vec<char>)
    requires
        is_block_tag(tag@),
    ensures
        r@ == block_label(tag@, attrs@),
{
    let script = to_chars("script");
    let is_script = tag.len() == script.len() && crate::text::starts_with_exec(tag, &script);
    assert(is_script == (tag@ == "script"@)) by {
        if tag@.len() == script@.len() {
            assert(tag@.subrange(0, script@.len() as int) =~= tag@);
        }
    }
    let mut parts: Vec<Vec<char>> = Vec::new();
    let flag: Option<Vec<char>>;
    if is_script {
        parts.push(script);
        let k1 = to_chars("context=\"module\"");
        let k2 = to_chars("context='module'");
        if attr_contains_chars(attrs, &k1) || attr_contains_chars(attrs, &k2) {
            flag = Some(to_chars("module"));
        } else {
            flag = None;
        }
    } else {
        parts.push(to_chars("style"));
        let k = to_chars("global");
        if attr_contains_chars(attrs, &k) {
            flag = Some(to_chars("global"));
        } else {
            flag = None;
        }
    }
    let ghost first = views(parts@)[0];
    let ghost fv = crate::text::opt_view(flag);
    match flag {
        Some(f) => parts.push(f),
        None => {},
    }
    let lang = attr_lang_chars(attrs);
    let ghost lvv = crate::text::opt_view(lang);
    match lang {
        Some(l) => parts.push(l),
        None => {},
    }
    let ghost a = seq![first];
    let ghost b = match fv { Some(f) => a.push(f), None => a };
    let ghost c = match lvv { Some(l) => b.push(l), None => b };
    assert(views(parts@) =~= c);
    let colon: Vec<char> = vec![':'];
    assert(colon@ =~= seq![':']);
    let r = join_chars(&parts, colon.as_slice());
    if is_script {
        assert(first == "script"@);
        assert(r@ == label_of("script"@, fv, lvv));
    } else {
        assert(first == "style"@);
        assert(r@ == label_of("style"@, fv, lvv));
    }
    r
}

fn make_block(node_type: &str, label: Vec<char>, start_line: u32, end_line: u32, content_start_line: u32, content: Vec<char>) -> (r: SfcBlock)
    ensures
        r.node_type@ == node_type@,
        r.label@ == label@,
        r.start_line == start_line,
        r.end_line == end_line,
        r.content_start_line == content_start_line,
        r.content@ == content@,
        r.content_hash@ == spec_content_hash(content@),
{
    let content_s = from_chars(&content);
    let hash = content_hash(content_s.as_str());
    SfcBlock {
        node_type: node_type.to_owned(),
        label: from_chars(&label),
        start_line,
        end_line,
        content_start_line,
        content: content_s,
        content_hash: hash,
    }
}


/// The lines at the given indices, in order.
fn lines_at(ls: &Vec<Vec<char>>, idx: &Vec<usize>) -> (r: Vec<Vec<char>>)
    requires
        forall|k: int| 0 <= k < idx@.len() ==> idx@[k] < ls@.len(),
    ensures
        views(r@) == Seq::new(idx@.len(), |k: int| views(ls@)[idx@[k] as int]),
{
    let ghost target = Seq::new(idx@.len(), |k: int| views(ls@)[idx@[k] as int]);
    let mut r: Vec<Vec<char>> = Vec::new();
    let mut k: usize = 0;
    while k < idx.len()
        invariant
            k <= idx@.len(),
            forall|m: int| 0 <= m < idx@.len() ==> idx@[m] < ls@.len(),
            target == Seq::new(idx@.len(), |k: int| views(ls@)[idx@[k] as int]),
            views(r@) == target.take(k as int),
        decreases idx@.len() - k,
    {
        let l = ls[idx[k]].as_slice();
        let c = copy_range(l, 0, l.len());
        assert(c@ =~= ls@[idx@[k as int] as int]@);
        let ghost before = views(r@);
        r.push(c);
        k += 1;
        assert(views(r@) =~= before.push(target[k - 1]));
        assert(target.take(k as int) =~= target.take(k - 1).push(target[k - 1]));
    }
    assert(target.take(idx@.len() as int) =~= target);
    r
}

/// The template line indices as integers.
pub open spec fn ints(v: Seq<usize>) -> Seq<int> {
    Seq::new(v.len(), |k: int| v[k] as int)
}

pub fn extract_blocks_chars(source: &[char]) -> (r: Vec<SfcBlock>)
    requires
        line_count_fits(source@),
    ensures
        blocks_are(r@, spec_extract_blocks(source@)),
{
    let ls = split_lines(source);
    let ghost lv = lines(source@);
    let script = to_chars("script");
    let style = to_chars("style");
    let newline: Vec<char> = vec!['\n'];
    assert(newline@ =~= seq!['\n']);
    let mut blocks: Vec<SfcBlock> = Vec::new();
    let mut tmpl: Vec<usize> = Vec::new();
    let ghost mut bspec: Seq<BlockSpec> = seq![];
    assert(ints(tmpl@) =~= Seq::<int>::empty());
    let mut i: usize = 0;
    while i < ls.len()
        invariant
            i <= ls@.len() <= u32::MAX,
            lv == views(ls@),
            lv == lines(source@),
            script@ == "script"@,
            style@ == "style"@,
            newline@ == seq!['\n'],
            blocks_are(blocks@, bspec),
            forall|k: int| 0 <= k < tmpl@.len() ==> tmpl@[k] < ls@.len(),
            scan_from(lv, 0, seq![], seq![]) == scan_from(lv, i as int, ints(tmpl@), bspec),
        decreases ls@.len() - i,
    {
        assert(ls@[i as int]@ == lv[i as int]);
        let line = trim_start_class(ls[i].as_slice(), CharClass::WhiteSpace);
        let parsed = parse_tag_open_chars(&line);
        let mut opened: Option<(Vec<char>, Vec<char>)> = None;
        match parsed {
            Some((tag, attrs)) => {
                if crate::text::chars_eq(&tag, &script) || crate::text::chars_eq(&tag, &style) {
                    opened = Some((tag, attrs));
                }
            },
            None => {},
        }
        assert(crate::tags::pair_is(opened, block_open(lv[i as int])));
        match opened {
            Some((tag, attrs)) => {
                let is_script = crate::text::chars_eq(&tag, &script);
                let node_type = if is_script { "script_block" } else { "style_block" };
                assert(node_type@ == block_node_type(tag@)) by {
                    reveal_strlit("script_block");
                    reveal_strlit("style_block");
                }
                proof {
                    crate::text::lemma_trim_start_idem(lv[i as int]);
                }
                assert(line@.len() > 0 && line@[0] == '<');
                let rest = copy_range(&line, 1, line.len());
                assert(rest@ == line@.drop_first());
                let e = crate::text::scan(&rest, CharClass::TagNameEnd, true, 0);
                let after = copy_range(&rest, e, rest.len());
                assert(after@ == after_tag_name(lv[i as int]));
                let label = block_label_exec(&tag, &attrs);
                match find_close(&ls, &tag, i, &after) {
                    Some(j) => {
                        proof {
                            lemma_close_from(lv, tag@, i as int, i as int);
                        }
                        let ghost bs = closed_block(lv, tag@, attrs@, i as int, j as int);
                        if j == i {
                            let content = inner_text_exec(&after, &tag);
                            let b = make_block(node_type, label, i as u32, i as u32, i as u32, content);
                            assert(block_is(b, bs));
                            blocks.push(b);
                        } else {
                            let content = join_range(&ls, i + 1, j, &newline);
                            let b = make_block(node_type, label, i as u32, j as u32, (i + 1) as u32, content);
                            assert(block_is(b, bs));
                            blocks.push(b);
                        }
                        proof {
                            bspec = bspec.push(bs);
                        }
                        i = j + 1;
                    },
                    None => {
                        let content = join_range(&ls, i + 1, ls.len(), &newline);
                        let b = make_block(node_type, label, i as u32, (ls.len() - 1) as u32, (i + 1) as u32, content);
                        let ghost bs = open_block(lv, tag@, attrs@, i as int);
                        assert(block_is(b, bs));
                        blocks.push(b);
                        proof {
                            bspec = bspec.push(bs);
                        }
                        i = ls.len();
                    },
                }
            },
            None => {
                let ghost before = ints(tmpl@);
                tmpl.push(i);
                assert(ints(tmpl@) =~= before.push(i as int));
                i += 1;
            },
        }
    }
    let ghost tv = ints(tmpl@);
    assert(scan_from(lv, 0, seq![], seq![]) == (tv, bspec));
    if tmpl.len() > 0 {
        let tl = lines_at(&ls, &tmpl);
        assert(views(tl@) =~= Seq::new(tv.len(), |k: int| lv[tv[k]]));
        let content = join_chars(&tl, &newline);
        let first = tmpl[0];
        let last = tmpl[tmpl.len() - 1];
        let label = to_chars("template");
        let b = make_block("template_body", label, first as u32, last as u32, first as u32, content);
        let ghost bs = template_block(lv, tv);
        assert(block_is(b, bs));
        let ghost before = bspec;
        blocks.push(b);
        assert(blocks_are(blocks@, before.push(bs)));
    }
    blocks
}

/// Splits a component into its blocks: each `<script>` and `<style>` block, in order, then the
/// template block holding all other lines, if there are any.
pub fn extract_blocks(source: &str) -> (r: Vec<SfcBlock>)
    requires
        line_count_fits(source@),
    ensures
        blocks_are(r@, spec_extract_blocks(source@)),
{
    let v = to_chars(source);
    extract_blocks_chars(&v)
}


proof fn lemma_inline_no_newline(l: Seq<char>, tag: Seq<char>)
    requires
        no_newline(l),
        trim_start(l).len() > 0,
    ensures
        no_newline(inline_content(l, tag)),
{
    let k = find_from(l, CharClass::WhiteSpace, false, 0);
    crate::text::lemma_find_from(l, CharClass::WhiteSpace, false, 0);
    let t = trim_start(l);
    assert(no_newline(t)) by {
        assert forall|m: int| 0 <= m < t.len() implies t[m] != '\n' by {
            assert(t[m] == l[m + k]);
        }
    }
    let r0 = t.drop_first();
    let e = find_from(r0, CharClass::TagNameEnd, true, 0);
    crate::text::lemma_find_from(r0, CharClass::TagNameEnd, true, 0);
    let r = after_tag_name(l);
    assert(no_newline(r)) by {
        assert forall|m: int| 0 <= m < r.len() implies r[m] != '\n' by {
            assert(r[m] == r0[m + e]);
            assert(r0[m + e] == t[m + e + 1]);
        }
    }
    let g = find_from(r, CharClass::Exactly('>'), true, 0);
    crate::text::lemma_find_from(r, CharClass::Exactly('>'), true, 0);
    let a = if g < r.len() { g + 1 } else { r.len() as int };
    crate::text::lemma_find_sub_from(r, seq!['<', '/'] + tag, a);
    let c = inline_content(l, tag);
    assert forall|m: int| 0 <= m < c.len() implies c[m] != '\n' by {
        assert(c[m] == r[m + a]);
    }
}

/// The content lines of a block get line numbers that fit in `u32`.
pub open spec fn block_lines_fit(b: BlockSpec) -> bool {
    0 <= b.content_start_line && b.content_start_line + lines(b.content).len() <= u32::MAX + 1
}

pub open spec fn strictly_increasing(t: Seq<int>) -> bool {
    forall|a: int, b: int| 0 <= a < b < t.len() ==> t[a] < t[b]
}

proof fn lemma_increasing_spread(t: Seq<int>, k: int)
    requires
        strictly_increasing(t),
        0 <= k < t.len(),
    ensures
        t[0] + k <= t[k],
    decreases k,
{
    if k > 0 {
        lemma_increasing_spread(t, k - 1);
        assert(t[k - 1] < t[k]);
    }
}

proof fn lemma_scan_fits(ls: Seq<Seq<char>>, i: int, tmpl: Seq<int>, blocks: Seq<BlockSpec>)
    requires
        0 <= i,
        ls.len() <= u32::MAX,
        forall|k: int| 0 <= k < ls.len() ==> no_newline(#[trigger] ls[k]),
        forall|k: int| 0 <= k < blocks.len() ==> block_lines_fit(#[trigger] blocks[k]),
        strictly_increasing(tmpl),
        forall|k: int| 0 <= k < tmpl.len() ==> 0 <= #[trigger] tmpl[k] < i && tmpl[k] < ls.len(),
    ensures
        ({
            let (t, b) = scan_from(ls, i, tmpl, blocks);
            &&& forall|k: int| 0 <= k < b.len() ==> block_lines_fit(#[trigger] b[k])
            &&& strictly_increasing(t)
            &&& forall|k: int| 0 <= k < t.len() ==> 0 <= #[trigger] t[k] < ls.len()
        }),
    decreases ls.len() - i,
{
    if i < ls.len() {
        match block_open(ls[i]) {
            Some((tag, attrs)) => {
                lemma_close_from(ls, tag, i, i);
                match close_line(ls, tag, i) {
                    Some(j) => {
                        if j == i {
                            let c = inline_content(ls[i], tag);
                            crate::text::lemma_trim_start_idem(ls[i]);
                            lemma_inline_no_newline(ls[i], tag);
                            lemma_lines_of_join(seq![c]);
                            assert(join(seq![c], seq!['\n']) == c);
                        } else {
                            let sub = ls.subrange(i + 1, j);
                            lemma_lines_of_join(sub);
                        }
                        let nb = closed_block(ls, tag, attrs, i, j);
                        assert(block_lines_fit(nb));
                        let bs = blocks.push(nb);
                        assert forall|k: int| 0 <= k < bs.len() implies block_lines_fit(#[trigger] bs[k]) by {
                            if k < blocks.len() {
                                assert(bs[k] == blocks[k]);
                            }
                        }
                        lemma_scan_fits(ls, j + 1, tmpl, bs);
                    },
                    None => {
                        let sub = ls.subrange(i + 1, ls.len() as int);
                        lemma_lines_of_join(sub);
                        let nb = open_block(ls, tag, attrs, i);
                        assert(block_lines_fit(nb));
                        let bs = blocks.push(nb);
                        assert forall|k: int| 0 <= k < bs.len() implies block_lines_fit(#[trigger] bs[k]) by {
                            if k < blocks.len() {
                                assert(bs[k] == blocks[k]);
                            }
                        }
                    },
                }
            },
            None => {
                let t2 = tmpl.push(i);
                assert(strictly_increasing(t2)) by {
                    assert forall|a: int, b: int| 0 <= a < b < t2.len() implies t2[a] < t2[b] by {
                        if b < tmpl.len() {
                            assert(t2[a] == tmpl[a] && t2[b] == tmpl[b]);
                        } else {
                            assert(t2[a] == tmpl[a]);
                        }
                    }
                }
                assert forall|k: int| 0 <= k < t2.len() implies 0 <= #[trigger] t2[k] < i + 1 && t2[k] < ls.len() by {
                    if k < tmpl.len() {
                        assert(t2[k] == tmpl[k]);
                    }
                }
                lemma_scan_fits(ls, i + 1, t2, blocks);
            },
        }
    }
}

/// Every block of a component gets content line numbers that fit in `u32`.
pub proof fn lemma_blocks_fit(source: Seq<char>)
    requires
        line_count_fits(source),
    ensures
        forall|k: int| 0 <= k < spec_extract_blocks(source).len() ==> block_lines_fit(
            #[trigger] spec_extract_blocks(source)[k],
        ),
{
    let ls = lines(source);
    lemma_lines_no_newline(source, 0);
    lemma_scan_fits(ls, 0, seq![], seq![]);
    let (t, b) = scan_from(ls, 0, seq![], seq![]);
    if t.len() > 0 {
        let p = Seq::new(t.len(), |k: int| ls[t[k]]);
        lemma_lines_of_join(p);
        lemma_increasing_spread(t, t.len() - 1);
        let tb = template_block(ls, t);
        assert(block_lines_fit(tb));
        let all = b.push(tb);
        assert forall|k: int| 0 <= k < all.len() implies block_lines_fit(#[trigger] all[k]) by {
            if k < b.len() {
                assert(all[k] == b[k]);
            }
        }
    }
}

} // verus!
