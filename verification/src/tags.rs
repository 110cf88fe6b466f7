//! Tags and attributes: opening tags of whole lines, tag segments inside markup,
//! attribute lists and `{...}` interpolations.

use vstd::prelude::*;
use crate::text::{
    CharClass, contains, contains_exec, copy_range, find_from, from_chars, lowercase, scan,
    split_words, starts_with, starts_with_exec, to_chars, to_lower, trim, trim_char, trim_class,
    trim_end_char, trim_end_class, trim_start, trim_start_class, trim_ws, views, words,
    append_chars, lemma_find_from, str_views, to_strings,
};

verus! {

broadcast use vstd::string::group_string_axioms;

/// An optional pair of texts, as produced by the executable tag parsers.
pub open spec fn pair_is(r: Option<(Vec<char>, Vec<char>)>, s: Option<(Seq<char>, Seq<char>)>) -> bool {
    match r {
        Some((a, b)) => s == Some((a@, b@)),
        None => s is None,
    }
}

/// An optional pair of strings.
pub open spec fn string_pair_is(r: Option<(String, String)>, s: Option<(Seq<char>, Seq<char>)>) -> bool {
    match r {
        Some((a, b)) => s == Some((a@, b@)),
        None => s is None,
    }
}

fn to_string_pair(r: Option<(Vec<char>, Vec<char>)>) -> (o: Option<(String, String)>)
    ensures
        forall|s: Option<(Seq<char>, Seq<char>)>| pair_is(r, s) ==> string_pair_is(o, s),
{
    match r {
        Some((a, b)) => Some((from_chars(&a), from_chars(&b))),
        None => None,
    }
}

/// Opening tag at the start of a line (after leading whitespace): the lower-cased tag name and
/// the text after it, trimmed and without trailing `>`. Closing tags, `<!...>` and a bare `<`
/// give `None`.
pub open spec fn spec_parse_tag_open(line: Seq<char>) -> Option<(Seq<char>, Seq<char>)> {
    let t = trim_start(line);
    if !(t.len() > 0 && t[0] == '<') {
        None
    } else {
        let rest = t.drop_first();
        let e = find_from(rest, CharClass::TagNameEnd, true, 0);
        let tag = rest.take(e);
        if tag.len() == 0 || tag[0] == '/' || tag[0] == '!' {
            None
        } else {
            Some((to_lower(tag), trim_end_char(trim(rest.skip(e)), '>')))
        }
    }
}

pub fn parse_tag_open_chars(line: &[char]) -> (r: Option<(Vec<char>, Vec<char>)>)
    ensures
        pair_is(r, spec_parse_tag_open(line@)),
{
    let t = trim_start_class(line, CharClass::WhiteSpace);
    if !(t.len() > 0 && t[0] == '<') {
        return None;
    }
    let rest = copy_range(&t, 1, t.len());
    assert(rest@ == t@.drop_first());
    let e = scan(&rest, CharClass::TagNameEnd, true, 0);
    let tag = copy_range(&rest, 0, e);
    if tag.len() == 0 || tag[0] == '/' || tag[0] == '!' {
        return None;
    }
    let after = copy_range(&rest, e, rest.len());
    let trimmed = trim_ws(&after);
    let attrs = trim_end_class(&trimmed, CharClass::Exactly('>'));
    let lower = lowercase(&tag);
    Some((lower, attrs))
}

/// Parses the opening tag that starts `line`.
pub fn parse_tag_open(line: &str) -> (r: Option<(String, String)>)
    ensures
        string_pair_is(r, spec_parse_tag_open(line@)),
{
    let v = to_chars(line);
    to_string_pair(parse_tag_open_chars(&v))
}

/// `attrs`, lower-cased, contains `keyword`.
pub fn attr_contains_chars(attrs: &[char], keyword: &[char]) -> (r: bool)
    ensures
        r == contains(to_lower(attrs@), keyword@),
{
    let l = lowercase(attrs);
    contains_exec(&l, keyword)
}

/// Whether the lower-cased attribute text contains `keyword`.
pub fn attr_contains(attrs: &str, keyword: &str) -> (r: bool)
    ensures
        r == contains(to_lower(attrs@), keyword@),
{
    let a = to_chars(attrs);
    let k = to_chars(keyword);
    attr_contains_chars(&a, &k)
}

/// The value of a lower-cased attribute word that starts with `lang=`, with surrounding quotes
/// removed.
pub open spec fn spec_lang_of_lowered_word(l: Seq<char>) -> Option<Seq<char>> {
    if starts_with(l, "lang="@) {
        Some(trim_char(trim_char(l.skip("lang="@.len() as int), '"'), '\''))
    } else {
        None
    }
}

/// The value of a `lang=` attribute word (lower-cased, quotes removed), if the word is one.
pub open spec fn lang_of_word(w: Seq<char>) -> Option<Seq<char>> {
    spec_lang_of_lowered_word(to_lower(w))
}

/// The `lang=` value of an attribute word that has already been lower-cased.
pub fn lang_of_lowered_word(l: &[char]) -> (r: Option<Vec<char>>)
    ensures
        crate::text::opt_view(r) == spec_lang_of_lowered_word(l@),
{
    let prefix = to_chars("lang=");
    if starts_with_exec(l, &prefix) {
        let tail = copy_range(l, prefix.len(), l.len());
        let a = trim_class(&tail, CharClass::Exactly('"'));
        let b = trim_class(&a, CharClass::Exactly('\''));
        Some(b)
    } else {
        None
    }
}

/// The first `lang=` value among `ws[i..]`.
pub open spec fn first_lang(ws: Seq<Seq<char>>, i: int) -> Option<Seq<char>>
    decreases ws.len() - i,
{
    if i < 0 || i >= ws.len() {
        None
    } else {
        match lang_of_word(ws[i]) {
            Some(x) => Some(x),
            None => first_lang(ws, i + 1),
        }
    }
}

/// The `lang=` value of an attribute text: the first whitespace-separated word that starts with
/// `lang=` once lower-cased, with the prefix and surrounding quotes removed.
pub open spec fn spec_attr_lang(attrs: Seq<char>) -> Option<Seq<char>> {
    first_lang(words(attrs), 0)
}

pub fn attr_lang_chars(attrs: &[char]) -> (r: Option<Vec<char>>)
    ensures
        match r {
            Some(x) => spec_attr_lang(attrs@) == Some(x@),
            None => spec_attr_lang(attrs@) is None,
        },
{
    let ws = split_words(attrs);
    let mut i: usize = 0;
    while i < ws.len()
        invariant
            i <= ws@.len(),
            views(ws@) == words(attrs@),
            spec_attr_lang(attrs@) == first_lang(views(ws@), i as int),
        decreases ws@.len() - i,
    {
        let p = lowercase(ws[i].as_slice());
        assert(ws@[i as int]@ == views(ws@)[i as int]);
        let found = lang_of_lowered_word(&p);
        if found.is_some() {
            return found;
        }
        i += 1;
    }
    None
}

/// The `lang=` attribute value of an attribute text.
pub fn attr_lang(attrs: &str) -> (r: Option<String>)
    ensures
        match r {
            Some(x) => spec_attr_lang(attrs@) == Some(x@),
            None => spec_attr_lang(attrs@) is None,
        },
{
    let a = to_chars(attrs);
    match attr_lang_chars(&a) {
        Some(x) => Some(from_chars(&x)),
        None => None,
    }
}


/// The label of one attribute word: `name` or `name=value`, where the value loses surrounding
/// whitespace, quotes and braces. Words that are empty after removing trailing `>` and `/`, or
/// whose name is empty, give no label.
pub open spec fn attr_label(w: Seq<char>) -> Option<Seq<char>> {
    let clean = trim(trim_end_char(trim_end_char(trim(w), '>'), '/'));
    if clean.len() == 0 {
        None
    } else {
        let k = find_from(clean, CharClass::Exactly('='), true, 0);
        let name = trim(clean.take(k));
        let value = if k < clean.len() { clean.skip(k + 1) } else { seq![] };
        if name.len() == 0 {
            None
        } else if value.len() == 0 {
            Some(name)
        } else {
            Some(name + seq!['='] + trim_char(
                trim_char(trim_char(trim_char(trim(value), '"'), '\''), '{'),
                '}',
            ))
        }
    }
}

/// Labels of the attributes in an attribute text, in order.
pub open spec fn spec_attr_labels(attrs: Seq<char>) -> Seq<Seq<char>> {
    labels_of_words(words(attrs))
}

/// The labels of the attribute words `ws` that give one, in order.
pub open spec fn labels_of_words(ws: Seq<Seq<char>>) -> Seq<Seq<char>> {
    ws.filter_map(|w: Seq<char>| attr_label(w))
}

pub fn attr_label_chars(w: &[char]) -> (r: Option<Vec<char>>)
    ensures
        match r {
            Some(x) => attr_label(w@) == Some(x@),
            None => attr_label(w@) is None,
        },
{
    let t0 = trim_ws(w);
    let t1 = trim_end_class(&t0, CharClass::Exactly('>'));
    let t2 = trim_end_class(&t1, CharClass::Exactly('/'));
    let clean = trim_ws(&t2);
    if clean.len() == 0 {
        return None;
    }
    let k = scan(&clean, CharClass::Exactly('='), true, 0);
    let name_raw = copy_range(&clean, 0, k);
    let name = trim_ws(&name_raw);
    let value = if k < clean.len() {
        copy_range(&clean, k + 1, clean.len())
    } else {
        Vec::new()
    };
    assert(value@ == (if k < clean@.len() { clean@.skip(k + 1) } else { seq![] }));
    if name.len() == 0 {
        return None;
    }
    if value.len() == 0 {
        return Some(name);
    }
    let v0 = trim_ws(&value);
    let v1 = trim_class(&v0, CharClass::Exactly('"'));
    let v2 = trim_class(&v1, CharClass::Exactly('\''));
    let v3 = trim_class(&v2, CharClass::Exactly('{'));
    let v4 = trim_class(&v3, CharClass::Exactly('}'));
    let mut out = name;
    out.push('=');
    append_chars(&mut out, &v4);
    Some(out)
}

pub fn parse_attr_labels_chars(attrs: &[char]) -> (r: Vec<Vec<char>>)
    ensures
        views(r@) == spec_attr_labels(attrs@),
{
    let ws = split_words(attrs);
    let ghost f = |w: Seq<char>| attr_label(w);
    let mut out: Vec<Vec<char>> = Vec::new();
    let mut i: usize = 0;
    while i < ws.len()
        invariant
            i <= ws@.len(),
            views(ws@) == words(attrs@),
            f == (|w: Seq<char>| attr_label(w)),
            views(out@) == views(ws@).take(i as int).filter_map(f),
        decreases ws@.len() - i,
    {
        let ghost before = views(out@);
        assert(views(ws@).take(i + 1).drop_last() =~= views(ws@).take(i as int));
        assert(ws@[i as int]@ == views(ws@)[i as int]);
        assert(views(ws@).take(i + 1).last() == views(ws@)[i as int]);
        match attr_label_chars(ws[i].as_slice()) {
            Some(x) => {
                let ghost xv = x@;
                out.push(x);
                assert(views(out@) =~= before + seq![xv]);
                let ghost t = views(ws@).take(i + 1);
                assert(f(t.last()) == Some(xv));
                assert(t.filter_map(f) == t.drop_last().filter_map(f) + seq![xv]);
                assert(views(out@) =~= views(ws@).take(i + 1).filter_map(f));
            },
            None => {
                let ghost t = views(ws@).take(i + 1);
                assert(f(t.last()) is None);
                assert(t.filter_map(f) == t.drop_last().filter_map(f));
                assert(views(out@) =~= views(ws@).take(i + 1).filter_map(f));
            },
        }
        i += 1;
    }
    assert(views(ws@).take(ws@.len() as int) =~= views(ws@));
    out
}

/// Labels of the attributes in an attribute text.
pub fn parse_attr_labels(attrs: &str) -> (r: Vec<String>)
    ensures
        str_views(r@) == spec_attr_labels(attrs@),
{
    let a = to_chars(attrs);
    let v = parse_attr_labels_chars(&a);
    to_strings(&v)
}

/// A tag segment (the text between `<` and `>`): the lower-cased tag name and its attribute
/// text, for an opening or self-closing tag; `None` for empty segments, closing tags and `<!...>`.
pub open spec fn spec_parse_tag_segment(segment: Seq<char>) -> Option<(Seq<char>, Seq<char>)> {
    let t = trim(segment);
    if t.len() == 0 || t[0] == '/' || t[0] == '!' {
        None
    } else {
        let e = find_from(t, CharClass::TagNameEnd, true, 0);
        let tag = trim(t.take(e));
        if tag.len() == 0 {
            None
        } else {
            Some((to_lower(tag), trim(trim_end_char(trim(t.skip(e)), '/'))))
        }
    }
}

pub fn parse_tag_segment_chars(segment: &[char]) -> (r: Option<(Vec<char>, Vec<char>)>)
    ensures
        pair_is(r, spec_parse_tag_segment(segment@)),
        r matches Some((tag, _)) ==> tag@.len() > 0,
{
    let t = trim_ws(segment);
    if t.len() == 0 || t[0] == '/' || t[0] == '!' {
        return None;
    }
    let e = scan(&t, CharClass::TagNameEnd, true, 0);
    let tag_raw = copy_range(&t, 0, e);
    let tag = trim_ws(&tag_raw);
    if tag.len() == 0 {
        return None;
    }
    let after = copy_range(&t, e, t.len());
    let a0 = trim_ws(&after);
    let a1 = trim_end_class(&a0, CharClass::Exactly('/'));
    let attrs = trim_ws(&a1);
    let lower = lowercase(&tag);
    Some((lower, attrs))
}

/// Parses the text between `<` and `>` of a tag. A tag name it gives is never empty.
pub fn parse_tag_segment(segment: &str) -> (r: Option<(String, String)>)
    ensures
        string_pair_is(r, spec_parse_tag_segment(segment@)),
        r matches Some((tag, _)) ==> tag@.len() > 0,
{
    let v = to_chars(segment);
    to_string_pair(parse_tag_segment_chars(&v))
}

/// Labels of `{...}` interpolations in `s` from index `i` on. `{{` is skipped; a `{` without a
/// later `}` ends the scan; empty labels and labels starting with `#` or `/` are left out.
pub open spec fn brace_labels_from(s: Seq<char>, i: int) -> Seq<Seq<char>>
    decreases s.len() - i,
{
    if i < 0 || i > s.len() {
        seq![]
    } else {
        let st = find_from(s, CharClass::Exactly('{'), true, i);
        proof {
            lemma_find_from(s, CharClass::Exactly('{'), true, i);
        }
        if st >= s.len() {
            seq![]
        } else if st + 1 < s.len() && s[st + 1] == '{' {
            brace_labels_from(s, st + 2)
        } else {
            let en = find_from(s, CharClass::Exactly('}'), true, st + 1);
            proof {
                lemma_find_from(s, CharClass::Exactly('}'), true, st + 1);
            }
            if en >= s.len() {
                seq![]
            } else {
                let label = trim(s.subrange(st + 1, en));
                let rest = brace_labels_from(s, en + 1);
                if label.len() > 0 && label[0] != '#' && label[0] != '/' {
                    seq![label] + rest
                } else {
                    rest
                }
            }
        }
    }
}

/// An interpolation label is not empty and does not start with `#` or `/`.
pub open spec fn is_interpolation_label(l: Seq<char>) -> bool {
    l.len() > 0 && l[0] != '#' && l[0] != '/'
}

pub proof fn lemma_brace_labels_shape(s: Seq<char>, i: int)
    ensures
        forall|k: int| 0 <= k < brace_labels_from(s, i).len() ==> is_interpolation_label(
            #[trigger] brace_labels_from(s, i)[k],
        ),
    decreases s.len() - i,
{
    if 0 <= i <= s.len() {
        let st = find_from(s, CharClass::Exactly('{'), true, i);
        lemma_find_from(s, CharClass::Exactly('{'), true, i);
        if st < s.len() {
            if st + 1 < s.len() && s[st + 1] == '{' {
                lemma_brace_labels_shape(s, st + 2);
                assert(brace_labels_from(s, i) == brace_labels_from(s, st + 2));
            } else {
                let en = find_from(s, CharClass::Exactly('}'), true, st + 1);
                lemma_find_from(s, CharClass::Exactly('}'), true, st + 1);
                if en < s.len() {
                    lemma_brace_labels_shape(s, en + 1);
                    let r = brace_labels_from(s, i);
                    let rest = brace_labels_from(s, en + 1);
                    let label = trim(s.subrange(st + 1, en));
                    if is_interpolation_label(label) {
                        assert(r == seq![label] + rest);
                        assert forall|k: int| 0 <= k < r.len() implies is_interpolation_label(#[trigger] r[k]) by {
                            if k > 0 {
                                assert(r[k] == rest[k - 1]);
                            }
                        }
                    } else {
                        assert(r == rest);
                    }
                }
            }
        }
    }
}

/// Labels of the `{...}` interpolations in a line.
pub open spec fn spec_brace_labels(line: Seq<char>) -> Seq<Seq<char>> {
    brace_labels_from(line, 0)
}

pub fn brace_labels_chars(line: &[char]) -> (r: Vec<Vec<char>>)
    ensures
        views(r@) == spec_brace_labels(line@),
{
    let mut out: Vec<Vec<char>> = Vec::new();
    let mut i: usize = 0;
    loop
        invariant
            i <= line@.len(),
            views(out@) + brace_labels_from(line@, i as int) == spec_brace_labels(line@),
        decreases line@.len() - i,
    {
        let st = scan(line, CharClass::Exactly('{'), true, i);
        if st >= line.len() {
            assert(views(out@) + brace_labels_from(line@, i as int) =~= views(out@));
            return out;
        }
        if st + 1 < line.len() && line[st + 1] == '{' {
            i = st + 2;
        } else {
            let en = scan(line, CharClass::Exactly('}'), true, st + 1);
            if en >= line.len() {
                assert(views(out@) + brace_labels_from(line@, i as int) =~= views(out@));
                return out;
            }
            let raw = copy_range(line, st + 1, en);
            let label = trim_ws(&raw);
            if label.len() > 0 && label[0] != '#' && label[0] != '/' {
                let ghost before = views(out@);
                out.push(label);
                assert(views(out@) =~= before + seq![trim(line@.subrange(st + 1, en as int))]);
                assert(views(out@) + brace_labels_from(line@, en + 1) =~= before + (seq![trim(
                    line@.subrange(st + 1, en as int),
                )] + brace_labels_from(line@, en + 1)));
            }
            i = en + 1;
        }
    }
}

/// Labels of the `{...}` interpolations in a line.
pub fn extract_brace_labels(line: &str) -> (r: Vec<String>)
    ensures
        str_views(r@) == spec_brace_labels(line@),
        forall|k: int| 0 <= k < r@.len() ==> is_interpolation_label(#[trigger] r@[k]@),
{
    proof {
        lemma_brace_labels_shape(line@, 0);
    }
    let v = to_chars(line);
    let labels = brace_labels_chars(&v);
    let r = to_strings(&labels);
    assert forall|k: int| 0 <= k < r@.len() implies is_interpolation_label(#[trigger] r@[k]@) by {
        assert(r@[k]@ == str_views(r@)[k]);
    }
    r
}


/// The texts between each `<` and the next `>` in `s` from index `i` on, scanning left to right;
/// a `<` without a later `>` ends the scan.
pub open spec fn segments_from(s: Seq<char>, i: int) -> Seq<Seq<char>>
    decreases s.len() - i,
{
    if i < 0 || i > s.len() {
        seq![]
    } else {
        let o = find_from(s, CharClass::Exactly('<'), true, i);
        proof {
            lemma_find_from(s, CharClass::Exactly('<'), true, i);
        }
        if o >= s.len() {
            seq![]
        } else {
            let c = find_from(s, CharClass::Exactly('>'), true, o + 1);
            proof {
                lemma_find_from(s, CharClass::Exactly('>'), true, o + 1);
            }
            if c >= s.len() {
                seq![]
            } else {
                seq![s.subrange(o + 1, c)] + segments_from(s, c + 1)
            }
        }
    }
}

/// The tag segments of a line of markup.
pub open spec fn segments(line: Seq<char>) -> Seq<Seq<char>> {
    segments_from(line, 0)
}

pub fn segments_chars(line: &[char]) -> (r: Vec<Vec<char>>)
    ensures
        views(r@) == segments(line@),
{
    let mut out: Vec<Vec<char>> = Vec::new();
    let mut i: usize = 0;
    loop
        invariant
            i <= line@.len(),
            views(out@) + segments_from(line@, i as int) == segments(line@),
        decreases line@.len() - i,
    {
        let o = scan(line, CharClass::Exactly('<'), true, i);
        if o >= line.len() {
            assert(views(out@) + segments_from(line@, i as int) =~= views(out@));
            return out;
        }
        let c = scan(line, CharClass::Exactly('>'), true, o + 1);
        if c >= line.len() {
            assert(views(out@) + segments_from(line@, i as int) =~= views(out@));
            return out;
        }
        let ghost before = views(out@);
        let seg = copy_range(line, o + 1, c);
        out.push(seg);
        assert(views(out@) =~= before + seq![line@.subrange(o + 1, c as int)]);
        assert(views(out@) + segments_from(line@, c + 1) =~= before + (seq![line@.subrange(
            o + 1,
            c as int,
        )] + segments_from(line@, c + 1)));
        i = c + 1;
    }
}

/// The elements of a line of markup: its tag segments that parse as opening tags.
pub open spec fn template_tags(line: Seq<char>) -> Seq<(Seq<char>, Seq<char>)> {
    segments(line).filter_map(|seg: Seq<char>| spec_parse_tag_segment(seg))
}

} // verus!
