//! Statements of a `<script>` block: names of declarations, functions and assignment targets.

use vstd::prelude::*;
use crate::text::{
    CharClass, copy_range, find_from, find_sub, find_sub_exec, scan, starts_with,
    starts_with_exec, to_chars, trim, trim_end_char, trim_end_class, trim_ws, from_chars,
};

verus! {

broadcast use vstd::string::group_string_axioms;

pub open spec fn is_ascii_alpha(c: char) -> bool {
    ('a' <= c <= 'z') || ('A' <= c <= 'Z')
}

pub open spec fn is_ascii_alnum(c: char) -> bool {
    is_ascii_alpha(c) || ('0' <= c <= '9')
}

/// May start an identifier: an ASCII letter, `_` or `$`.
pub open spec fn ident_start(c: char) -> bool {
    is_ascii_alpha(c) || c == '_' || c == '$'
}

/// May continue an identifier: an ASCII letter or digit, `_`, `$` or `-`.
pub open spec fn ident_continue(c: char) -> bool {
    is_ascii_alnum(c) || c == '_' || c == '$' || c == '-'
}

/// A non-empty text that starts like an identifier and continues like one.
pub open spec fn spec_is_identifier_like(v: Seq<char>) -> bool {
    &&& v.len() > 0
    &&& ident_start(v[0])
    &&& forall|j: int| 1 <= j < v.len() ==> ident_continue(#[trigger] v[j])
}

fn ident_start_exec(c: char) -> (r: bool)
    ensures
        r == ident_start(c),
{
    (c >= 'a' && c <= 'z') || (c >= 'A' && c <= 'Z') || c == '_' || c == '$'
}

fn ident_continue_exec(c: char) -> (r: bool)
    ensures
        r == ident_continue(c),
{
    (c >= 'a' && c <= 'z') || (c >= 'A' && c <= 'Z') || (c >= '0' && c <= '9') || c == '_'
        || c == '$' || c == '-'
}

pub fn is_identifier_like_chars(v: &[char]) -> (r: bool)
    ensures
        r == spec_is_identifier_like(v@),
{
    if v.len() == 0 || !ident_start_exec(v[0]) {
        return false;
    }
    let mut j: usize = 1;
    while j < v.len()
        invariant
            1 <= j <= v@.len(),
            forall|m: int| 1 <= m < j ==> ident_continue(#[trigger] v@[m]),
        decreases v@.len() - j,
    {
        if !ident_continue_exec(v[j]) {
            return false;
        }
        j += 1;
    }
    true
}

/// Whether `value` looks like an identifier.
pub fn is_identifier_like(value: &str) -> (r: bool)
    ensures
        r == spec_is_identifier_like(value@),
{
    let v = to_chars(value);
    is_identifier_like_chars(&v)
}

/// A statement line, trimmed; then its trailing `,` characters removed, then its trailing `;`
/// characters, then trimmed again.
pub open spec fn spec_normalize_statement(line: Seq<char>) -> Seq<char> {
    trim(trim_end_char(trim_end_char(trim(line), ','), ';'))
}

pub fn normalize_statement_chars(line: &[char]) -> (r: Vec<char>)
    ensures
        r@ == spec_normalize_statement(line@),
{
    let a = trim_ws(line);
    let b = trim_end_class(&a, CharClass::Exactly(','));
    let c = trim_end_class(&b, CharClass::Exactly(';'));
    trim_ws(&c)
}

/// A statement line, trimmed and without trailing `,` and `;`.
pub fn normalize_statement(line: &str) -> (r: String)
    ensures
        r@ == spec_normalize_statement(line@),
{
    let v = to_chars(line);
    let n = normalize_statement_chars(&v);
    from_chars(&n)
}

/// Where the name declared after keyword `kw` lies in `line`, if `line` starts with `kw` and the
/// name (up to whitespace, `=`, `:` or `;`) looks like an identifier.
pub open spec fn decl_range(line: Seq<char>, kw: Seq<char>) -> Option<(int, int)> {
    if starts_with(line, kw) {
        let rest = line.skip(kw.len() as int);
        let e = find_from(rest, CharClass::DeclNameEnd, true, 0);
        if spec_is_identifier_like(rest.take(e)) {
            Some((kw.len() as int, kw.len() + e))
        } else {
            None
        }
    } else {
        None
    }
}

/// The range of the name of a `const`, `let` or `var` declaration.
pub open spec fn spec_declaration_range(line: Seq<char>) -> Option<(int, int)> {
    match decl_range(line, "const "@) {
        Some(r) => Some(r),
        None => match decl_range(line, "let "@) {
            Some(r) => Some(r),
            None => decl_range(line, "var "@),
        },
    }
}

/// The name declared by a `const`, `let` or `var` statement.
pub open spec fn spec_declaration_name(line: Seq<char>) -> Option<Seq<char>> {
    match spec_declaration_range(line) {
        Some((a, b)) => Some(line.subrange(a, b)),
        None => None,
    }
}

fn decl_range_exec(line: &[char], kw: &[char]) -> (r: Option<(usize, usize)>)
    ensures
        match r {
            Some((a, b)) => decl_range(line@, kw@) == Some((a as int, b as int)) && a <= b
                <= line@.len(),
            None => decl_range(line@, kw@) is None,
        },
{
    if !starts_with_exec(line, kw) {
        return None;
    }
    let rest = copy_range(line, kw.len(), line.len());
    let e = scan(&rest, CharClass::DeclNameEnd, true, 0);
    let name = copy_range(&rest, 0, e);
    if is_identifier_like_chars(&name) {
        Some((kw.len(), kw.len() + e))
    } else {
        None
    }
}

pub fn declaration_range_chars(line: &[char]) -> (r: Option<(usize, usize)>)
    ensures
        match r {
            Some((a, b)) => spec_declaration_range(line@) == Some((a as int, b as int)) && a <= b
                <= line@.len(),
            None => spec_declaration_range(line@) is None,
        },
{
    let k1 = to_chars("const ");
    if let Some(r) = decl_range_exec(line, &k1) {
        return Some(r);
    }
    let k2 = to_chars("let ");
    if let Some(r) = decl_range_exec(line, &k2) {
        return Some(r);
    }
    let k3 = to_chars("var ");
    decl_range_exec(line, &k3)
}

/// The name declared by a `const`, `let` or `var` statement, if it looks like an identifier.
pub fn declaration_name(line: &str) -> (r: Option<&str>)
    ensures
        match r {
            Some(x) => spec_declaration_name(line@) == Some(x@),
            None => spec_declaration_name(line@) is None,
        },
{
    let v = to_chars(line);
    match declaration_range_chars(&v) {
        Some((a, b)) => Some(line.substring_char(a, b)),
        None => None,
    }
}

/// Where the name of a `function` declaration lies in `line`.
pub open spec fn spec_function_range(line: Seq<char>) -> Option<(int, int)> {
    if starts_with(line, "function "@) {
        let k = "function "@.len() as int;
        let rest = line.skip(k);
        let e = find_from(rest, CharClass::FnNameEnd, true, 0);
        if spec_is_identifier_like(rest.take(e)) {
            Some((k, k + e))
        } else {
            None
        }
    } else {
        None
    }
}

/// The name of a `function` declaration, if it looks like an identifier.
pub open spec fn spec_function_name(line: Seq<char>) -> Option<Seq<char>> {
    match spec_function_range(line) {
        Some((a, b)) => Some(line.subrange(a, b)),
        None => None,
    }
}

pub fn function_range_chars(line: &[char]) -> (r: Option<(usize, usize)>)
    ensures
        match r {
            Some((a, b)) => spec_function_range(line@) == Some((a as int, b as int)) && a <= b
                <= line@.len(),
            None => spec_function_range(line@) is None,
        },
{
    let kw = to_chars("function ");
    if !starts_with_exec(line, &kw) {
        return None;
    }
    let rest = copy_range(line, kw.len(), line.len());
    let e = scan(&rest, CharClass::FnNameEnd, true, 0);
    let name = copy_range(&rest, 0, e);
    if is_identifier_like_chars(&name) {
        Some((kw.len(), kw.len() + e))
    } else {
        None
    }
}

/// The name of a `function` declaration.
pub fn function_name(line: &str) -> (r: Option<&str>)
    ensures
        match r {
            Some(x) => spec_function_name(line@) == Some(x@),
            None => spec_function_name(line@) is None,
        },
{
    let v = to_chars(line);
    match function_range_chars(&v) {
        Some((a, b)) => Some(line.substring_char(a, b)),
        None => None,
    }
}

/// The assignment target before the first occurrence of operator `op`, trimmed, unless it is
/// empty or starts with `return`, `const `, `let ` or `var `.
pub open spec fn assign_with(line: Seq<char>, op: Seq<char>) -> Option<Seq<char>> {
    match find_sub(line, op) {
        Some(k) => {
            let label = trim(line.take(k));
            if label.len() > 0 && !starts_with(label, "return"@) && !starts_with(label, "const "@)
                && !starts_with(label, "let "@) && !starts_with(label, "var "@) {
                Some(label)
            } else {
                None
            }
        },
        None => None,
    }
}

/// The target of an assignment, trying `+=`, `-=`, `*=`, `/=` and `=` in that order.
pub open spec fn spec_assignment_label(line: Seq<char>) -> Option<Seq<char>> {
    match assign_with(line, "+="@) {
        Some(l) => Some(l),
        None => match assign_with(line, "-="@) {
            Some(l) => Some(l),
            None => match assign_with(line, "*="@) {
                Some(l) => Some(l),
                None => match assign_with(line, "/="@) {
                    Some(l) => Some(l),
                    None => assign_with(line, "="@),
                },
            },
        },
    }
}

fn assign_with_exec(line: &[char], op: &str) -> (r: Option<Vec<char>>)
    ensures
        match r {
            Some(x) => assign_with(line@, op@) == Some(x@),
            None => assign_with(line@, op@) is None,
        },
{
    let p = to_chars(op);
    match find_sub_exec(line, &p) {
        Some(k) => {
            proof {
                crate::text::lemma_find_sub_from(line@, p@, 0);
            }
            let raw = copy_range(line, 0, k);
            let label = trim_ws(&raw);
            let r1 = to_chars("return");
            let r2 = to_chars("const ");
            let r3 = to_chars("let ");
            let r4 = to_chars("var ");
            if label.len() > 0 && !starts_with_exec(&label, &r1) && !starts_with_exec(&label, &r2)
                && !starts_with_exec(&label, &r3) && !starts_with_exec(&label, &r4) {
                Some(label)
            } else {
                None
            }
        },
        None => None,
    }
}

pub fn assignment_label_chars(line: &[char]) -> (r: Option<Vec<char>>)
    ensures
        match r {
            Some(x) => spec_assignment_label(line@) == Some(x@),
            None => spec_assignment_label(line@) is None,
        },
{
    if let Some(l) = assign_with_exec(line, "+=") {
        return Some(l);
    }
    if let Some(l) = assign_with_exec(line, "-=") {
        return Some(l);
    }
    if let Some(l) = assign_with_exec(line, "*=") {
        return Some(l);
    }
    if let Some(l) = assign_with_exec(line, "/=") {
        return Some(l);
    }
    assign_with_exec(line, "=")
}

/// The target of an assignment statement.
pub fn assignment_label(line: &str) -> (r: Option<String>)
    ensures
        match r {
            Some(x) => spec_assignment_label(line@) == Some(x@),
            None => spec_assignment_label(line@) is None,
        },
{
    let v = to_chars(line);
    match assignment_label_chars(&v) {
        Some(x) => Some(from_chars(&x)),
        None => None,
    }
}

} // verus!
