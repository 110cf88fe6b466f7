//! Character-level text primitives.
//!
//! Text is modelled as `Seq<char>`. Every search is defined by a scan that
//! starts at a given index, and every executable scan follows that definition.

use vstd::prelude::*;

verus! {

broadcast use vstd::string::group_string_axioms;

/// Whether `c` has the Unicode `White_Space` property, which `char::is_whitespace` documents that
/// it tests: tab, line feed, vertical tab, form feed, carriage return, space, next line,
/// no-break space, ogham space mark, the spaces from en quad to hair space, line separator,
/// paragraph separator, narrow no-break space, medium mathematical space and ideographic space.
pub open spec fn is_white_space(c: char) -> bool {
    ||| '\u{9}' <= c <= '\u{d}'
    ||| c == ' '
    ||| c == '\u{85}'
    ||| c == '\u{a0}'
    ||| c == '\u{1680}'
    ||| '\u{2000}' <= c <= '\u{200a}'
    ||| c == '\u{2028}'
    ||| c == '\u{2029}'
    ||| c == '\u{202f}'
    ||| c == '\u{205f}'
    ||| c == '\u{3000}'
}

/// Calls `char::is_whitespace`. Trusted: the result is whether `c` has the `White_Space`
/// property, as `is_white_space` lists it.
#[verifier::external_body]
pub(crate) fn char_is_whitespace(c: char) -> (r: bool)
    ensures
        r == is_white_space(c),
{
    c.is_whitespace()
}

/// Calls `String::push`. Trusted: the string afterwards is the string before with `c` appended.
#[verifier::external_body]
pub(crate) fn string_push(s: &mut String, c: char)
    ensures
        final(s)@ == old(s)@.push(c),
{
    s.push(c)
}

/// Name for what `str::to_lowercase` returns: the Unicode lower-case mapping of `s`. The mapping
/// itself is left unsaid here.
pub uninterp spec fn to_lower(s: Seq<char>) -> Seq<char>;

/// Calls `str::to_lowercase`. Trusted: the result is `to_lower` of the characters of `s`, a
/// function of them alone; each character lowers to one or more characters, so a non-empty
/// text stays non-empty; as the documentation's examples show, `HELLO` becomes `hello` and
/// `农历新年`, in a script without case, is unchanged. The mapping of other text is left unsaid.
#[verifier::external_body]
pub(crate) fn str_to_lowercase(s: &str) -> (r: String)
    ensures
        r@ == to_lower(s@),
        s@.len() > 0 ==> r@.len() > 0,
        s@ == "HELLO"@ ==> r@ == "hello"@,
        s@ == "\u{519c}\u{5386}\u{65b0}\u{5e74}"@ ==> r@ == s@,
{
    s.to_lowercase()
}

/// A class of characters that the scanners below look for.
#[derive(Clone, Copy)]
pub enum CharClass {
    /// `char::is_whitespace`.
    WhiteSpace,
    /// One given character.
    Exactly(char),
    /// Ends a tag name: whitespace, `>` or `/`.
    TagNameEnd,
    /// Ends a declared name: whitespace, `=`, `:` or `;`.
    DeclNameEnd,
    /// Ends a function name: whitespace or `(`.
    FnNameEnd,
    /// A path separator: `/` or `\\`.
    PathSep,
}

pub open spec fn in_class(k: CharClass, c: char) -> bool {
    match k {
        CharClass::WhiteSpace => is_white_space(c),
        CharClass::Exactly(x) => c == x,
        CharClass::TagNameEnd => is_white_space(c) || c == '>' || c == '/',
        CharClass::DeclNameEnd => is_white_space(c) || c == '=' || c == ':' || c == ';',
        CharClass::FnNameEnd => is_white_space(c) || c == '(',
        CharClass::PathSep => c == '/' || c == '\\',
    }
}

pub fn class_contains(k: CharClass, c: char) -> (r: bool)
    ensures
        r == in_class(k, c),
{
    match k {
        CharClass::WhiteSpace => char_is_whitespace(c),
        CharClass::Exactly(x) => c == x,
        CharClass::TagNameEnd => char_is_whitespace(c) || c == '>' || c == '/',
        CharClass::DeclNameEnd => char_is_whitespace(c) || c == '=' || c == ':' || c == ';',
        CharClass::FnNameEnd => char_is_whitespace(c) || c == '(',
        CharClass::PathSep => c == '/' || c == '\\',
    }
}

/// Last index `j < e` with a character of class `k`, or -1.
pub open spec fn rfind_in(s: Seq<char>, k: CharClass, e: int) -> int
    decreases e,
{
    if e <= 0 {
        -1
    } else if in_class(k, s[e - 1]) {
        e - 1
    } else {
        rfind_in(s, k, e - 1)
    }
}

pub proof fn lemma_rfind_in(s: Seq<char>, k: CharClass, e: int)
    requires
        0 <= e <= s.len(),
    ensures
        -1 <= rfind_in(s, k, e) < e,
        rfind_in(s, k, e) >= 0 ==> in_class(k, s[rfind_in(s, k, e)]),
        forall|j: int| rfind_in(s, k, e) < j < e ==> !in_class(k, #[trigger] s[j]),
    decreases e,
{
    if e > 0 && !in_class(k, s[e - 1]) {
        lemma_rfind_in(s, k, e - 1);
    }
}

/// Exec scan for `rfind_in` over the whole text.
pub fn rscan(v: &[char], k: CharClass) -> (r: Option<usize>)
    ensures
        match r {
            Some(j) => rfind_in(v@, k, v@.len() as int) == j,
            None => rfind_in(v@, k, v@.len() as int) == -1,
        },
{
    let mut e = v.len();
    while e > 0
        invariant
            e <= v@.len(),
            rfind_in(v@, k, v@.len() as int) == rfind_in(v@, k, e as int),
        decreases e,
    {
        if class_contains(k, v[e - 1]) {
            return Some(e - 1);
        }
        e -= 1;
    }
    None
}

/// First index `j >= i` with `in_class(k, s[j]) == want`, or `s.len()` when there is none.
pub open spec fn find_from(s: Seq<char>, k: CharClass, want: bool, i: int) -> int
    decreases s.len() - i,
{
    if i >= s.len() {
        s.len() as int
    } else if in_class(k, s[i]) == want {
        i
    } else {
        find_from(s, k, want, i + 1)
    }
}

pub proof fn lemma_find_from(s: Seq<char>, k: CharClass, want: bool, i: int)
    requires
        0 <= i <= s.len(),
    ensures
        i <= find_from(s, k, want, i) <= s.len(),
        forall|j: int| i <= j < find_from(s, k, want, i) ==> in_class(k, #[trigger] s[j]) != want,
        find_from(s, k, want, i) < s.len() ==> in_class(k, s[find_from(s, k, want, i)]) == want,
    decreases s.len() - i,
{
    if i < s.len() && in_class(k, s[i]) != want {
        lemma_find_from(s, k, want, i + 1);
    }
}

/// Exec scan for `find_from`.
pub fn scan(v: &[char], k: CharClass, want: bool, i: usize) -> (r: usize)
    requires
        i <= v@.len(),
    ensures
        r == find_from(v@, k, want, i as int),
        i <= r <= v@.len(),
{
    let mut j = i;
    proof { lemma_find_from(v@, k, want, i as int); }
    while j < v.len()
        invariant
            i <= j <= v@.len(),
            find_from(v@, k, want, i as int) == find_from(v@, k, want, j as int),
        decreases v@.len() - j,
    {
        if class_contains(k, v[j]) == want {
            return j;
        }
        j += 1;
    }
    j
}

/// Index one past the last character of `s.take(e)` that is not in class `k`, or 0.
pub open spec fn keep_end(s: Seq<char>, k: CharClass, e: int) -> int
    decreases e,
{
    if e <= 0 {
        0
    } else if in_class(k, s[e - 1]) {
        keep_end(s, k, e - 1)
    } else {
        e
    }
}

pub proof fn lemma_keep_end(s: Seq<char>, k: CharClass, e: int)
    requires
        0 <= e <= s.len(),
    ensures
        0 <= keep_end(s, k, e) <= e,
    decreases e,
{
    if e > 0 && in_class(k, s[e - 1]) {
        lemma_keep_end(s, k, e - 1);
    }
}

/// `s` without its leading characters of class `k`.
pub open spec fn trim_start_in(s: Seq<char>, k: CharClass) -> Seq<char> {
    s.skip(find_from(s, k, false, 0))
}

/// `s` without its trailing characters of class `k`.
pub open spec fn trim_end_in(s: Seq<char>, k: CharClass) -> Seq<char> {
    s.take(keep_end(s, k, s.len() as int))
}

/// `s` without leading and trailing characters of class `k`.
pub open spec fn trim_in(s: Seq<char>, k: CharClass) -> Seq<char> {
    trim_end_in(trim_start_in(s, k), k)
}

/// `str::trim_start`.
pub open spec fn trim_start(s: Seq<char>) -> Seq<char> {
    trim_start_in(s, CharClass::WhiteSpace)
}

pub proof fn lemma_trim_start_idem(s: Seq<char>)
    ensures
        trim_start(trim_start(s)) == trim_start(s),
        trim_start(s).len() > 0 ==> !is_white_space(trim_start(s)[0]),
{
    lemma_find_from(s, CharClass::WhiteSpace, false, 0);
    let t = trim_start(s);
    lemma_find_from(t, CharClass::WhiteSpace, false, 0);
    if t.len() > 0 {
        assert(t[0] == s[find_from(s, CharClass::WhiteSpace, false, 0)]);
        assert(find_from(t, CharClass::WhiteSpace, false, 0) == 0);
    }
    assert(t.skip(find_from(t, CharClass::WhiteSpace, false, 0)) =~= t);
}

/// `str::trim`.
pub open spec fn trim(s: Seq<char>) -> Seq<char> {
    trim_in(s, CharClass::WhiteSpace)
}

/// `str::trim_end_matches(c)`.
pub open spec fn trim_end_char(s: Seq<char>, c: char) -> Seq<char> {
    trim_end_in(s, CharClass::Exactly(c))
}

/// `str::trim_matches(c)`.
pub open spec fn trim_char(s: Seq<char>, c: char) -> Seq<char> {
    trim_in(s, CharClass::Exactly(c))
}

pub fn copy_range(v: &[char], a: usize, b: usize) -> (r: Vec<char>)
    requires
        a <= b <= v@.len(),
    ensures
        r@ == v@.subrange(a as int, b as int),
{
    let mut r: Vec<char> = Vec::new();
    let mut i = a;
    while i < b
        invariant
            a <= i <= b <= v@.len(),
            r@ == v@.subrange(a as int, i as int),
        decreases b - i,
    {
        r.push(v[i]);
        i += 1;
        assert(r@ =~= v@.subrange(a as int, i as int));
    }
    r
}

pub fn trim_start_class(v: &[char], k: CharClass) -> (r: Vec<char>)
    ensures
        r@ == trim_start_in(v@, k),
{
    let a = scan(v, k, false, 0);
    copy_range(v, a, v.len())
}

pub fn trim_end_class(v: &[char], k: CharClass) -> (r: Vec<char>)
    ensures
        r@ == trim_end_in(v@, k),
{
    let mut e = v.len();
    while e > 0 && class_contains(k, v[e - 1])
        invariant
            e <= v@.len(),
            keep_end(v@, k, v@.len() as int) == keep_end(v@, k, e as int),
        decreases e,
    {
        e -= 1;
    }
    copy_range(v, 0, e)
}

pub fn trim_class(v: &[char], k: CharClass) -> (r: Vec<char>)
    ensures
        r@ == trim_in(v@, k),
{
    let t = trim_start_class(v, k);
    trim_end_class(&t, k)
}

pub fn trim_ws(v: &[char]) -> (r: Vec<char>)
    ensures
        r@ == trim(v@),
{
    trim_class(v, CharClass::WhiteSpace)
}

// ---------------------------------------------------------------------------
// Patterns

/// `p` occurs in `s` at index `i`.
pub open spec fn occurs_at(s: Seq<char>, p: Seq<char>, i: int) -> bool {
    0 <= i && i + p.len() <= s.len() && s.subrange(i, i + p.len()) == p
}

/// `str::starts_with`.
pub open spec fn starts_with(s: Seq<char>, p: Seq<char>) -> bool {
    occurs_at(s, p, 0)
}

/// `str::ends_with`.
pub open spec fn ends_with(s: Seq<char>, p: Seq<char>) -> bool {
    p.len() <= s.len() && occurs_at(s, p, s.len() - p.len())
}

/// First index `j >= i` at which `p` occurs in `s`.
pub open spec fn find_sub_from(s: Seq<char>, p: Seq<char>, i: int) -> Option<int>
    decreases s.len() + 1 - i,
{
    if i < 0 || i + p.len() > s.len() {
        None
    } else if occurs_at(s, p, i) {
        Some(i)
    } else {
        find_sub_from(s, p, i + 1)
    }
}

/// `str::find` with a string pattern.
pub open spec fn find_sub(s: Seq<char>, p: Seq<char>) -> Option<int> {
    find_sub_from(s, p, 0)
}

/// `str::contains` with a string pattern.
pub open spec fn contains(s: Seq<char>, p: Seq<char>) -> bool {
    find_sub(s, p) is Some
}

pub proof fn lemma_find_sub_from(s: Seq<char>, p: Seq<char>, i: int)
    requires
        0 <= i,
    ensures
        find_sub_from(s, p, i) matches Some(j) ==> i <= j && occurs_at(s, p, j) && forall|m: int|
            i <= m < j ==> !#[trigger] occurs_at(s, p, m),
        find_sub_from(s, p, i) is None ==> forall|m: int| i <= m ==> !#[trigger] occurs_at(s, p, m),
    decreases s.len() + 1 - i,
{
    if i + p.len() <= s.len() && !occurs_at(s, p, i) {
        lemma_find_sub_from(s, p, i + 1);
    }
}

/// Number of non-overlapping occurrences of `p` in `s` from index `i` on, scanning left to right
/// (`str::matches(..).count()`).
pub open spec fn count_matches_from(s: Seq<char>, p: Seq<char>, i: int) -> nat
    decreases s.len() + 1 - i,
{
    if i < 0 || i + p.len() > s.len() {
        0
    } else if occurs_at(s, p, i) && p.len() > 0 {
        1 + count_matches_from(s, p, i + p.len())
    } else {
        count_matches_from(s, p, i + 1)
    }
}

pub fn occurs_at_exec(v: &[char], p: &[char], i: usize) -> (r: bool)
    ensures
        r == occurs_at(v@, p@, i as int),
{
    if p.len() > v.len() || i > v.len() - p.len() {
        return false;
    }
    let mut j: usize = 0;
    while j < p.len()
        invariant
            j <= p@.len(),
            i + p@.len() <= v@.len(),
            forall|m: int| 0 <= m < j ==> v@[i + m] == p@[m],
        decreases p@.len() - j,
    {
        let vl = v.len();
        assert(i + j < vl);
        if v[i + j] != p[j] {
            assert(v@.subrange(i as int, i + p@.len())[j as int] != p@[j as int]);
            return false;
        }
        j += 1;
    }
    assert(v@.subrange(i as int, i + p@.len()) =~= p@);
    true
}

pub fn chars_eq(a: &[char], b: &[char]) -> (r: bool)
    ensures
        r == (a@ == b@),
{
    if a.len() != b.len() {
        return false;
    }
    let r = occurs_at_exec(a, b, 0);
    assert(r == (a@ == b@)) by {
        if a@.len() == b@.len() {
            assert(a@.subrange(0, b@.len() as int) =~= a@);
        }
    }
    r
}

pub fn starts_with_exec(v: &[char], p: &[char]) -> (r: bool)
    ensures
        r == starts_with(v@, p@),
{
    occurs_at_exec(v, p, 0)
}

pub fn ends_with_exec(v: &[char], p: &[char]) -> (r: bool)
    ensures
        r == ends_with(v@, p@),
{
    if p.len() > v.len() {
        false
    } else {
        occurs_at_exec(v, p, v.len() - p.len())
    }
}

pub fn find_sub_exec(v: &[char], p: &[char]) -> (r: Option<usize>)
    ensures
        r matches Some(j) ==> find_sub(v@, p@) == Some(j as int),
        r is None ==> find_sub(v@, p@) is None,
{
    if p.len() > v.len() {
        return None;
    }
    let mut i: usize = 0;
    loop
        invariant
            p@.len() <= v@.len(),
            i <= v@.len() - p@.len(),
            find_sub(v@, p@) == find_sub_from(v@, p@, i as int),
        decreases v@.len() - p@.len() - i,
    {
        if occurs_at_exec(v, p, i) {
            return Some(i);
        }
        if i == v.len() - p.len() {
            assert(find_sub_from(v@, p@, i + 1) is None);
            return None;
        }
        i += 1;
    }
}

/// Exec scan for `find_sub_from`.
pub fn find_sub_from_exec(v: &[char], p: &[char], i: usize) -> (r: Option<usize>)
    ensures
        r matches Some(j) ==> find_sub_from(v@, p@, i as int) == Some(j as int),
        r is None ==> find_sub_from(v@, p@, i as int) is None,
{
    if p.len() > v.len() || i > v.len() - p.len() {
        return None;
    }
    let mut k: usize = i;
    loop
        invariant
            p@.len() <= v@.len(),
            i <= k <= v@.len() - p@.len(),
            find_sub_from(v@, p@, i as int) == find_sub_from(v@, p@, k as int),
        decreases v@.len() - p@.len() - k,
    {
        if occurs_at_exec(v, p, k) {
            return Some(k);
        }
        if k == v.len() - p.len() {
            assert(find_sub_from(v@, p@, k + 1) is None);
            return None;
        }
        k += 1;
    }
}

pub fn contains_exec(v: &[char], p: &[char]) -> (r: bool)
    ensures
        r == contains(v@, p@),
{
    find_sub_exec(v, p).is_some()
}

pub fn count_matches(v: &[char], p: &[char]) -> (r: usize)
    requires
        p@.len() > 0,
    ensures
        r == count_matches_from(v@, p@, 0),
        r <= v@.len(),
{
    let mut n: usize = 0;
    let mut i: usize = 0;
    while i < v.len() && p.len() <= v.len() - i
        invariant
            i <= v@.len(),
            p@.len() > 0,
            n <= i,
            n + count_matches_from(v@, p@, i as int) == count_matches_from(v@, p@, 0),
        decreases v@.len() - i,
    {
        if occurs_at_exec(v, p, i) {
            n += 1;
            i += p.len();
        } else {
            i += 1;
        }
    }
    n
}


// ---------------------------------------------------------------------------
// Conversions

/// The characters of a string slice, in order.
pub fn to_chars(s: &str) -> (r: Vec<char>)
    ensures
        r@ == s@,
{
    let mut v: Vec<char> = Vec::new();
    for c in it: s.chars()
        invariant
            v@ == it.seq().take(it.index() as int),
    {
        v.push(c);
    }
    v
}

/// A `String` holding exactly the given characters.
pub fn from_chars(v: &[char]) -> (r: String)
    ensures
        r@ == v@,
{
    let mut s = String::new();
    let mut i: usize = 0;
    while i < v.len()
        invariant
            i <= v@.len(),
            s@ == v@.take(i as int),
        decreases v@.len() - i,
    {
        string_push(&mut s, v[i]);
        i += 1;
        assert(v@.take(i as int) == v@.take((i - 1) as int).push(v@[i - 1]));
    }
    assert(v@.take(v@.len() as int) == v@);
    s
}

/// Lower-cased characters, as `str::to_lowercase` gives them.
pub fn lowercase(v: &[char]) -> (r: Vec<char>)
    ensures
        r@ == to_lower(v@),
        v@.len() > 0 ==> r@.len() > 0,
{
    let s = from_chars(v);
    let l = str_to_lowercase(s.as_str());
    to_chars(l.as_str())
}

/// The view of an optional character vector.
pub open spec fn opt_view(o: Option<Vec<char>>) -> Option<Seq<char>> {
    match o {
        Some(v) => Some(v@),
        None => None,
    }
}

/// The views of a sequence of character vectors.
pub open spec fn views(vs: Seq<Vec<char>>) -> Seq<Seq<char>> {
    Seq::new(vs.len(), |j: int| vs[j]@)
}

/// The views of a sequence of strings.
pub open spec fn str_views(vs: Seq<String>) -> Seq<Seq<char>> {
    Seq::new(vs.len(), |j: int| vs[j]@)
}

pub fn to_strings(vs: &Vec<Vec<char>>) -> (r: Vec<String>)
    ensures
        str_views(r@) == views(vs@),
{
    let mut r: Vec<String> = Vec::new();
    let mut i: usize = 0;
    while i < vs.len()
        invariant
            i <= vs@.len(),
            str_views(r@) == views(vs@).take(i as int),
        decreases vs@.len() - i,
    {
        let s = from_chars(vs[i].as_slice());
        assert(s@ == vs@[i as int]@);
        let ghost prev = r@;
        assert(str_views(prev).len() == i);
        r.push(s);
        assert(r@.len() == i + 1);
        i += 1;
        assert forall|j: int| 0 <= j < i implies #[trigger] str_views(r@)[j] == views(vs@)[j] by {
            if j < i - 1 {
                assert(str_views(prev)[j] == views(vs@).take(i - 1)[j]);
            }
        }
        assert(str_views(r@) =~= views(vs@).take(i as int));
    }
    assert(views(vs@).take(vs@.len() as int) =~= views(vs@));
    r
}

// ---------------------------------------------------------------------------
// Splitting and joining

/// A line without the carriage return of its `\r\n` ending.
pub open spec fn strip_cr(l: Seq<char>) -> Seq<char> {
    if l.len() > 0 && l.last() == '\r' {
        l.drop_last()
    } else {
        l
    }
}

/// `str::lines` of `s.skip(i)`: pieces between line feeds; a line that ends in `\r\n` loses
/// the `\r`; a final line feed does not start another line.
pub open spec fn lines_from(s: Seq<char>, i: int) -> Seq<Seq<char>>
    decreases s.len() - i,
{
    if i < 0 || i >= s.len() {
        seq![]
    } else {
        let e = find_from(s, CharClass::Exactly('\n'), true, i);
        proof {
            lemma_find_from(s, CharClass::Exactly('\n'), true, i);
        }
        if e >= s.len() {
            seq![s.subrange(i, s.len() as int)]
        } else {
            seq![strip_cr(s.subrange(i, e))] + lines_from(s, e + 1)
        }
    }
}

/// `str::lines`.
pub open spec fn lines(s: Seq<char>) -> Seq<Seq<char>> {
    lines_from(s, 0)
}

pub fn strip_cr_exec(v: Vec<char>) -> (r: Vec<char>)
    ensures
        r@ == strip_cr(v@),
{
    let mut v = v;
    if v.len() > 0 && v[v.len() - 1] == '\r' {
        v.pop();
    }
    v
}

pub fn split_lines(v: &[char]) -> (r: Vec<Vec<char>>)
    ensures
        views(r@) == lines(v@),
{
    let mut out: Vec<Vec<char>> = Vec::new();
    let mut i: usize = 0;
    while i < v.len()
        invariant
            i <= v@.len(),
            views(out@) + lines_from(v@, i as int) == lines(v@),
        decreases v@.len() - i,
    {
        let e = scan(v, CharClass::Exactly('\n'), true, i);
        let ghost before = views(out@);
        if e >= v.len() {
            out.push(copy_range(v, i, v.len()));
            assert(views(out@) =~= before + seq![v@.subrange(i as int, v@.len() as int)]);
            assert(lines_from(v@, v@.len() as int) =~= Seq::<Seq<char>>::empty());
            i = v.len();
        } else {
            let piece = copy_range(v, i, e);
            out.push(strip_cr_exec(piece));
            assert(views(out@) =~= before + seq![strip_cr(v@.subrange(i as int, e as int))]);
            i = e + 1;
        }
    }
    assert(views(out@) + lines_from(v@, i as int) =~= views(out@));
    out
}

/// Number of occurrences of character `c` in `s`.
pub open spec fn count_char(s: Seq<char>, c: char) -> nat
    decreases s.len(),
{
    if s.len() == 0 {
        0
    } else {
        count_char(s.drop_last(), c) + if s.last() == c { 1nat } else { 0nat }
    }
}

pub proof fn lemma_count_char_add(a: Seq<char>, b: Seq<char>, c: char)
    ensures
        count_char(a + b, c) == count_char(a, c) + count_char(b, c),
    decreases b.len(),
{
    if b.len() == 0 {
        assert(a + b =~= a);
    } else {
        lemma_count_char_add(a, b.drop_last(), c);
        assert((a + b).drop_last() =~= a + b.drop_last());
    }
}

pub proof fn lemma_count_char_none(s: Seq<char>, c: char)
    requires
        forall|m: int| 0 <= m < s.len() ==> s[m] != c,
    ensures
        count_char(s, c) == 0,
    decreases s.len(),
{
    if s.len() > 0 {
        lemma_count_char_none(s.drop_last(), c);
    }
}

/// A text without line feeds.
pub open spec fn no_newline(l: Seq<char>) -> bool {
    forall|m: int| 0 <= m < l.len() ==> l[m] != '\n'
}

pub proof fn lemma_lines_no_newline(s: Seq<char>, i: int)
    requires
        0 <= i,
    ensures
        forall|k: int| 0 <= k < lines_from(s, i).len() ==> no_newline(#[trigger] lines_from(s, i)[k]),
    decreases s.len() - i,
{
    if i < s.len() {
        let e = find_from(s, CharClass::Exactly('\n'), true, i);
        lemma_find_from(s, CharClass::Exactly('\n'), true, i);
        if e < s.len() {
            lemma_lines_no_newline(s, e + 1);
            let piece = strip_cr(s.subrange(i, e));
            assert(no_newline(piece));
            assert forall|k: int| 0 <= k < lines_from(s, i).len() implies no_newline(
                #[trigger] lines_from(s, i)[k],
            ) by {
                if k > 0 {
                    assert(lines_from(s, i)[k] == lines_from(s, e + 1)[k - 1]);
                }
            }
        } else {
            assert(no_newline(s.subrange(i, s.len() as int)));
        }
    }
}

pub proof fn lemma_lines_count(s: Seq<char>, i: int)
    requires
        0 <= i <= s.len(),
    ensures
        lines_from(s, i).len() <= count_char(s.subrange(i, s.len() as int), '\n') + 1,
        i == s.len() ==> lines_from(s, i).len() == 0,
    decreases s.len() - i,
{
    if i < s.len() {
        let e = find_from(s, CharClass::Exactly('\n'), true, i);
        lemma_find_from(s, CharClass::Exactly('\n'), true, i);
        if e < s.len() {
            lemma_lines_count(s, e + 1);
            let a = s.subrange(i, e);
            let b = seq![s[e]];
            let c = s.subrange(e + 1, s.len() as int);
            assert(s.subrange(i, s.len() as int) =~= a + b + c);
            lemma_count_char_add(a + b, c, '\n');
            lemma_count_char_add(a, b, '\n');
            assert(count_char(b, '\n') == 1) by {
                assert(b.drop_last() =~= Seq::<char>::empty());
                assert(count_char(b.drop_last(), '\n') == 0);
                assert(b.last() == '\n');
            }
        }
    }
}

pub proof fn lemma_join_count(parts: Seq<Seq<char>>, n: int)
    requires
        1 <= n <= parts.len(),
        forall|k: int| 0 <= k < parts.len() ==> no_newline(#[trigger] parts[k]),
    ensures
        count_char(join_upto(parts, seq!['\n'], n), '\n') == n - 1,
    decreases n,
{
    lemma_count_char_none(parts[n - 1], '\n');
    if n > 1 {
        lemma_join_count(parts, n - 1);
        let a = join_upto(parts, seq!['\n'], n - 1);
        lemma_count_char_add(a + seq!['\n'], parts[n - 1], '\n');
        lemma_count_char_add(a, seq!['\n'], '\n');
        assert(count_char(seq!['\n'], '\n') == 1) by {
            assert(seq!['\n'].drop_last() =~= Seq::<char>::empty());
            assert(count_char(seq!['\n'].drop_last(), '\n') == 0);
        }
    }
}

/// Joining lines with line feeds and splitting the result again gives at most as many lines.
pub proof fn lemma_lines_of_join(parts: Seq<Seq<char>>)
    requires
        forall|k: int| 0 <= k < parts.len() ==> no_newline(#[trigger] parts[k]),
    ensures
        lines(join(parts, seq!['\n'])).len() <= parts.len(),
{
    let j = join(parts, seq!['\n']);
    if parts.len() == 0 {
        assert(j.len() == 0);
    } else {
        lemma_join_count(parts, parts.len() as int);
        lemma_lines_count(j, 0);
        assert(j.subrange(0, j.len() as int) =~= j);
    }
}

/// `str::split_whitespace` of `s.skip(i)`: the maximal runs of non-whitespace characters.
pub open spec fn words_from(s: Seq<char>, i: int) -> Seq<Seq<char>>
    decreases s.len() - i,
{
    if i < 0 || i >= s.len() {
        seq![]
    } else {
        let a = find_from(s, CharClass::WhiteSpace, false, i);
        if a >= s.len() {
            seq![]
        } else {
            let b = find_from(s, CharClass::WhiteSpace, true, a);
            proof {
                lemma_find_from(s, CharClass::WhiteSpace, false, i);
                lemma_find_from(s, CharClass::WhiteSpace, true, a);
            }
            seq![s.subrange(a, b)] + words_from(s, b)
        }
    }
}

/// `str::split_whitespace`.
pub open spec fn words(s: Seq<char>) -> Seq<Seq<char>> {
    words_from(s, 0)
}

pub fn split_words(v: &[char]) -> (r: Vec<Vec<char>>)
    ensures
        views(r@) == words(v@),
{
    let mut out: Vec<Vec<char>> = Vec::new();
    let mut i: usize = 0;
    while i < v.len()
        invariant
            i <= v@.len(),
            views(out@) + words_from(v@, i as int) == words(v@),
        decreases v@.len() - i,
    {
        let a = scan(v, CharClass::WhiteSpace, false, i);
        if a >= v.len() {
            assert(words_from(v@, i as int) =~= Seq::<Seq<char>>::empty());
            i = v.len();
        } else {
            let b = scan(v, CharClass::WhiteSpace, true, a);
            proof {
                lemma_find_from(v@, CharClass::WhiteSpace, true, a as int);
            }
            let ghost before = views(out@);
            out.push(copy_range(v, a, b));
            assert(views(out@) =~= before + seq![v@.subrange(a as int, b as int)]);
            i = b;
        }
    }
    assert(views(out@) + words_from(v@, i as int) =~= views(out@));
    out
}

/// `parts` joined with `sep` between consecutive parts, for the first `n` parts.
pub open spec fn join_upto(parts: Seq<Seq<char>>, sep: Seq<char>, n: int) -> Seq<char>
    decreases n,
{
    if n <= 0 {
        seq![]
    } else if n == 1 {
        parts[0]
    } else {
        join_upto(parts, sep, n - 1) + sep + parts[n - 1]
    }
}

/// `[..].join(sep)`.
pub open spec fn join(parts: Seq<Seq<char>>, sep: Seq<char>) -> Seq<char> {
    join_upto(parts, sep, parts.len() as int)
}

pub fn append_chars(out: &mut Vec<char>, p: &[char])
    ensures
        final(out)@ == old(out)@ + p@,
{
    let mut i: usize = 0;
    while i < p.len()
        invariant
            i <= p@.len(),
            out@ == old(out)@ + p@.take(i as int),
        decreases p@.len() - i,
    {
        out.push(p[i]);
        i += 1;
        assert(out@ =~= old(out)@ + p@.take(i as int));
    }
    assert(p@.take(p@.len() as int) =~= p@);
}

pub fn join_range(parts: &Vec<Vec<char>>, a: usize, b: usize, sep: &[char]) -> (r: Vec<char>)
    requires
        a <= b <= parts@.len(),
    ensures
        r@ == join(views(parts@).subrange(a as int, b as int), sep@),
{
    let ghost sub = views(parts@).subrange(a as int, b as int);
    let mut out: Vec<char> = Vec::new();
    let mut k: usize = a;
    while k < b
        invariant
            a <= k <= b <= parts@.len(),
            sub == views(parts@).subrange(a as int, b as int),
            out@ == join_upto(sub, sep@, k - a),
        decreases b - k,
    {
        if k > a {
            append_chars(&mut out, sep);
        }
        assert(parts@[k as int]@ == sub[k - a]);
        append_chars(&mut out, parts[k].as_slice());
        k += 1;
    }
    out
}

pub fn join_chars(parts: &Vec<Vec<char>>, sep: &[char]) -> (r: Vec<char>)
    ensures
        r@ == join(views(parts@), sep@),
{
    let mut out: Vec<char> = Vec::new();
    let mut i: usize = 0;
    while i < parts.len()
        invariant
            i <= parts@.len(),
            out@ == join_upto(views(parts@), sep@, i as int),
        decreases parts@.len() - i,
    {
        if i > 0 {
            append_chars(&mut out, sep);
        }
        append_chars(&mut out, &parts[i]);
        i += 1;
    }
    out
}

// ---------------------------------------------------------------------------
// Numbers as text

/// The decimal digit for `d < 10`.
pub open spec fn digit_char(d: nat) -> char {
    if d == 0 { '0' } else if d == 1 { '1' } else if d == 2 { '2' } else if d == 3 { '3' }
    else if d == 4 { '4' } else if d == 5 { '5' } else if d == 6 { '6' } else if d == 7 { '7' }
    else if d == 8 { '8' } else { '9' }
}

/// The lower-case hexadecimal digit for `d < 16`.
pub open spec fn hex_char(d: nat) -> char {
    if d < 10 { digit_char(d) } else if d == 10 { 'a' } else if d == 11 { 'b' }
    else if d == 12 { 'c' } else if d == 13 { 'd' } else if d == 14 { 'e' } else { 'f' }
}

/// `n` in decimal, without leading zeros (`format!("{}", n)`).
pub open spec fn decimal(n: nat) -> Seq<char>
    decreases n,
{
    if n < 10 {
        seq![digit_char(n)]
    } else {
        decimal(n / 10).push(digit_char(n % 10))
    }
}

/// The last `count` hexadecimal digits of `n`, zero-padded (`format!("{:0count$x}", n)` for
/// `n < 16^count`).
pub open spec fn hex_digits(n: nat, count: nat) -> Seq<char>
    decreases count,
{
    if count == 0 {
        seq![]
    } else {
        hex_digits(n / 16, (count - 1) as nat).push(hex_char(n % 16))
    }
}

fn hex_char_exec(d: u64) -> (c: char)
    requires
        d < 16,
    ensures
        c == hex_char(d as nat),
{
    if d == 0 { '0' } else if d == 1 { '1' } else if d == 2 { '2' } else if d == 3 { '3' }
    else if d == 4 { '4' } else if d == 5 { '5' } else if d == 6 { '6' } else if d == 7 { '7' }
    else if d == 8 { '8' } else if d == 9 { '9' } else if d == 10 { 'a' } else if d == 11 { 'b' }
    else if d == 12 { 'c' } else if d == 13 { 'd' } else if d == 14 { 'e' } else { 'f' }
}

pub fn decimal_chars(n: usize) -> (r: Vec<char>)
    ensures
        r@ == decimal(n as nat),
    decreases n,
{
    if n < 10 {
        let c = hex_char_exec(n as u64);
        vec![c]
    } else {
        let mut r = decimal_chars(n / 10);
        let c = hex_char_exec((n % 10) as u64);
        r.push(c);
        r
    }
}

pub fn hex_chars(n: u64, count: u32) -> (r: Vec<char>)
    ensures
        r@ == hex_digits(n as nat, count as nat),
    decreases count,
{
    if count == 0 {
        Vec::new()
    } else {
        let mut r = hex_chars(n / 16, count - 1);
        let c = hex_char_exec(n % 16);
        r.push(c);
        r
    }
}

} // verus!
