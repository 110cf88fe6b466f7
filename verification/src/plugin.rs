//! The parser plugin's entry points.

use vstd::prelude::*;
use crate::blocks::line_count_fits;
use crate::component::{component_tree, spec_component_tree};
use crate::node::{Node, node_is};
use crate::text::{ends_with, ends_with_exec, str_views, to_chars, to_lower};

verus! {

broadcast use vstd::string::group_string_axioms;

/// How the host runs this parser.
#[derive(PartialEq, Eq, Structural, Clone, Copy)]
pub enum ParserMode {
    /// The plugin builds the whole semantic tree itself.
    FullParse,
}

/// An example pair of component versions, shown by the host.
pub struct ExamplePair {
    pub old: String,
    pub new: String,
}

/// The Svelte component parser.
pub struct SvelteParser;

/// The grammar id of this parser.
pub open spec fn spec_grammar_id() -> Seq<char> {
    "svelte"@
}

/// The languages this parser handles.
pub open spec fn spec_language_ids() -> Seq<Seq<char>> {
    seq!["svelte"@]
}

/// The language of a lower-cased file name: `svelte` for names ending in `.svelte`, else empty.
pub open spec fn spec_language_of_lowered_name(lowered: Seq<char>) -> Seq<char> {
    if ends_with(lowered, ".svelte"@) {
        "svelte"@
    } else {
        seq![]
    }
}

/// The language of a file: `svelte` for names ending in `.svelte` in any case, else empty.
pub open spec fn spec_detect_language(filename: Seq<char>) -> Seq<char> {
    spec_language_of_lowered_name(to_lower(filename))
}

/// The language of a file name that has already been lower-cased.
pub fn language_of_lowered_name(lowered: &str) -> (r: String)
    ensures
        r@ == spec_language_of_lowered_name(lowered@),
{
    let l = to_chars(lowered);
    let ext = to_chars(".svelte");
    if ends_with_exec(&l, &ext) {
        return "svelte".to_owned();
    }
    String::new()
}

impl SvelteParser {
    pub fn get_parser_mode() -> (r: ParserMode)
        ensures
            r == ParserMode::FullParse,
    {
        ParserMode::FullParse
    }

    pub fn grammar_id() -> (r: String)
        ensures
            r@ == spec_grammar_id(),
    {
        "svelte".to_owned()
    }

    pub fn detect_language(filename: String, _content: String) -> (r: String)
        ensures
            r@ == spec_detect_language(filename@),
    {
        let lower = crate::text::str_to_lowercase(filename.as_str());
        language_of_lowered_name(lower.as_str())
    }

    pub fn preprocess_source(source: String) -> (r: String)
        ensures
            r == source,
    {
        source
    }

    pub fn example(_language: String) -> (r: ExamplePair)
        ensures
            r.old@ == "<script>\n  let name = 'World';\n</script>\n\n<h1>Hello, {name}!</h1>\n"@,
            r.new@ == "<script>\n  let name = 'World';\n  let count = 0;\n\n  function increment() {\n    count += 1;\n  }\n</script>\n\n<h1>Hello, {name}!</h1>\n<p>Count: {count}</p>\n<button on:click={increment}>Increment</button>\n"@,
    {
        ExamplePair {
            old: "<script>\n  let name = 'World';\n</script>\n\n<h1>Hello, {name}!</h1>\n".to_owned(),
            new: "<script>\n  let name = 'World';\n  let count = 0;\n\n  function increment() {\n    count += 1;\n  }\n</script>\n\n<h1>Hello, {name}!</h1>\n<p>Count: {count}</p>\n<button on:click={increment}>Increment</button>\n".to_owned(),
        }
    }

    /// The semantic tree of a component; the host serialises it.
    pub fn process_tree(input: String, _language: String, filename: String) -> (r: Node)
        requires
            line_count_fits(input@),
        ensures
            node_is(r, spec_component_tree(input@, filename@)),
    {
        component_tree(input.as_str(), filename.as_str())
    }

    pub fn trivia_node_types() -> (r: Vec<String>)
        ensures
            r@.len() == 0,
    {
        Vec::new()
    }

    pub fn language_ids() -> (r: Vec<String>)
        ensures
            str_views(r@) == spec_language_ids(),
    {
        let mut v: Vec<String> = Vec::new();
        v.push("svelte".to_owned());
        assert(str_views(v@) =~= spec_language_ids());
        v
    }

    pub fn priority() -> (r: i32)
        ensures
            r == 0,
    {
        0
    }
}

/// The grammar id is one of the language ids.
pub proof fn lemma_grammar_id_is_a_language_id()
    ensures
        spec_language_ids().contains(spec_grammar_id()),
{
    assert(spec_language_ids()[0] == spec_grammar_id());
}

/// A file detected as Svelte is detected as the grammar id; any other file gets no language.
pub proof fn lemma_detected_language_is_grammar_id(filename: Seq<char>)
    ensures
        spec_detect_language(filename) == spec_grammar_id() || spec_detect_language(filename).len() == 0,
{
}

} // verus!
