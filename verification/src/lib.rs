//! Parser for Svelte single-file components.
//!
//! A component consists of optional `<script>`, `<script context="module">` and `<style>`
//! blocks; everything else is template markup. The parser produces a semantic tree:
//!
//! - `svelte_component`: the root, labelled with the file name's stem;
//! - `script_block`: a `<script ...>` block (label `script[:module][:lang]`);
//! - `style_block`: a `<style ...>` block (label `style[:global][:lang]`);
//! - `template_body`: the markup outside the script and style blocks;
//!
//! with imports, declarations, functions and assignments under a script block, rules and
//! declarations under a style block, and elements (with their attributes) and `{...}`
//! interpolations under the template.

pub mod text;
pub mod hash;
pub mod tags;
pub mod script;
pub mod node;
pub mod children;
pub mod blocks;
pub mod component;
pub mod plugin;
pub mod laws;
