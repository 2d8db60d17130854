//! Structural parser for Vue single-file components.
//!
//! A component is split into its top-level blocks, and the blocks into elements,
//! statements and rules. The result is a tree of semantic nodes:
//!
//! - `vue_component`: the root, labelled with the stem of the file name
//! - `template_block`, `script_block`, `style_block`: a block of the tag
//!   `template`, `script` or `style`, labelled with the tag and its markers
//! - `custom_block`: a block of any other tag, labelled with the tag
//! - `element` with `attribute`s, `interpolation`: what a template holds
//! - `import_statement`, `export_default`, `variable_declaration` with its
//!   `declaration_value`, `method_declaration`, `property` with its
//!   `property_value`, `assignment_statement`: what a script holds
//! - `style_rule`, `style_declaration`: what a style holds

pub mod blocks;
pub mod case;
pub mod component;
pub mod cut;
pub mod hash;
pub mod node;
pub mod numerals;
pub mod pieces;
pub mod plugin;
pub mod script;
pub mod style;
pub mod tags;
pub mod template;
pub mod text;
