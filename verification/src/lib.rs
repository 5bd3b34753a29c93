pub mod chars;
pub mod text;
pub mod model;
pub mod syntax;
pub mod parse;
pub mod render;
pub mod roundtrip;
pub mod tree_model;
pub mod tree_meta;
pub mod tree_build;
pub mod tree_insert;
pub mod tree_collect;
pub mod convert;
pub mod message;
pub mod tree_laws;
pub mod tree_roundtrip;
pub mod grammar_laws;

pub use convert::{parse_pml_tree, render_pml_tree};
pub use model::{PmlBlock, PmlError, PmlErrorKind};
pub use parse::parse_pml;
pub use render::{render_blocks, PmlBuilder};
pub use tree_collect::tree_to_blocks;
pub use tree_insert::blocks_to_tree;
pub use tree_meta::PmlTreeOptions;
pub use tree_model::{PmlObject, PmlTreeValue};
