use vstd::prelude::*;
use crate::model::{block_views, PmlError, SpecBlock, SpecError};
use crate::parse::{parse_document, parse_pml};
use crate::render::{render, render_blocks};
use crate::tree_collect::{tree_blocks, tree_to_blocks};
use crate::tree_insert::{blocks_to_tree, build_tree};
use crate::tree_meta::{tree_error, PmlTreeOptions};
use crate::tree_model::{PmlTreeValue, TreeModel};

verus! {

/// The path tree of a PML document.
pub open spec fn document_tree(s: Seq<char>, p: Seq<char>) -> Result<TreeModel, SpecError> {
    match parse_document(s) {
        Err(e) => Err(e),
        Ok(bs) => match build_tree(bs, p) {
            Ok(t) => Ok(t),
            Err(k) => Err(tree_error(k)),
        },
    }
}

/// The PML text of a path tree.
pub open spec fn tree_text(t: TreeModel, p: Seq<char>) -> Result<Seq<char>, SpecError> {
    match tree_blocks(t, p) {
        Ok(bs) => Ok(render(bs)),
        Err(k) => Err(tree_error(k)),
    }
}

/// Parses a PML document straight into its path tree.
pub fn parse_pml_tree(input: &str, options: &PmlTreeOptions) -> (r: Result<PmlTreeValue, PmlError>)
    requires
        input@.len() <= i64::MAX,
    ensures
        match document_tree(input@, options.meta_prefix@) {
            Ok(t) => r matches Ok(v) && v.model() == t,
            Err(se) => r matches Err(e) && e@ == se,
        },
{
    let blocks = parse_pml(input)?;
    blocks_to_tree(blocks.as_slice(), options)
}

/// Writes a path tree as PML text.
pub fn render_pml_tree(tree: &PmlTreeValue, options: &PmlTreeOptions) -> (r: Result<String, PmlError>)
    ensures
        match tree_text(tree.model(), options.meta_prefix@) {
            Ok(s) => r matches Ok(x) && x@ == s,
            Err(se) => r matches Err(e) && e@ == se,
        },
{
    let blocks = tree_to_blocks(tree, options)?;
    Ok(render_blocks(blocks.as_slice()))
}

/// Parsing a document straight into its path tree is parsing it into blocks,
/// then building the tree of those blocks; a parse error comes back unchanged.
pub proof fn law_tree_of_document(s: Seq<char>, p: Seq<char>)
    ensures
        document_tree(s, p) == match parse_document(s) {
            Err(e) => Err(e),
            Ok(bs) => match build_tree(bs, p) {
                Ok(t) => Ok::<TreeModel, SpecError>(t),
                Err(k) => Err(tree_error(k)),
            },
        },
{
}

} // verus!
