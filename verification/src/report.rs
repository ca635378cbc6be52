//! Building the report one covered source file at a time.

use std::collections::HashSet;
use vstd::prelude::*;
use crate::lines::{source_lines, split_lines};
use crate::page::{file_page, render_file_page};
use crate::text::str_chars;
use crate::tree::{with_covered_file, FileTree};

verus! {

broadcast use vstd::std_specs::hash::group_hash_axioms;

/// Adds one covered source file to the report: records it in `tree` with the
/// number of its covered lines and the number of lines of `source`, and
/// returns its page.
pub fn add_source_file(
    tree: &mut FileTree,
    file_path: &str,
    source: &str,
    covered_lines: &HashSet<u32>,
) -> (page: String)
    ensures
        final(tree)@ == with_covered_file(
            old(tree)@,
            file_path@,
            covered_lines@.len(),
            split_lines(source@).len(),
        ),
        page@ == file_page(file_path@, source@, covered_lines@),
{
    let chars = str_chars(source);
    let total = source_lines(&chars).len();
    let covered = covered_lines.len();
    tree.add_file(file_path, covered, total);
    render_file_page(file_path, source, covered_lines)
}

} // verus!
