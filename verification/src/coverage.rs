//! Merging newly resolved source lines into the coverage of a file.

use std::collections::HashSet;
use vstd::prelude::*;
use vstd::string::*;
use crate::text::{decimal, push_decimal};

pub use crate::escape::html_escape;
pub use crate::paths::get_coverage_html_path;

verus! {

broadcast use vstd::std_specs::hash::group_hash_axioms;

/// The record written for one covered line: `{path}:{line}` and a line feed.
pub open spec fn coverage_record(path: Seq<char>, line: u32) -> Seq<char> {
    path + ":"@ + decimal(line as nat) + "\n"@
}

/// The record of one covered line of `path`.
pub fn format_coverage_record(path: &str, line: u32) -> (res: String)
    ensures
        res@ == coverage_record(path@, line),
{
    let mut res = path.to_owned();
    res.append(":");
    push_decimal(&mut res, line as u64);
    res.append("\n");
    res
}

/// The records of each of `lines` of `path`, in order.
pub open spec fn coverage_records(path: Seq<char>, lines: Seq<u32>) -> Seq<Seq<char>> {
    Seq::new(lines.len(), |i: int| coverage_record(path, lines[i]))
}

/// The texts of a vector of strings.
pub open spec fn texts(v: Seq<String>) -> Seq<Seq<char>> {
    v.map_values(|s: String| s@)
}

/// Adds `lines` to the covered lines of the file at `path`, and returns the
/// record of each of them (whether it was covered before or not), in order.
pub fn merge_covered_lines(covered: &mut HashSet<u32>, path: &str, lines: &Vec<u32>) -> (records: Vec<String>)
    ensures
        final(covered)@ == old(covered)@ + lines@.to_set(),
        texts(records@) == coverage_records(path@, lines@),
{
    let mut records: Vec<String> = Vec::new();
    let mut i: usize = 0;
    while i < lines.len()
        invariant
            i <= lines@.len(),
            covered@ == old(covered)@ + lines@.take(i as int).to_set(),
            texts(records@) == coverage_records(path@, lines@.take(i as int)),
        decreases lines@.len() - i,
    {
        let line = lines[i];
        covered.insert(line);
        let record = format_coverage_record(path, line);
        let ghost before = records@;
        let ghost rec = record@;
        records.push(record);
        assert(texts(records@) =~= texts(before).push(rec));
        assert(lines@.take(i + 1).drop_last() =~= lines@.take(i as int));
        assert(lines@.take(i + 1).last() == line);
        assert(lines@.take(i + 1) =~= lines@.take(i as int).push(line));
        assert(lines@.take(i + 1).to_set() =~= lines@.take(i as int).to_set().insert(line));
        assert(covered@ =~= old(covered)@ + lines@.take(i + 1).to_set());
        assert(texts(records@) =~= coverage_records(path@, lines@.take(i + 1)));
        i = i + 1;
    }
    assert(lines@.take(lines@.len() as int) =~= lines@);
    records
}

} // verus!
