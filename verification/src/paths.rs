//! Names of the files and directories that the report and the fuzzing workers use.

use vstd::prelude::*;
use vstd::string::*;
use crate::text::{decimal, push_decimal};

verus! {

/// Returns the path to the coverage HTML report's index file:
/// `{work_dir}/coverage_html/index.html`.
pub fn get_coverage_html_path(work_dir: &str) -> (res: String)
    ensures
        res@ == work_dir@ + "/coverage_html/index.html"@,
{
    let mut res = work_dir.to_owned();
    res.append("/coverage_html/index.html");
    res
}

/// The directory that holds the generated pages: `{work_dir}/coverage_html`.
pub fn coverage_html_dir(work_dir: &str) -> (res: String)
    ensures
        res@ == work_dir@ + "/coverage_html"@,
{
    let mut res = work_dir.to_owned();
    res.append("/coverage_html");
    res
}

/// The index page inside the page directory: `{html_dir}/index.html`.
pub fn index_page_path(html_dir: &str) -> (res: String)
    ensures
        res@ == html_dir@ + "/index.html"@,
{
    let mut res = html_dir.to_owned();
    res.append("/index.html");
    res
}

/// The source file that a covered path names: `{kernel_src_dir}/{file_path}`.
pub fn source_file_path(kernel_src_dir: &str, file_path: &str) -> (res: String)
    ensures
        res@ == kernel_src_dir@ + "/"@ + file_path@,
{
    let mut res = kernel_src_dir.to_owned();
    res.append("/");
    res.append(file_path);
    res
}

/// `s` with every `/` replaced by `_`.
pub open spec fn flattened(s: Seq<char>) -> Seq<char> {
    Seq::new(s.len(), |i: int| if s[i] == '/' { '_' } else { s[i] })
}

/// Appends `flattened(path)` to `out`.
pub fn push_flattened(out: &mut String, path: &Vec<char>)
    ensures
        final(out)@ == old(out)@ + flattened(path@),
{
    let mut i: usize = 0;
    while i < path.len()
        invariant
            i <= path@.len(),
            out@ == old(out)@ + flattened(path@.take(i as int)),
        decreases path@.len() - i,
    {
        let c = path[i];
        if c == '/' {
            out.push('_');
        } else {
            out.push(c);
        }
        assert(flattened(path@.take(i + 1)) =~= flattened(path@.take(i as int)).push(
            if c == '/' { '_' } else { c },
        ));
        i = i + 1;
    }
    assert(path@.take(path@.len() as int) =~= path@);
}

/// The name of the page generated for a covered file: the file's path with
/// every `/` replaced by `_`, followed by `.html`.
pub fn page_file_name(file_path: &str) -> (res: String)
    ensures
        res@ == flattened(file_path@) + ".html"@,
{
    let chars = crate::text::str_chars(file_path);
    let mut res = String::new();
    push_flattened(&mut res, &chars);
    res.append(".html");
    assert(res@ =~= flattened(file_path@) + ".html"@);
    res
}

/// Where the page of a covered file is written: `{html_dir}/{page_file_name(file_path)}`.
pub fn page_file_path(html_dir: &str, file_path: &str) -> (res: String)
    ensures
        res@ == html_dir@ + "/"@ + flattened(file_path@) + ".html"@,
{
    let mut res = html_dir.to_owned();
    res.append("/");
    let name = page_file_name(file_path);
    res.append(name.as_str());
    assert(res@ =~= html_dir@ + "/"@ + flattened(file_path@) + ".html"@);
    res
}

/// The file that collects every newly covered `path:line` record: `{work_dir}/coverage.txt`.
pub fn coverage_record_path(work_dir: &str) -> (res: String)
    ensures
        res@ == work_dir@ + "/coverage.txt"@,
{
    let mut res = work_dir.to_owned();
    res.append("/coverage.txt");
    res
}

/// The combined report that the coverage endpoint serves: `{work_dir}/coverage_report.html`.
pub fn combined_report_path(work_dir: &str) -> (res: String)
    ensures
        res@ == work_dir@ + "/coverage_report.html"@,
{
    let mut res = work_dir.to_owned();
    res.append("/coverage_report.html");
    res
}

/// The working directory of fuzzing worker `index`: `{work_dir}/fuzz_{index}`.
pub fn worker_dir(work_dir: &str, index: usize) -> (res: String)
    ensures
        res@ == work_dir@ + "/fuzz_"@ + decimal(index as nat),
{
    let mut res = work_dir.to_owned();
    res.append("/fuzz_");
    push_decimal(&mut res, index as u64);
    res
}

/// The log file of fuzzing worker `index` inside its directory: `{dir}/log_{index}`.
pub fn worker_log_path(worker_dir: &str, index: usize) -> (res: String)
    ensures
        res@ == worker_dir@ + "/log_"@ + decimal(index as nat),
{
    let mut res = worker_dir.to_owned();
    res.append("/log_");
    push_decimal(&mut res, index as u64);
    res
}

} // verus!
