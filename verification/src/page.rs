//! The HTML page generated for one covered source file.

use std::collections::HashSet;
use vstd::prelude::*;
use vstd::string::*;
use crate::escape::{escaped, push_escaped};
use crate::lines::{split_lines, source_lines, view_lines};
use crate::text::{decimal, push_decimal, str_chars};

verus! {

broadcast use vstd::std_specs::hash::group_hash_axioms;

/// Start of a file page, up to the file's path in the title.
pub const PAGE_START: &'static str = "<!DOCTYPE html>\n<html>\n<head>\n<title>Coverage Report - ";

/// From the end of the title to the heading of the content pane: the style
/// sheet and the sidebar placeholder that the page fills from the index.
pub const PAGE_STYLE: &'static str = "</title>\n<style>\n\
body { font-family: monospace; margin: 0; padding: 0; display: flex; }\n\
#sidebar { width: 300px; height: 100vh; overflow: auto; padding: 10px; background-color: #f0f0f0; }\n\
#content { flex-grow: 1; height: 100vh; overflow: auto; padding: 10px; }\n\
.covered { background-color: #90EE90; }\n\
.line-number { color: #888; margin-right: 10px; user-select: none; }\n\
pre { margin: 0; }\n\
.file-link { text-decoration: none; color: blue; display: block; margin: 2px 0; }\n\
.directory { font-weight: bold; margin-top: 5px; cursor: pointer; }\n\
.coverage-good { color: green; }\n\
.coverage-medium { color: orange; }\n\
.coverage-bad { color: red; }\n\
.tree-toggle { cursor: pointer; user-select: none; }\n\
.tree-toggle::before { content: '\u{25B6}'; display: inline-block; margin-right: 5px; transition: transform 0.2s; }\n\
.tree-toggle.expanded::before { transform: rotate(90deg); }\n\
.tree-child { margin-left: 20px; display: none; }\n\
.tree-child.expanded { display: block; }\n\
</style>\n</head>\n<body>\n\
<div id=\"sidebar\">Loading sidebar...</div>\n\
<div id=\"content\">\n<h2>";

/// Between the heading and the first source line.
pub const PAGE_LISTING: &'static str = "</h2>\n<pre>\n";

/// After the last source line: the end of the listing and the script that
/// loads the sidebar from the index page and makes its directories fold.
pub const PAGE_END: &'static str = "</pre>\n</div>\n\
<script>\n\
window.onload = function() {\n\
\x20 fetch('index.html')\n\
\x20   .then(response => response.text())\n\
\x20   .then(html => {\n\
\x20     const parser = new DOMParser();\n\
\x20     const doc = parser.parseFromString(html, 'text/html');\n\
\x20     document.getElementById('sidebar').innerHTML = doc.getElementById('sidebar').innerHTML;\n\
\x20     setupTreeToggles();\n\
\x20   });\n\
}\n\n\
function setupTreeToggles() {\n\
\x20 const toggles = document.querySelectorAll('.tree-toggle');\n\
\x20 toggles.forEach(toggle => {\n\
\x20   toggle.addEventListener('click', function() {\n\
\x20     this.classList.toggle('expanded');\n\
\x20     const childrenContainer = this.nextElementSibling;\n\
\x20     if (childrenContainer && childrenContainer.classList.contains('tree-child')) {\n\
\x20       childrenContainer.classList.toggle('expanded');\n\
\x20     }\n\
\x20   });\n\
\x20 });\n\
}\n\
</script>\n\
</body>\n</html>";

/// The number shown for (and looked up for) the line at index `i`: one more
/// than the index, kept to 32 bits.
pub open spec fn line_number(i: int) -> u32 {
    ((i + 1) % 0x1_0000_0000) as u32
}

/// One row of the listing: the line's number, its text escaped, and the class
/// `covered` when the number is among the covered lines.
pub open spec fn line_row(number: u32, covered: bool, line: Seq<char>) -> Seq<char> {
    "<div class=\""@ + (if covered { "covered"@ } else { Seq::empty() })
        + "\"><span class=\"line-number\">"@ + decimal(number as nat) + "</span>"@
        + escaped(line) + "</div>\n"@
}

/// The rows of the listing for `lines`, in order.
pub open spec fn listing(lines: Seq<Seq<char>>, covered: Set<u32>) -> Seq<char>
    decreases lines.len(),
{
    if lines.len() == 0 {
        Seq::empty()
    } else {
        let i = lines.len() - 1;
        listing(lines.drop_last(), covered) + line_row(
            line_number(i),
            covered.contains(line_number(i)),
            lines[i],
        )
    }
}

/// The whole page of the file at `file_path` whose text is `source`.
pub open spec fn file_page(file_path: Seq<char>, source: Seq<char>, covered: Set<u32>) -> Seq<char> {
    PAGE_START@ + file_path + PAGE_STYLE@ + file_path + PAGE_LISTING@ + listing(
        split_lines(source),
        covered,
    ) + PAGE_END@
}

/// Renders the page of one covered source file: its path as title and
/// heading, then each line of `source` (split as `split_lines` says) with its
/// number, marked `covered` when that number is in `covered_lines`, its text
/// escaped, and the script that loads the sidebar.
pub fn render_file_page(file_path: &str, source: &str, covered_lines: &HashSet<u32>) -> (res: String)
    ensures
        res@ == file_page(file_path@, source@, covered_lines@),
{
    let chars = str_chars(source);
    let lines = source_lines(&chars);
    let mut out = String::new();
    out.append(PAGE_START);
    out.append(file_path);
    out.append(PAGE_STYLE);
    out.append(file_path);
    out.append(PAGE_LISTING);
    let ghost head = out@;
    let mut i: usize = 0;
    while i < lines.len()
        invariant
            i <= lines@.len(),
            view_lines(lines@) == split_lines(source@),
            out@ == head + listing(view_lines(lines@).take(i as int), covered_lines@),
        decreases lines@.len() - i,
    {
        let number: u32 = ((i as u64 + 1) % 0x1_0000_0000u64) as u32;
        assert(number == line_number(i as int));
        let covered = covered_lines.contains(&number);
        out.append("<div class=\"");
        if covered {
            out.append("covered");
        }
        out.append("\"><span class=\"line-number\">");
        push_decimal(&mut out, number as u64);
        out.append("</span>");
        push_escaped(&mut out, &lines[i]);
        out.append("</div>\n");
        let ghost all = view_lines(lines@);
        assert(all.take(i + 1).drop_last() =~= all.take(i as int));
        assert(all.take(i + 1)[i as int] == lines@[i as int]@);
        assert(out@ =~= head + listing(all.take(i + 1), covered_lines@));
        i = i + 1;
    }
    assert(view_lines(lines@).take(lines@.len() as int) =~= view_lines(lines@));
    out.append(PAGE_END);
    assert(out@ =~= file_page(file_path@, source@, covered_lines@));
    out
}

} // verus!
