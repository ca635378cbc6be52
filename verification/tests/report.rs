use std::collections::HashSet;

use fuzz_web::index::{render_index, tree_renders_finitely};
use fuzz_web::page::render_file_page;
use fuzz_web::report::add_source_file;
use fuzz_web::tree::FileTree;

fn css_page() -> String {
    [
    "body { font-family: monospace; margin: 0; padding: 0; display: flex; }\n",
    "#sidebar { width: 300px; height: 100vh; overflow: auto; padding: 10px; background-color: #f0f0f0; }\n",
    "#content { flex-grow: 1; height: 100vh; overflow: auto; padding: 10px; }\n",
    ".covered { background-color: #90EE90; }\n",
    ".line-number { color: #888; margin-right: 10px; user-select: none; }\n",
    "pre { margin: 0; }\n",
    ".file-link { text-decoration: none; color: blue; display: block; margin: 2px 0; }\n",
    ".directory { font-weight: bold; margin-top: 5px; cursor: pointer; }\n",
    ".coverage-good { color: green; }\n",
    ".coverage-medium { color: orange; }\n",
    ".coverage-bad { color: red; }\n",
    ".tree-toggle { cursor: pointer; user-select: none; }\n",
    ".tree-toggle::before { content: '▶'; display: inline-block; margin-right: 5px; transition: transform 0.2s; }\n",
    ".tree-toggle.expanded::before { transform: rotate(90deg); }\n",
    ".tree-child { margin-left: 20px; display: none; }\n",
    ".tree-child.expanded { display: block; }\n",
    ]
    .concat()
}

fn page_script() -> String {
    [
    "<script>\n",
    "window.onload = function() {\n",
    "  fetch('index.html')\n",
    "    .then(response => response.text())\n",
    "    .then(html => {\n",
    "      const parser = new DOMParser();\n",
    "      const doc = parser.parseFromString(html, 'text/html');\n",
    "      document.getElementById('sidebar').innerHTML = doc.getElementById('sidebar').innerHTML;\n",
    "      setupTreeToggles();\n",
    "    });\n",
    "}\n\n",
    "function setupTreeToggles() {\n",
    "  const toggles = document.querySelectorAll('.tree-toggle');\n",
    "  toggles.forEach(toggle => {\n",
    "    toggle.addEventListener('click', function() {\n",
    "      this.classList.toggle('expanded');\n",
    "      const childrenContainer = this.nextElementSibling;\n",
    "      if (childrenContainer && childrenContainer.classList.contains('tree-child')) {\n",
    "        childrenContainer.classList.toggle('expanded');\n",
    "      }\n",
    "    });\n",
    "  });\n",
    "}\n",
    "</script>\n",
    ]
    .concat()
}

fn expected_page(path: &str, rows: &str) -> String {
    let mut s = String::new();
    s.push_str("<!DOCTYPE html>\n<html>\n<head>\n<title>Coverage Report - ");
    s.push_str(path);
    s.push_str("</title>\n<style>\n");
    s.push_str(&css_page());
    s.push_str("</style>\n</head>\n<body>\n");
    s.push_str("<div id=\"sidebar\">Loading sidebar...</div>\n");
    s.push_str("<div id=\"content\">\n<h2>");
    s.push_str(path);
    s.push_str("</h2>\n<pre>\n");
    s.push_str(rows);
    s.push_str("</pre>\n</div>\n");
    s.push_str(&page_script());
    s.push_str("</body>\n</html>");
    s
}

#[test]
fn page_marks_covered_lines() {
    let source = "int main() {\n    int x = 1;\n    if (x > 0) {\n        return 0;\n    }\n    return 1;\n}\n";
    let mut covered = HashSet::new();
    covered.insert(1u32);
    covered.insert(2u32);
    covered.insert(3u32);
    let page = render_file_page("test_file.c", source, &covered);
    assert!(page.contains("int main()"));
    assert!(page.contains("class=\"covered\"><span class=\"line-number\">1</span>"));
    assert!(page.contains("class=\"covered\"><span class=\"line-number\">3</span>"));
    let rows = [
        "<div class=\"covered\"><span class=\"line-number\">1</span>int main() {</div>\n",
        "<div class=\"covered\"><span class=\"line-number\">2</span>    int x = 1;</div>\n",
        "<div class=\"covered\"><span class=\"line-number\">3</span>    if (x &gt; 0) {</div>\n",
        "<div class=\"\"><span class=\"line-number\">4</span>        return 0;</div>\n",
        "<div class=\"\"><span class=\"line-number\">5</span>    }</div>\n",
        "<div class=\"\"><span class=\"line-number\">6</span>    return 1;</div>\n",
        "<div class=\"\"><span class=\"line-number\">7</span>}</div>\n",
    ]
    .concat();
    assert_eq!(page, expected_page("test_file.c", &rows));
}

fn index_start() -> String {
    [
        "<!DOCTYPE html>\n<html>\n<head>\n<title>Coverage Report</title>\n<style>\n",
        "body { font-family: monospace; margin: 0; padding: 0; display: flex; }\n",
        "#sidebar { width: 300px; height: 100vh; overflow: auto; padding: 10px; background-color: #f0f0f0; }\n",
        "#content { flex-grow: 1; height: 100vh; overflow: auto; padding: 10px; display: flex; justify-content: center; align-items: center; }\n",
        ".covered { background-color: #90EE90; }\n",
        ".line-number { color: #888; margin-right: 10px; }\n",
        "pre { margin: 0; }\n",
        ".file-link { text-decoration: none; color: blue; display: block; margin: 2px 0; }\n",
        ".directory { font-weight: bold; margin-top: 5px; }\n",
        ".coverage-good { color: green; }\n",
        ".coverage-medium { color: orange; }\n",
        ".coverage-bad { color: red; }\n",
        ".tree-toggle { cursor: pointer; user-select: none; }\n",
        ".tree-toggle::before { content: '▶'; display: inline-block; margin-right: 5px; transition: transform 0.2s; }\n",
        ".tree-toggle.expanded::before { transform: rotate(90deg); }\n",
        ".tree-child { margin-left: 20px; display: none; }\n",
        ".tree-child.expanded { display: block; }\n",
        "</style>\n</head>\n<body>\n",
        "<div id=\"sidebar\">\n<h2>Coverage Report</h2>\n",
    ]
    .concat()
}

fn index_end() -> String {
    [
        "</div>\n",
        "<div id=\"content\">\n<h1>Coverage Report</h1>\n<p>Select a file from the sidebar to view coverage details.</p>\n</div>\n",
        "<script>\n",
        "window.onload = function() {\n",
        "  setupTreeToggles();\n",
        "}\n\n",
        "function setupTreeToggles() {\n",
        "  const toggles = document.querySelectorAll('.tree-toggle');\n",
        "  toggles.forEach(toggle => {\n",
        "    toggle.addEventListener('click', function() {\n",
        "      this.classList.toggle('expanded');\n",
        "      const childrenContainer = this.nextElementSibling;\n",
        "      if (childrenContainer && childrenContainer.classList.contains('tree-child')) {\n",
        "        childrenContainer.classList.toggle('expanded');\n",
        "      }\n",
        "    });\n",
        "  });\n",
        "}\n",
        "</script>\n",
        "</body>\n</html>",
    ]
    .concat()
}

fn labels_for(tree: &FileTree, texts: &[(&str, &str)]) -> Vec<String> {
    let mut labels = Vec::new();
    for i in 0..tree.len() {
        let path: String = tree.path(i).into_iter().collect();
        let mut label = String::from("0.0");
        for (p, l) in texts {
            if *p == path {
                label = l.to_string();
            }
        }
        labels.push(label);
    }
    labels
}

#[test]
fn index_sorts_directories_before_files() {
    let mut tree = FileTree::new();
    tree.add_file("zeta.c", 9, 10);
    tree.add_file("kernel/sched/core.c", 1, 2);
    tree.add_file("drivers/net/a.c", 1, 3);
    tree.add_file("alpha.c", 4, 5);
    assert!(tree_renders_finitely(&tree));
    let labels = labels_for(&tree, &[("zeta.c", "90.0"), ("kernel/sched/core.c", "50.0"), ("drivers/net/a.c", "33.3"), ("alpha.c", "80.0")]);
    let index = render_index(&tree, &labels);
    let body = [
        "<div class=\"tree-toggle expanded\">drivers/</div>\n",
        "<div class=\"tree-child expanded\">\n",
        "<div class=\"tree-toggle\">net/</div>\n",
        "<div class=\"tree-child\">\n",
        "<div><a href=\"drivers_net_a.c.html\" class=\"file-link\">a.c <span class=\"coverage-bad\">(33.3%)</span></a></div>\n",
        "</div>\n",
        "</div>\n",
        "<div class=\"tree-toggle expanded\">kernel/</div>\n",
        "<div class=\"tree-child expanded\">\n",
        "<div class=\"tree-toggle\">sched/</div>\n",
        "<div class=\"tree-child\">\n",
        "<div><a href=\"kernel_sched_core.c.html\" class=\"file-link\">core.c <span class=\"coverage-medium\">(50.0%)</span></a></div>\n",
        "</div>\n",
        "</div>\n",
        "<div><a href=\"alpha.c.html\" class=\"file-link\">alpha.c <span class=\"coverage-good\">(80.0%)</span></a></div>\n",
        "<div><a href=\"zeta.c.html\" class=\"file-link\">zeta.c <span class=\"coverage-good\">(90.0%)</span></a></div>\n",
    ]
    .concat();
    assert_eq!(index, [index_start(), body, index_end()].concat());
}

#[test]
fn empty_file_is_shown_as_directory() {
    let mut tree = FileTree::new();
    tree.add_file("empty.c", 0, 0);
    let labels = labels_for(&tree, &[]);
    let index = render_index(&tree, &labels);
    let body = "<div class=\"tree-toggle expanded\">empty.c/</div>\n<div class=\"tree-child expanded\">\n</div>\n";
    assert_eq!(index, [index_start(), body.to_string(), index_end()].concat());
}

#[test]
fn path_from_root_cannot_be_rendered() {
    let mut tree = FileTree::new();
    tree.add_file("/abs/file.c", 1, 1);
    assert!(!tree_renders_finitely(&tree));
    let mut ok = FileTree::new();
    ok.add_file("rel/file.c", 1, 1);
    assert!(tree_renders_finitely(&ok));
}

#[test]
fn tree_records_directories_then_file() {
    let mut tree = FileTree::new();
    tree.add_file("a/b/c.c", 3, 7);
    assert_eq!(tree.len(), 3);
    let paths: Vec<String> = (0..3).map(|i| tree.path(i).into_iter().collect()).collect();
    assert_eq!(paths, vec!["a".to_string(), "a/b".to_string(), "a/b/c.c".to_string()]);
    assert_eq!(tree.counts(0), (0, 0));
    assert_eq!(tree.counts(1), (0, 0));
    assert_eq!(tree.counts(2), (3, 7));
    // Recording the same file again changes nothing.
    tree.add_file("a/b/c.c", 3, 7);
    assert_eq!(tree.len(), 3);
    assert_eq!(tree.counts(2), (3, 7));
    // New counts replace the old ones in place; directories keep theirs.
    tree.add_file("a/b/c.c", 5, 7);
    assert_eq!(tree.counts(2), (5, 7));
    tree.add_file("a/d.c", 1, 1);
    assert_eq!(tree.len(), 4);
    assert_eq!(tree.counts(0), (0, 0));
}

#[test]
fn add_source_file_counts_lines() {
    let mut tree = FileTree::new();
    let mut covered = HashSet::new();
    covered.insert(2u32);
    covered.insert(9u32);
    let page = add_source_file(&mut tree, "dir/f.c", "x\r\ny\n", &covered);
    assert_eq!(tree.len(), 2);
    assert_eq!(tree.counts(1), (2, 2));
    let rows = [
        "<div class=\"\"><span class=\"line-number\">1</span>x</div>\n",
        "<div class=\"covered\"><span class=\"line-number\">2</span>y</div>\n",
    ]
    .concat();
    assert_eq!(page, expected_page("dir/f.c", &rows));
}

#[test]
fn page_escapes_source_text() {
    let covered = HashSet::new();
    let page = render_file_page("p.h", "if (a < b && c > d) s = \"x\";", &covered);
    let rows = "<div class=\"\"><span class=\"line-number\">1</span>if (a &lt; b &amp;&amp; c &gt; d) s = &quot;x&quot;;</div>\n";
    assert_eq!(page, expected_page("p.h", rows));
}
