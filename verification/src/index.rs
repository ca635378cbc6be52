//! The report's index page: the sidebar tree of directories and files.

use vstd::prelude::*;
use vstd::string::*;
use crate::order::{Item, items_view, lemma_sort_items_from, sort_by_name, sort_items};
use crate::paths::{flattened, push_flattened};
use crate::tree::{FileStat, FileTree};

verus! {

/// Start of the index page, up to the tree in the sidebar.
pub const INDEX_START: &'static str = "<!DOCTYPE html>\n<html>\n<head>\n<title>Coverage Report</title>\n<style>\n\
body { font-family: monospace; margin: 0; padding: 0; display: flex; }\n\
#sidebar { width: 300px; height: 100vh; overflow: auto; padding: 10px; background-color: #f0f0f0; }\n\
#content { flex-grow: 1; height: 100vh; overflow: auto; padding: 10px; display: flex; justify-content: center; align-items: center; }\n\
.covered { background-color: #90EE90; }\n\
.line-number { color: #888; margin-right: 10px; }\n\
pre { margin: 0; }\n\
.file-link { text-decoration: none; color: blue; display: block; margin: 2px 0; }\n\
.directory { font-weight: bold; margin-top: 5px; }\n\
.coverage-good { color: green; }\n\
.coverage-medium { color: orange; }\n\
.coverage-bad { color: red; }\n\
.tree-toggle { cursor: pointer; user-select: none; }\n\
.tree-toggle::before { content: '\u{25B6}'; display: inline-block; margin-right: 5px; transition: transform 0.2s; }\n\
.tree-toggle.expanded::before { transform: rotate(90deg); }\n\
.tree-child { margin-left: 20px; display: none; }\n\
.tree-child.expanded { display: block; }\n\
</style>\n</head>\n<body>\n\
<div id=\"sidebar\">\n<h2>Coverage Report</h2>\n";

/// After the tree: the end of the sidebar, the welcome pane and the script
/// that makes directories fold.
pub const INDEX_END: &'static str = "</div>\n\
<div id=\"content\">\n<h1>Coverage Report</h1>\n<p>Select a file from the sidebar to view coverage details.</p>\n</div>\n\
<script>\n\
window.onload = function() {\n\
\x20 setupTreeToggles();\n\
}\n\n\
function setupTreeToggles() {\n\
\x20 const toggles = document.querySelectorAll('.tree-toggle');\n\
\x20 toggles.forEach(toggle => {\n\
\x20   toggle.addEventListener('click', function() {\n\
\x20     this.classList.toggle('expanded');\n\
\x20     const childrenContainer = this.nextElementSibling;\n\
\x20     if (childrenContainer && childrenContainer.classList.contains('tree-child')) {\n\
\x20       childrenContainer.classList.toggle('expanded');\n\
\x20     }\n\
\x20   });\n\
\x20 });\n\
}\n\
</script>\n\
</body>\n</html>";

/// The position of the last `/` in `p`, or -1 when there is none.
pub open spec fn last_slash(p: Seq<char>) -> int
    decreases p.len(),
{
    if p.len() == 0 {
        -1
    } else if p.last() == '/' {
        p.len() - 1
    } else {
        last_slash(p.drop_last())
    }
}

/// The directory that holds `p`: everything before its last `/`, or the
/// empty (top) directory when `p` has no `/`.
pub open spec fn parent_dir(p: Seq<char>) -> Seq<char> {
    if last_slash(p) < 0 {
        Seq::empty()
    } else {
        p.take(last_slash(p))
    }
}

/// The last component of `p`: everything after its last `/`.
pub open spec fn base_name(p: Seq<char>) -> Seq<char> {
    p.skip(last_slash(p) + 1)
}

/// The name of `p` inside directory `dir`: `p` itself in the top directory,
/// else what follows `dir` and the `/` after it.
pub open spec fn name_under(dir: Seq<char>, p: Seq<char>) -> Seq<char> {
    if dir.len() == 0 {
        p
    } else {
        p.skip(dir.len() as int + 1)
    }
}

/// The path of `name` inside directory `dir`.
pub open spec fn joined(dir: Seq<char>, name: Seq<char>) -> Seq<char> {
    if dir.len() == 0 {
        name
    } else {
        dir + seq!['/'] + name
    }
}

/// The sub-directories shown under `dir`, among the first `n` entries, in
/// entry order: entries whose parent is `dir`, with no lines, and whose name
/// under `dir` holds no `/`; each with its name and position.
pub open spec fn directory_items(es: Seq<FileStat>, dir: Seq<char>, n: int) -> Seq<Item>
    decreases n,
{
    if n <= 0 {
        Seq::empty()
    } else {
        let before = directory_items(es, dir, n - 1);
        let e = es[n - 1];
        if parent_dir(e.path) == dir && e.total == 0 && !name_under(dir, e.path).contains('/') {
            before.push((name_under(dir, e.path), n - 1))
        } else {
            before
        }
    }
}

/// The files shown under `dir`, among the first `n` entries, in entry order:
/// entries whose parent is `dir` and that have lines; each with its last
/// component and position.
pub open spec fn file_items(es: Seq<FileStat>, dir: Seq<char>, n: int) -> Seq<Item>
    decreases n,
{
    if n <= 0 {
        Seq::empty()
    } else {
        let before = file_items(es, dir, n - 1);
        let e = es[n - 1];
        if parent_dir(e.path) == dir && e.total != 0 {
            before.push((base_name(e.path), n - 1))
        } else {
            before
        }
    }
}

/// The class that colours a file's coverage: good when at least 80 percent
/// of its lines are covered, medium from 50 percent, bad below; the ratios are
/// compared exactly, in integers.
pub open spec fn coverage_class(covered: nat, total: nat) -> Seq<char> {
    if covered * 5 >= total * 4 {
        "coverage-good"@
    } else if covered * 2 >= total {
        "coverage-medium"@
    } else {
        "coverage-bad"@
    }
}

/// The sidebar row of a file named `name` in `dir`: a link to its page,
/// and its coverage `label` (a percentage) in its coverage class.
pub open spec fn file_row(dir: Seq<char>, name: Seq<char>, stat: FileStat, label: Seq<char>) -> Seq<char> {
    "<div><a href=\""@ + flattened(joined(dir, name)) + ".html\" class=\"file-link\">"@ + name
        + " <span class=\""@ + coverage_class(stat.covered, stat.total) + "\">("@ + label
        + "%)</span></a></div>\n"@
}

/// The rows of the files `fs`, in order.
pub open spec fn files_html(es: Seq<FileStat>, labels: Seq<Seq<char>>, dir: Seq<char>, fs: Seq<Item>) -> Seq<char>
    decreases fs.len(),
{
    if fs.len() == 0 {
        Seq::empty()
    } else {
        let f = fs.last();
        files_html(es, labels, dir, fs.drop_last()) + file_row(dir, f.0, es[f.1], labels[f.1])
    }
}

/// ` expanded` for the top level, where directories start unfolded.
pub open spec fn expanded(top: bool) -> Seq<char> {
    if top {
        " expanded"@
    } else {
        Seq::empty()
    }
}

/// The toggle of a directory named `name` and the opening of its container.
pub open spec fn directory_open(name: Seq<char>, top: bool) -> Seq<char> {
    "<div class=\"tree-toggle"@ + expanded(top) + "\">"@ + name + "/</div>\n"@
        + "<div class=\"tree-child"@ + expanded(top) + "\">\n"@
}

/// The length of the longest recorded path.
pub open spec fn max_path_len(es: Seq<FileStat>) -> nat
    decreases es.len(),
{
    if es.len() == 0 {
        0
    } else {
        let m = max_path_len(es.drop_last());
        if es.last().path.len() > m {
            es.last().path.len()
        } else {
            m
        }
    }
}

/// How many more levels the tree can have below `dir`: directories are
/// recorded paths, so each level below the top is longer than the one above
/// and no longer than the longest path.
pub open spec fn depth_budget(es: Seq<FileStat>, dir: Seq<char>) -> nat {
    let m = max_path_len(es);
    if dir.len() == 0 {
        m + 2
    } else if dir.len() <= m {
        (m + 1 - dir.len()) as nat
    } else {
        0
    }
}

/// The tree under `dir`: its sub-directories sorted by name, each as a
/// toggle followed by its own tree in a container, then its files sorted by
/// name (files with equal names in entry order).
pub open spec fn tree_html(es: Seq<FileStat>, labels: Seq<Seq<char>>, dir: Seq<char>, top: bool) -> Seq<char>
    decreases depth_budget(es, dir), 1nat, 0nat,
{
    let ds = sort_items(directory_items(es, dir, es.len() as int));
    let fs = sort_items(file_items(es, dir, es.len() as int));
    directories_html(es, labels, dir, top, ds) + files_html(es, labels, dir, fs)
}

/// The directories `ds` of `dir`, each with the tree beneath it. (A tree
/// beneath is only expanded while the depth budget falls, which
/// `lemma_directories_descend` shows it always does.)
pub open spec fn directories_html(
    es: Seq<FileStat>,
    labels: Seq<Seq<char>>,
    dir: Seq<char>,
    top: bool,
    ds: Seq<Item>,
) -> Seq<char>
    decreases depth_budget(es, dir), 0nat, ds.len(),
{
    if ds.len() == 0 {
        Seq::empty()
    } else {
        let name = ds.last().0;
        let child = joined(dir, name);
        directories_html(es, labels, dir, top, ds.drop_last()) + directory_open(name, top) + (if depth_budget(
            es,
            child,
        ) < depth_budget(es, dir) {
            tree_html(es, labels, child, false)
        } else {
            Seq::empty()
        }) + "</div>\n"@
    }
}

/// The whole index page.
pub open spec fn index_page(es: Seq<FileStat>, labels: Seq<Seq<char>>) -> Seq<char> {
    INDEX_START@ + tree_html(es, labels, Seq::empty(), true) + INDEX_END@
}

/// No recorded path is the empty path recorded as a directory: such an entry
/// would be its own sub-directory at the top, and the tree would never end.
/// It is recorded only for a file path that starts with `/` or is empty.
pub open spec fn renders_finitely(es: Seq<FileStat>) -> bool {
    forall|i: int| 0 <= i < es.len() ==> !(#[trigger] es[i].path.len() == 0 && es[i].total == 0)
}

/// The texts of a vector of strings.
pub open spec fn labels_view(v: Seq<String>) -> Seq<Seq<char>> {
    v.map_values(|s: String| s@)
}

/// Where the last `/` of `p` can be.
pub proof fn lemma_last_slash(p: Seq<char>)
    ensures
        -1 <= last_slash(p) < p.len(),
        last_slash(p) >= 0 ==> p[last_slash(p)] == '/',
        forall|k: int| last_slash(p) < k < p.len() ==> p[k] != '/',
    decreases p.len(),
{
    if p.len() > 0 && p.last() != '/' {
        lemma_last_slash(p.drop_last());
        assert forall|k: int| last_slash(p) < k < p.len() implies p[k] != '/' by {
            if k < p.len() - 1 {
                assert(p.drop_last()[k] == p[k]);
            }
        }
    }
}

/// Every recorded path is at most as long as the longest.
pub proof fn lemma_max_path_len(es: Seq<FileStat>, i: int)
    requires
        0 <= i < es.len(),
    ensures
        es[i].path.len() <= max_path_len(es),
    decreases es.len(),
{
    if i < es.len() - 1 {
        lemma_max_path_len(es.drop_last(), i);
        assert(es.drop_last()[i] == es[i]);
    }
}

/// What each shown sub-directory is: a recorded directory whose parent is
/// `dir`, named by what follows `dir`, so that `dir` joined with the name is
/// its recorded path.
pub proof fn lemma_directory_items(es: Seq<FileStat>, dir: Seq<char>, n: int)
    requires
        0 <= n <= es.len(),
    ensures
        forall|k: int|
            0 <= k < directory_items(es, dir, n).len() ==> {
                let x = #[trigger] directory_items(es, dir, n)[k];
                &&& 0 <= x.1 < n
                &&& parent_dir(es[x.1].path) == dir
                &&& es[x.1].total == 0
                &&& x.0 == name_under(dir, es[x.1].path)
                &&& joined(dir, x.0) == es[x.1].path
            },
    decreases n,
{
    if n > 0 {
        lemma_directory_items(es, dir, n - 1);
        let before = directory_items(es, dir, n - 1);
        let now = directory_items(es, dir, n);
        assert forall|k: int| 0 <= k < before.len() implies now[k] == before[k] by {}
        let p = es[n - 1].path;
        lemma_last_slash(p);
        if parent_dir(p) == dir && dir.len() > 0 {
            let ls = last_slash(p);
            assert(ls >= 0);
            assert(dir.len() == ls);
            assert(dir + seq!['/'] + p.skip(ls + 1) =~= p);
        }
        if parent_dir(p) == dir && dir.len() == 0 {
            assert(joined(dir, name_under(dir, p)) == p);
        }
    }
}

/// What each shown file is: a recorded path with lines whose parent is `dir`,
/// named by its last component.
pub proof fn lemma_file_items(es: Seq<FileStat>, dir: Seq<char>, n: int)
    requires
        0 <= n <= es.len(),
    ensures
        forall|k: int|
            0 <= k < file_items(es, dir, n).len() ==> {
                let x = #[trigger] file_items(es, dir, n)[k];
                &&& 0 <= x.1 < n
                &&& parent_dir(es[x.1].path) == dir
                &&& es[x.1].total != 0
                &&& x.0 == base_name(es[x.1].path)
            },
    decreases n,
{
    if n > 0 {
        lemma_file_items(es, dir, n - 1);
        let before = file_items(es, dir, n - 1);
        let now = file_items(es, dir, n);
        assert forall|k: int| 0 <= k < before.len() implies now[k] == before[k] by {}
    }
}

/// Each sub-directory shown under `dir` has a smaller depth budget than
/// `dir`, so the tree ends; this holds whenever the tree renders finitely.
pub proof fn lemma_directories_descend(es: Seq<FileStat>, dir: Seq<char>, x: Item)
    requires
        renders_finitely(es),
        directory_items(es, dir, es.len() as int).contains(x),
    ensures
        depth_budget(es, joined(dir, x.0)) < depth_budget(es, dir),
{
    lemma_directory_items(es, dir, es.len() as int);
    let items = directory_items(es, dir, es.len() as int);
    let k = choose|k: int| 0 <= k < items.len() && items[k] == x;
    assert(items[k] == x);
    let p = es[x.1].path;
    lemma_max_path_len(es, x.1);
    lemma_last_slash(p);
    if dir.len() == 0 {
        assert(p.len() > 0) by {
            assert(!(es[x.1].path.len() == 0 && es[x.1].total == 0));
        }
    } else {
        assert(last_slash(p) >= 0);
        assert(dir.len() == last_slash(p));
    }
}

/// The position of the last `/` of `p`, if it has one.
pub fn last_slash_of(p: &Vec<char>) -> (res: Option<usize>)
    ensures
        match res {
            Some(i) => last_slash(p@) == i,
            None => last_slash(p@) == -1,
        },
{
    let mut res: Option<usize> = None;
    let mut i: usize = 0;
    while i < p.len()
        invariant
            i <= p@.len(),
            match res {
                Some(k) => last_slash(p@.take(i as int)) == k,
                None => last_slash(p@.take(i as int)) == -1,
            },
        decreases p@.len() - i,
    {
        assert(p@.take(i + 1).drop_last() =~= p@.take(i as int));
        if p[i] == '/' {
            res = Some(i);
        }
        i = i + 1;
    }
    assert(p@.take(p@.len() as int) =~= p@);
    res
}

/// The characters of `v` from position `from` on.
pub fn skip_chars(v: &Vec<char>, from: usize) -> (res: Vec<char>)
    requires
        from <= v@.len(),
    ensures
        res@ == v@.skip(from as int),
{
    let mut res: Vec<char> = Vec::new();
    let mut i = from;
    while i < v.len()
        invariant
            from <= i <= v@.len(),
            res@ == v@.subrange(from as int, i as int),
        decreases v@.len() - i,
    {
        res.push(v[i]);
        assert(v@.subrange(from as int, i + 1) =~= v@.subrange(from as int, i as int).push(v@[i as int]));
        i = i + 1;
    }
    assert(v@.subrange(from as int, v@.len() as int) =~= v@.skip(from as int));
    res
}

/// The first `n` characters of `v`.
pub fn take_chars(v: &Vec<char>, n: usize) -> (res: Vec<char>)
    requires
        n <= v@.len(),
    ensures
        res@ == v@.take(n as int),
{
    let mut res: Vec<char> = Vec::new();
    let mut i: usize = 0;
    while i < n
        invariant
            i <= n <= v@.len(),
            res@ == v@.take(i as int),
        decreases n - i,
    {
        res.push(v[i]);
        assert(v@.take(i + 1) =~= v@.take(i as int).push(v@[i as int]));
        i = i + 1;
    }
    res
}

/// Whether `v` holds a `/`.
pub fn has_slash(v: &Vec<char>) -> (res: bool)
    ensures
        res == v@.contains('/'),
{
    let mut i: usize = 0;
    while i < v.len()
        invariant
            i <= v@.len(),
            forall|k: int| 0 <= k < i ==> v@[k] != '/',
        decreases v@.len() - i,
    {
        if v[i] == '/' {
            assert(v@[i as int] == '/');
            return true;
        }
        i = i + 1;
    }
    false
}

/// The directory that holds `p`.
pub fn parent_of(p: &Vec<char>) -> (res: Vec<char>)
    ensures
        res@ == parent_dir(p@),
{
    proof {
        lemma_last_slash(p@);
    }
    match last_slash_of(p) {
        Some(i) => take_chars(p, i),
        None => {
            let res: Vec<char> = Vec::new();
            assert(res@ =~= Seq::<char>::empty());
            res
        },
    }
}

/// The sub-directories shown under `dir`, in entry order.
fn directory_entries(tree: &FileTree, dir: &Vec<char>) -> (res: Vec<(Vec<char>, usize)>)
    ensures
        items_view(res@) == directory_items(tree@, dir@, tree@.len() as int),
{
    let mut res: Vec<(Vec<char>, usize)> = Vec::new();
    let mut j: usize = 0;
    let n = tree.len();
    while j < n
        invariant
            j <= n == tree@.len(),
            items_view(res@) == directory_items(tree@, dir@, j as int),
        decreases n - j,
    {
        let e = tree.entry(j);
        let parent = parent_of(&e.path);
        if e.total == 0 && crate::tree::chars_equal(&parent, dir) {
            let name = if dir.len() == 0 {
                e.path.clone()
            } else {
                proof {
                    lemma_last_slash(e.path@);
                    assert(last_slash(e.path@) >= 0);
                    assert(dir@.len() == last_slash(e.path@));
                }
                let plen = e.path.len();
                assert(dir.len() < plen);
                skip_chars(&e.path, dir.len() + 1)
            };
            assert(name@ == name_under(dir@, e.path@));
            if !has_slash(&name) {
                let ghost before = items_view(res@);
                res.push((name, j));
                assert(items_view(res@) =~= before.push((name_under(dir@, tree@[j as int].path), j as int)));
            }
        }
        j = j + 1;
    }
    res
}

/// The files shown under `dir`, in entry order.
fn file_entries(tree: &FileTree, dir: &Vec<char>) -> (res: Vec<(Vec<char>, usize)>)
    ensures
        items_view(res@) == file_items(tree@, dir@, tree@.len() as int),
{
    let mut res: Vec<(Vec<char>, usize)> = Vec::new();
    let mut j: usize = 0;
    let n = tree.len();
    while j < n
        invariant
            j <= n == tree@.len(),
            items_view(res@) == file_items(tree@, dir@, j as int),
        decreases n - j,
    {
        let e = tree.entry(j);
        let parent = parent_of(&e.path);
        if e.total != 0 && crate::tree::chars_equal(&parent, dir) {
            proof {
                lemma_last_slash(e.path@);
            }
            let slash = last_slash_of(&e.path);
            let plen = e.path.len();
            assert(slash matches Some(i) ==> i < plen);
            let name = match slash {
                Some(i) => skip_chars(&e.path, i + 1),
                None => skip_chars(&e.path, 0),
            };
            assert(name@ == base_name(e.path@));
            let ghost before = items_view(res@);
            res.push((name, j));
            assert(items_view(res@) =~= before.push((base_name(tree@[j as int].path), j as int)));
        }
        j = j + 1;
    }
    res
}

/// Appends `coverage_class(covered, total)` to `out`.
fn push_coverage_class(out: &mut String, covered: usize, total: usize)
    ensures
        final(out)@ == old(out)@ + coverage_class(covered as nat, total as nat),
{
    let c = covered as u128;
    let t = total as u128;
    if c * 5 >= t * 4 {
        out.append("coverage-good");
    } else if c * 2 >= t {
        out.append("coverage-medium");
    } else {
        out.append("coverage-bad");
    }
}

/// Appends `chars` to `out`.
pub fn push_chars(out: &mut String, chars: &Vec<char>)
    ensures
        final(out)@ == old(out)@ + chars@,
{
    let mut i: usize = 0;
    while i < chars.len()
        invariant
            i <= chars@.len(),
            out@ == old(out)@ + chars@.take(i as int),
        decreases chars@.len() - i,
    {
        out.push(chars[i]);
        assert(chars@.take(i + 1) =~= chars@.take(i as int).push(chars@[i as int]));
        i = i + 1;
    }
    assert(chars@.take(chars@.len() as int) =~= chars@);
}

/// The path of `name` inside `dir`.
fn join_path(dir: &Vec<char>, name: &Vec<char>) -> (res: Vec<char>)
    ensures
        res@ == joined(dir@, name@),
{
    let mut res = dir.clone();
    if dir.len() > 0 {
        res.push('/');
    }
    let mut i: usize = 0;
    let ghost start = res@;
    while i < name.len()
        invariant
            i <= name@.len(),
            res@ == start + name@.take(i as int),
        decreases name@.len() - i,
    {
        res.push(name[i]);
        assert(name@.take(i + 1) =~= name@.take(i as int).push(name@[i as int]));
        i = i + 1;
    }
    assert(name@.take(name@.len() as int) =~= name@);
    assert(res@ =~= joined(dir@, name@));
    res
}

/// Appends `directory_open(name, top)` to `out`.
fn push_directory_open(out: &mut String, name: &Vec<char>, top: bool)
    ensures
        final(out)@ == old(out)@ + directory_open(name@, top),
{
    out.append("<div class=\"tree-toggle");
    if top {
        out.append(" expanded");
    }
    out.append("\">");
    push_chars(out, name);
    out.append("/</div>\n");
    out.append("<div class=\"tree-child");
    if top {
        out.append(" expanded");
    }
    out.append("\">\n");
    assert(out@ =~= old(out)@ + directory_open(name@, top));
}

/// One more directory adds its toggle, its tree and the end of its container.
proof fn lemma_directories_step(
    es: Seq<FileStat>,
    labels: Seq<Seq<char>>,
    dir: Seq<char>,
    top: bool,
    ds: Seq<Item>,
    k: int,
)
    requires
        0 <= k < ds.len(),
        depth_budget(es, joined(dir, ds[k].0)) < depth_budget(es, dir),
    ensures
        directories_html(es, labels, dir, top, ds.take(k + 1)) == directories_html(
            es,
            labels,
            dir,
            top,
            ds.take(k),
        ) + directory_open(ds[k].0, top) + tree_html(es, labels, joined(dir, ds[k].0), false)
            + "</div>\n"@,
{
    assert(ds.take(k + 1).drop_last() =~= ds.take(k));
    assert(ds.take(k + 1).last() == ds[k]);
}

/// Appends the tree under `dir` to `out`.
fn push_tree(tree: &FileTree, labels: &Vec<String>, dir: &Vec<char>, top: bool, out: &mut String)
    requires
        renders_finitely(tree@),
        labels@.len() == tree@.len(),
    ensures
        final(out)@ == old(out)@ + tree_html(tree@, labels_view(labels@), dir@, top),
    decreases depth_budget(tree@, dir@),
{
    let ghost es = tree@;
    let ghost ls = labels_view(labels@);
    let dirs = sort_by_name(directory_entries(tree, dir));
    let files = sort_by_name(file_entries(tree, dir));
    let ghost ds = items_view(dirs@);
    let ghost fs = items_view(files@);
    proof {
        lemma_sort_items_from(directory_items(es, dir@, es.len() as int));
        lemma_sort_items_from(file_items(es, dir@, es.len() as int));
        lemma_directory_items(es, dir@, es.len() as int);
        lemma_file_items(es, dir@, es.len() as int);
        let unsorted = file_items(es, dir@, es.len() as int);
        assert forall|q: int| 0 <= q < fs.len() implies 0 <= (#[trigger] fs[q]).1 < es.len() by {
            assert(unsorted.contains(fs[q]));
            let r = choose|r: int| 0 <= r < unsorted.len() && unsorted[r] == fs[q];
            assert(unsorted[r] == fs[q]);
        }
    }
    proof {
        let unsorted = directory_items(es, dir@, es.len() as int);
        assert forall|q: int| 0 <= q < ds.len() implies depth_budget(es, joined(dir@, #[trigger] ds[q].0))
            < depth_budget(es, dir@) by {
            assert(unsorted.contains(ds[q]));
            lemma_directories_descend(es, dir@, ds[q]);
        }
    }
    let ghost start = out@;
    let mut k: usize = 0;
    while k < dirs.len()
        invariant
            k <= dirs@.len(),
            es == tree@,
            ls == labels_view(labels@),
            ds == items_view(dirs@),
            renders_finitely(es),
            labels@.len() == es.len(),
            forall|q: int| 0 <= q < ds.len() ==> depth_budget(es, joined(dir@, #[trigger] ds[q].0))
                < depth_budget(es, dir@),
            out@ == start + directories_html(es, ls, dir@, top, ds.take(k as int)),
        decreases dirs@.len() - k,
    {
        let name = &dirs[k].0;
        assert(ds[k as int].0 == name@);
        push_directory_open(out, name, top);
        let child = join_path(dir, name);
        assert(depth_budget(es, joined(dir@, ds[k as int].0)) < depth_budget(es, dir@));
        push_tree(tree, labels, &child, false, out);
        out.append("</div>\n");
        proof {
            lemma_directories_step(es, ls, dir@, top, ds, k as int);
        }
        k = k + 1;
    }
    assert(ds.take(ds.len() as int) =~= ds);
    let ghost after_dirs = out@;
    let mut m: usize = 0;
    while m < files.len()
        invariant
            m <= files@.len(),
            es == tree@,
            ls == labels_view(labels@),
            fs == items_view(files@),
            fs == sort_items(file_items(es, dir@, es.len() as int)),
            forall|q: int| 0 <= q < fs.len() ==> 0 <= (#[trigger] fs[q]).1 < es.len(),
            labels@.len() == es.len(),
            out@ == after_dirs + files_html(es, ls, dir@, fs.take(m as int)),
        decreases files@.len() - m,
    {
        let name = &files[m].0;
        let j = files[m].1;
        assert(fs[m as int] == (name@, j as int));
        let e = tree.entry(j);
        out.append("<div><a href=\"");
        let path = join_path(dir, name);
        push_flattened(out, &path);
        out.append(".html\" class=\"file-link\">");
        push_chars(out, name);
        out.append(" <span class=\"");
        push_coverage_class(out, e.covered, e.total);
        out.append("\">(");
        out.append(labels[j].as_str());
        out.append("%)</span></a></div>\n");
        proof {
            assert(ls[j as int] == labels@[j as int]@);
            assert(fs.take(m + 1).drop_last() =~= fs.take(m as int));
            assert(fs.take(m + 1).last() == fs[m as int]);
            assert(out@ =~= after_dirs + files_html(es, ls, dir@, fs.take(m + 1)));
        }
        m = m + 1;
    }
    assert(fs.take(fs.len() as int) =~= fs);
}

/// Whether the tree's index can be rendered: see `renders_finitely`.
pub fn tree_renders_finitely(tree: &FileTree) -> (res: bool)
    ensures
        res == renders_finitely(tree@),
{
    let mut j: usize = 0;
    while j < tree.len()
        invariant
            j <= tree@.len(),
            forall|i: int| 0 <= i < j ==> !(#[trigger] tree@[i].path.len() == 0 && tree@[i].total == 0),
        decreases tree@.len() - j,
    {
        let e = tree.entry(j);
        if e.path.len() == 0 && e.total == 0 {
            assert(tree@[j as int].path.len() == 0 && tree@[j as int].total == 0);
            return false;
        }
        j = j + 1;
    }
    true
}

/// Renders the index page of the report: the sidebar holds, from the top
/// directory down, each directory's sub-directories (sorted by name, the top
/// level unfolded) and then its files (sorted by name), each file linking to
/// its page and showing `labels[i]`, the coverage percentage of entry `i`, in
/// its coverage class.
pub fn render_index(tree: &FileTree, labels: &Vec<String>) -> (res: String)
    requires
        renders_finitely(tree@),
        labels@.len() == tree@.len(),
    ensures
        res@ == index_page(tree@, labels_view(labels@)),
{
    let mut out = String::new();
    out.append(INDEX_START);
    let top: Vec<char> = Vec::new();
    assert(top@ =~= Seq::<char>::empty());
    push_tree(tree, labels, &top, true, &mut out);
    out.append(INDEX_END);
    out
}

} // verus!
