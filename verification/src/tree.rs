//! The file tree shown in the report's sidebar: every covered file with its
//! line counts, and every directory above it.

use vstd::prelude::*;
use crate::text::str_chars;

verus! {

/// What the tree records of one path: its covered and total line counts.
/// A directory is recorded with both counts zero.
pub struct FileStat {
    pub path: Seq<char>,
    pub covered: nat,
    pub total: nat,
}

/// One recorded path with its counts.
pub struct TreeEntry {
    pub path: Vec<char>,
    pub covered: usize,
    pub total: usize,
}

impl TreeEntry {
    /// The recorded path and counts.
    pub open spec fn stat(&self) -> FileStat {
        FileStat { path: self.path@, covered: self.covered as nat, total: self.total as nat }
    }
}

/// The recorded paths in the order in which they were first recorded.
pub struct FileTree {
    entries: Vec<TreeEntry>,
}

/// The stats of a sequence of entries.
pub open spec fn stats_of(v: Seq<TreeEntry>) -> Seq<FileStat> {
    v.map_values(|e: TreeEntry| e.stat())
}

impl View for FileTree {
    type V = Seq<FileStat>;

    closed spec fn view(&self) -> Seq<FileStat> {
        stats_of(self.entries@)
    }
}

/// Whether `path` is recorded in `es`.
pub open spec fn has_path(es: Seq<FileStat>, path: Seq<char>) -> bool {
    exists|i: int| 0 <= i < es.len() && es[i].path == path
}

/// Records `path` as a directory unless it is already recorded.
pub open spec fn with_directory(es: Seq<FileStat>, path: Seq<char>) -> Seq<FileStat> {
    if has_path(es, path) {
        es
    } else {
        es.push(FileStat { path, covered: 0, total: 0 })
    }
}

/// Records `path` with the given counts, replacing the counts it had.
pub open spec fn with_file(es: Seq<FileStat>, path: Seq<char>, covered: nat, total: nat) -> Seq<FileStat> {
    let stat = FileStat { path, covered, total };
    if has_path(es, path) {
        let i = choose|i: int| 0 <= i < es.len() && es[i].path == path;
        es.update(i, stat)
    } else {
        es.push(stat)
    }
}

/// Records the directories of `path` that end before position `n`: each
/// prefix of `path` that a `/` follows, in order.
pub open spec fn with_directories(es: Seq<FileStat>, path: Seq<char>, n: int) -> Seq<FileStat>
    decreases n,
{
    if n <= 0 {
        es
    } else {
        let before = with_directories(es, path, n - 1);
        if path[n - 1] == '/' {
            with_directory(before, path.take(n - 1))
        } else {
            before
        }
    }
}

/// The tree after recording a covered file: first every directory on its
/// path, then the file itself with its counts.
pub open spec fn with_covered_file(es: Seq<FileStat>, path: Seq<char>, covered: nat, total: nat) -> Seq<FileStat> {
    with_file(with_directories(es, path, path.len() as int), path, covered, total)
}

/// No path is recorded twice.
pub open spec fn paths_distinct(es: Seq<FileStat>) -> bool {
    forall|i: int, j: int| 0 <= i < j < es.len() ==> es[i].path != es[j].path
}

/// Recording directories keeps every entry already recorded, in place.
pub proof fn lemma_directories_keep(es: Seq<FileStat>, path: Seq<char>, n: int)
    requires
        0 <= n <= path.len(),
    ensures
        with_directories(es, path, n).len() >= es.len(),
        forall|i: int| 0 <= i < es.len() ==> #[trigger] with_directories(es, path, n)[i] == es[i],
        paths_distinct(es) ==> paths_distinct(with_directories(es, path, n)),
        forall|k: int| 0 <= k < n && path[k] == '/' ==> has_path(with_directories(es, path, n), #[trigger] path.take(k)),
        forall|q: Seq<char>| has_path(es, q) ==> #[trigger] has_path(with_directories(es, path, n), q),
    decreases n,
{
    if n > 0 {
        lemma_directories_keep(es, path, n - 1);
        let before = with_directories(es, path, n - 1);
        let now = with_directories(es, path, n);
        if path[n - 1] == '/' {
            let q = path.take(n - 1);
            if !has_path(before, q) {
                assert(now == before.push(FileStat { path: q, covered: 0, total: 0 }));
                assert forall|i: int| 0 <= i < before.len() implies now[i] == before[i] by {}
                assert(now[before.len() as int].path == q);
                if paths_distinct(before) {
                    assert forall|i: int, j: int| 0 <= i < j < now.len() implies now[i].path != now[j].path by {
                        if j == before.len() {
                            assert(now[i] == before[i]);
                        }
                    }
                }
                assert forall|r: Seq<char>| has_path(before, r) implies #[trigger] has_path(now, r) by {
                    let i = choose|i: int| 0 <= i < before.len() && before[i].path == r;
                    assert(now[i] == before[i]);
                }
            } else {
                assert(now == before);
            }
            assert forall|k: int| 0 <= k < n && path[k] == '/' implies has_path(now, #[trigger] path.take(k)) by {
                if k < n - 1 {
                    assert(has_path(before, path.take(k)));
                }
            }
        }
    }
}

/// Recording a file with its counts keeps every other recorded path and its
/// counts, records the file with exactly these counts, and keeps paths distinct.
pub proof fn lemma_file_recorded(es: Seq<FileStat>, path: Seq<char>, covered: nat, total: nat)
    ensures
        with_file(es, path, covered, total).len() >= es.len(),
        exists|i: int|
            0 <= i < with_file(es, path, covered, total).len() && #[trigger] with_file(es, path, covered, total)[i]
                == (FileStat { path, covered, total }),
        forall|i: int| 0 <= i < es.len() && es[i].path != path ==> #[trigger] with_file(es, path, covered, total)[i] == es[i],
        forall|q: Seq<char>| has_path(es, q) ==> #[trigger] has_path(with_file(es, path, covered, total), q),
        paths_distinct(es) ==> paths_distinct(with_file(es, path, covered, total)),
{
    let stat = FileStat { path, covered, total };
    let now = with_file(es, path, covered, total);
    if has_path(es, path) {
        let i = choose|i: int| 0 <= i < es.len() && es[i].path == path;
        assert(now == es.update(i, stat));
        assert(now[i] == stat);
        assert forall|q: Seq<char>| has_path(es, q) implies #[trigger] has_path(now, q) by {
            let j = choose|j: int| 0 <= j < es.len() && es[j].path == q;
            assert(now[j].path == q);
        }
    } else {
        assert(now == es.push(stat));
        assert(now[es.len() as int] == stat);
        assert forall|q: Seq<char>| has_path(es, q) implies #[trigger] has_path(now, q) by {
            let j = choose|j: int| 0 <= j < es.len() && es[j].path == q;
            assert(now[j] == es[j]);
        }
        if paths_distinct(es) {
            assert forall|a: int, b: int| 0 <= a < b < now.len() implies now[a].path != now[b].path by {
                if b == es.len() {
                    assert(now[a] == es[a]);
                }
            }
        }
    }
}

/// What recording a covered file promises: the file is recorded with its
/// counts, each directory on its path is recorded, every path recorded
/// before stays recorded with its counts unless it is the file's own path,
/// and no path is recorded twice.
pub proof fn lemma_covered_file(es: Seq<FileStat>, path: Seq<char>, covered: nat, total: nat)
    requires
        paths_distinct(es),
    ensures
        ({
            let now = with_covered_file(es, path, covered, total);
            &&& exists|i: int| 0 <= i < now.len() && #[trigger] now[i] == (FileStat { path, covered, total })
            &&& forall|k: int| 0 <= k < path.len() && path[k] == '/' ==> has_path(now, #[trigger] path.take(k))
            &&& forall|i: int| 0 <= i < es.len() && es[i].path != path ==> #[trigger] now[i] == es[i]
            &&& paths_distinct(now)
        }),
{
    let n = path.len() as int;
    lemma_directories_keep(es, path, n);
    let dirs = with_directories(es, path, n);
    lemma_file_recorded(dirs, path, covered, total);
    let now = with_covered_file(es, path, covered, total);
    assert forall|k: int| 0 <= k < path.len() && path[k] == '/' implies has_path(now, #[trigger] path.take(k)) by {
        assert(has_path(dirs, path.take(k)));
    }
    assert forall|i: int| 0 <= i < es.len() && es[i].path != path implies #[trigger] now[i] == es[i] by {
        assert(dirs[i] == es[i]);
    }
}

/// Recording the same file with the same counts again changes nothing.
pub proof fn lemma_covered_file_again(es: Seq<FileStat>, path: Seq<char>, covered: nat, total: nat)
    requires
        paths_distinct(es),
    ensures
        with_covered_file(with_covered_file(es, path, covered, total), path, covered, total)
            == with_covered_file(es, path, covered, total),
{
    let once = with_covered_file(es, path, covered, total);
    lemma_covered_file(es, path, covered, total);
    lemma_directories_unchanged(once, path, path.len() as int);
    let stat = FileStat { path, covered, total };
    let j = choose|j: int| 0 <= j < once.len() && once[j] == stat;
    assert(has_path(once, path));
    let i = choose|i: int| 0 <= i < once.len() && once[i].path == path;
    assert(i == j);
    assert(with_file(once, path, covered, total) =~= once);
}

/// Recording directories that are all recorded already changes nothing.
pub proof fn lemma_directories_unchanged(es: Seq<FileStat>, path: Seq<char>, n: int)
    requires
        0 <= n <= path.len(),
        forall|k: int| 0 <= k < path.len() && path[k] == '/' ==> has_path(es, #[trigger] path.take(k)),
    ensures
        with_directories(es, path, n) == es,
    decreases n,
{
    if n > 0 {
        lemma_directories_unchanged(es, path, n - 1);
        if path[n - 1] == '/' {
            assert(has_path(es, path.take(n - 1)));
        }
    }
}

/// Whether two character sequences are equal, by comparing them.
pub fn chars_equal(a: &Vec<char>, b: &Vec<char>) -> (res: bool)
    ensures
        res == (a@ == b@),
{
    if a.len() != b.len() {
        return false;
    }
    let mut i: usize = 0;
    while i < a.len()
        invariant
            a@.len() == b@.len(),
            i <= a@.len(),
            forall|k: int| 0 <= k < i ==> a@[k] == b@[k],
        decreases a@.len() - i,
    {
        if a[i] != b[i] {
            return false;
        }
        i = i + 1;
    }
    assert(a@ =~= b@);
    true
}

impl FileTree {
    /// A tree records each path once.
    #[verifier::type_invariant]
    spec fn distinct(self) -> bool {
        paths_distinct(stats_of(self.entries@))
    }

    /// An empty tree.
    pub fn new() -> (res: FileTree)
        ensures
            res@ == Seq::<FileStat>::empty(),
    {
        let res = FileTree { entries: Vec::new() };
        assert(res@ =~= Seq::<FileStat>::empty());
        res
    }

    /// The number of recorded paths.
    pub fn len(&self) -> (res: usize)
        ensures
            res == self@.len(),
    {
        self.entries.len()
    }

    /// The counts recorded for the path at position `i`.
    pub fn counts(&self, i: usize) -> (res: (usize, usize))
        requires
            i < self@.len(),
        ensures
            res.0 == self@[i as int].covered,
            res.1 == self@[i as int].total,
    {
        (self.entries[i].covered, self.entries[i].total)
    }

    /// The recorded path at position `i`.
    pub fn path(&self, i: usize) -> (res: Vec<char>)
        requires
            i < self@.len(),
        ensures
            res@ == self@[i as int].path,
    {
        self.entries[i].path.clone()
    }

    /// The entry at position `i`.
    pub fn entry(&self, i: usize) -> (res: &TreeEntry)
        requires
            i < self@.len(),
        ensures
            res.stat() == self@[i as int],
    {
        &self.entries[i]
    }

    /// The position of `path` among the recorded paths, if it is recorded.
    fn position(&self, path: &Vec<char>) -> (res: Option<usize>)
        ensures
            match res {
                Some(i) => i < self@.len() && self@[i as int].path == path@,
                None => !has_path(self@, path@),
            },
    {
        let mut i: usize = 0;
        while i < self.entries.len()
            invariant
                i <= self.entries@.len(),
                forall|k: int| 0 <= k < i ==> self@[k].path != path@,
            decreases self.entries@.len() - i,
        {
            if chars_equal(&self.entries[i].path, path) {
                return Some(i);
            }
            i = i + 1;
        }
        None
    }

    /// Records `path` as a directory unless it is recorded already.
    fn add_directory(&mut self, path: Vec<char>)
        ensures
            final(self)@ == with_directory(old(self)@, path@),
    {
        proof {
            use_type_invariant(&*self);
        }
        match self.position(&path) {
            Some(_) => {},
            None => {
                let ghost p = path@;
                let mut entries: Vec<TreeEntry> = Vec::new();
                std::mem::swap(&mut entries, &mut self.entries);
                entries.push(TreeEntry { path, covered: 0, total: 0 });
                assert(stats_of(entries@) =~= old(self)@.push(FileStat { path: p, covered: 0, total: 0 }));
                self.entries = entries;
            },
        }
    }

    /// Records the file at `file_path` with `covered` covered lines out of
    /// `total`, after recording each directory on its path (each prefix that a
    /// `/` follows) that is not recorded yet. A path recorded before keeps its
    /// place and takes the new counts.
    pub fn add_file(&mut self, file_path: &str, covered: usize, total: usize)
        ensures
            final(self)@ == with_covered_file(old(self)@, file_path@, covered as nat, total as nat),
    {
        let chars = str_chars(file_path);
        let mut k: usize = 0;
        while k < chars.len()
            invariant
                k <= chars@.len(),
                chars@ == file_path@,
                self@ == with_directories(old(self)@, chars@, k as int),
            decreases chars@.len() - k,
        {
            if chars[k] == '/' {
                let mut prefix: Vec<char> = Vec::new();
                let mut m: usize = 0;
                while m < k
                    invariant
                        m <= k < chars@.len(),
                        prefix@ == chars@.take(m as int),
                    decreases k - m,
                {
                    prefix.push(chars[m]);
                    assert(chars@.take(m + 1) =~= chars@.take(m as int).push(chars@[m as int]));
                    m = m + 1;
                }
                self.add_directory(prefix);
            }
            k = k + 1;
        }
        let ghost dirs_done = self@;
        proof {
            use_type_invariant(&*self);
        }
        match self.position(&chars) {
            Some(i) => {
                let ghost p = chars@;
                let mut entries: Vec<TreeEntry> = Vec::new();
                std::mem::swap(&mut entries, &mut self.entries);
                entries.set(i, TreeEntry { path: chars, covered, total });
                assert(stats_of(entries@) =~= dirs_done.update(i as int, FileStat { path: p, covered: covered as nat, total: total as nat }));
                self.entries = entries;
                proof {
                    assert(has_path(dirs_done, p));
                    let j = choose|j: int| 0 <= j < dirs_done.len() && dirs_done[j].path == p;
                    assert(j == i);
                }
            },
            None => {
                let ghost p = chars@;
                let mut entries: Vec<TreeEntry> = Vec::new();
                std::mem::swap(&mut entries, &mut self.entries);
                entries.push(TreeEntry { path: chars, covered, total });
                assert(stats_of(entries@) =~= dirs_done.push(FileStat { path: p, covered: covered as nat, total: total as nat }));
                self.entries = entries;
            },
        }
    }
}

} // verus!
