//! Splitting source text into lines.

use vstd::prelude::*;

verus! {

/// Whether the text `s` ends inside a line, that is, is non-empty and does
/// not end with a line feed.
pub open spec fn ends_open(s: Seq<char>) -> bool {
    s.len() > 0 && s.last() != '\n'
}

/// The lines of `s`, read from its start: a line feed ends the current line
/// (and a carriage return just before it is not part of the line); any other
/// character extends the current line, or starts one after a line feed or at
/// the start. A final line needs no line feed, and a text that ends with a line
/// feed has no empty line after it.
pub open spec fn split_lines(s: Seq<char>) -> Seq<Seq<char>>
    decreases s.len(),
{
    if s.len() == 0 {
        Seq::empty()
    } else {
        let prev = s.drop_last();
        let ls = split_lines(prev);
        let c = s.last();
        if c == '\n' {
            if ends_open(prev) {
                let l = ls.last();
                if l.len() > 0 && l.last() == '\r' {
                    ls.update(ls.len() - 1, l.drop_last())
                } else {
                    ls
                }
            } else {
                ls.push(Seq::empty())
            }
        } else {
            if ends_open(prev) {
                ls.update(ls.len() - 1, ls.last().push(c))
            } else {
                ls.push(seq![c])
            }
        }
    }
}

/// A text that ends inside a line has at least one line.
pub proof fn lemma_open_has_line(s: Seq<char>)
    requires
        ends_open(s),
    ensures
        split_lines(s).len() > 0,
    decreases s.len(),
{
    let prev = s.drop_last();
    if ends_open(prev) {
        lemma_open_has_line(prev);
    }
}

/// The number of line feeds in `s`.
pub open spec fn line_feeds(s: Seq<char>) -> nat
    decreases s.len(),
{
    if s.len() == 0 {
        0
    } else {
        line_feeds(s.drop_last()) + if s.last() == '\n' { 1nat } else { 0nat }
    }
}

/// A text has one line per line feed, plus one when it ends inside a line;
/// and no line holds a line feed.
pub proof fn lemma_lines_count(s: Seq<char>)
    ensures
        split_lines(s).len() == line_feeds(s) + if ends_open(s) { 1nat } else { 0nat },
        forall|k: int| 0 <= k < split_lines(s).len() ==> !(#[trigger] split_lines(s)[k]).contains('\n'),
    decreases s.len(),
{
    if s.len() > 0 {
        let prev = s.drop_last();
        lemma_lines_count(prev);
        let ls = split_lines(prev);
        let now = split_lines(s);
        let c = s.last();
        if ends_open(prev) {
            lemma_open_has_line(prev);
        }
        assert forall|k: int| 0 <= k < now.len() implies !(#[trigger] now[k]).contains('\n') by {
            if k < ls.len() && !(k == ls.len() - 1 && ends_open(prev)) {
                assert(now[k] == ls[k]);
            } else if c == '\n' {
                if ends_open(prev) {
                    let l = ls.last();
                    assert(!l.contains('\n'));
                    if l.len() > 0 && l.last() == '\r' {
                        assert forall|q: int| 0 <= q < l.drop_last().len() implies l.drop_last()[q] != '\n' by {
                            assert(l.drop_last()[q] == l[q]);
                        }
                    }
                } else {
                    assert(now[k] =~= Seq::<char>::empty());
                }
            } else {
                if ends_open(prev) {
                    let l = ls.last();
                    assert(!l.contains('\n'));
                    assert forall|q: int| 0 <= q < l.push(c).len() implies l.push(c)[q] != '\n' by {
                        if q < l.len() {
                            assert(l.push(c)[q] == l[q]);
                        }
                    }
                } else {
                    assert(now[k] =~= seq![c]);
                }
            }
        }
    }
}

/// `ls` joined with a line feed between each two lines.
pub open spec fn joined_lines(ls: Seq<Seq<char>>) -> Seq<char>
    decreases ls.len(),
{
    if ls.len() == 0 {
        Seq::empty()
    } else if ls.len() == 1 {
        ls[0]
    } else {
        joined_lines(ls.drop_last()) + seq!['\n'] + ls.last()
    }
}

/// Extending the last line extends the joined text.
proof fn lemma_joined_extend_last(ls: Seq<Seq<char>>, c: char)
    requires
        ls.len() > 0,
    ensures
        joined_lines(ls.update(ls.len() - 1, ls.last().push(c))) == joined_lines(ls).push(c),
{
    let now = ls.update(ls.len() - 1, ls.last().push(c));
    if ls.len() > 1 {
        assert(now.drop_last() =~= ls.drop_last());
    }
}

/// A text without carriage returns is its lines joined with line feeds,
/// except for a final line feed: each line is exactly the characters between
/// two consecutive line feeds.
pub proof fn lemma_lines_rejoin(s: Seq<char>)
    requires
        !s.contains('\r'),
    ensures
        joined_lines(split_lines(s)) == (if s.len() > 0 && s.last() == '\n' { s.drop_last() } else { s }),
    decreases s.len(),
{
    if s.len() > 0 {
        let prev = s.drop_last();
        assert(!prev.contains('\r')) by {
            if prev.contains('\r') {
                let k = choose|k: int| 0 <= k < prev.len() && prev[k] == '\r';
                assert(s[k] == '\r');
            }
        }
        lemma_lines_rejoin(prev);
        let ls = split_lines(prev);
        let c = s.last();
        assert(s =~= prev.push(c));
        if ends_open(prev) {
            lemma_open_has_line(prev);
        }
        if c == '\n' {
            if ends_open(prev) {
                let l = ls.last();
                if l.len() > 0 && l.last() == '\r' {
                    lemma_lines_count(prev);
                    assert(ls[ls.len() - 1] == l);
                    assert(l.contains('\r'));
                    assert(joined_lines(ls) == prev);
                    lemma_joined_has(ls, ls.len() - 1, l.len() - 1);
                    assert(false);
                }
            } else if prev.len() > 0 {
                let now = ls.push(Seq::<char>::empty());
                assert(now.drop_last() =~= ls);
                lemma_lines_count(prev);
                assert(ls.len() >= 1);
                assert(prev =~= prev.drop_last().push('\n'));
            } else {
                assert(ls.push(Seq::<char>::empty())[0] =~= Seq::<char>::empty());
            }
        } else {
            if ends_open(prev) {
                lemma_joined_extend_last(ls, c);
            } else if prev.len() > 0 {
                let now = ls.push(seq![c]);
                assert(now.drop_last() =~= ls);
                lemma_lines_count(prev);
                assert(prev =~= prev.drop_last().push('\n'));
            } else {
                assert(s =~= seq![c]);
            }
        }
    }
}

/// Every character of a line is in the joined text.
proof fn lemma_joined_has(ls: Seq<Seq<char>>, i: int, q: int)
    requires
        0 <= i < ls.len(),
        0 <= q < ls[i].len(),
    ensures
        joined_lines(ls).contains(ls[i][q]),
    decreases ls.len(),
{
    if ls.len() == 1 {
        assert(joined_lines(ls)[q] == ls[0][q]);
    } else if i == ls.len() - 1 {
        let j = joined_lines(ls.drop_last()) + seq!['\n'] + ls.last();
        assert(j[joined_lines(ls.drop_last()).len() + 1 + q] == ls[i][q]);
    } else {
        lemma_joined_has(ls.drop_last(), i, q);
        let front = joined_lines(ls.drop_last());
        let k = choose|k: int| 0 <= k < front.len() && front[k] == ls[i][q];
        let j = front + seq!['\n'] + ls.last();
        assert(j[k] == front[k]);
    }
}

/// The character sequences of a vector of lines.
pub open spec fn view_lines(v: Seq<Vec<char>>) -> Seq<Seq<char>> {
    v.map_values(|l: Vec<char>| l@)
}

/// The lines of `text`, split as `split_lines` says; this is how the report
/// counts and numbers the lines of a source file.
pub fn source_lines(text: &Vec<char>) -> (res: Vec<Vec<char>>)
    ensures
        view_lines(res@) == split_lines(text@),
{
    let mut lines: Vec<Vec<char>> = Vec::new();
    let mut cur: Vec<char> = Vec::new();
    let mut open = false;
    let mut i: usize = 0;
    while i < text.len()
        invariant
            i <= text@.len(),
            open == ends_open(text@.take(i as int)),
            open ==> view_lines(lines@).push(cur@) == split_lines(text@.take(i as int)),
            !open ==> view_lines(lines@) == split_lines(text@.take(i as int)),
            !open ==> cur@.len() == 0,
        decreases text@.len() - i,
    {
        let c = text[i];
        let ghost prefix = text@.take(i as int);
        assert(text@.take(i + 1).drop_last() =~= prefix);
        assert(text@.take(i + 1).last() == c);
        if c == '\n' {
            if open {
                proof {
                    lemma_open_has_line(prefix);
                }
                let n = cur.len();
                if n > 0 && cur[n - 1] == '\r' {
                    cur.pop();
                }
                let done = cur;
                cur = Vec::new();
                lines.push(done);
                open = false;
                assert(view_lines(lines@) =~= split_lines(text@.take(i + 1)));
            } else {
                lines.push(Vec::new());
                assert(view_lines(lines@) =~= split_lines(text@.take(i + 1)));
            }
        } else {
            if open {
                proof {
                    lemma_open_has_line(prefix);
                }
                cur.push(c);
                assert(view_lines(lines@).push(cur@) =~= split_lines(text@.take(i + 1)));
            } else {
                cur.push(c);
                open = true;
                assert(cur@ =~= seq![c]);
                assert(!ends_open(prefix));
                assert(view_lines(lines@).push(cur@) =~= split_lines(text@.take(i + 1)));
            }
        }
        i = i + 1;
    }
    assert(text@.take(text@.len() as int) =~= text@);
    if open {
        lines.push(cur);
    }
    lines
}

} // verus!
