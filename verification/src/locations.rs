//! Reading the source locations that `addr2line` prints, one per address.

use vstd::prelude::*;
use crate::text::str_chars;

verus! {

/// The position of the last `:` in `s`, or -1 when there is none.
pub open spec fn last_colon(s: Seq<char>) -> int
    decreases s.len(),
{
    if s.len() == 0 {
        -1
    } else if s.last() == ':' {
        s.len() - 1
    } else {
        last_colon(s.drop_last())
    }
}

/// Whether `c` is an ASCII decimal digit.
pub open spec fn is_digit(c: char) -> bool {
    '0' <= c && c <= '9'
}

/// The number of decimal digits at the start of `s`.
pub open spec fn leading_digits(s: Seq<char>) -> nat
    decreases s.len(),
{
    if s.len() == 0 || !is_digit(s[0]) {
        0
    } else {
        1 + leading_digits(s.drop_first())
    }
}

/// The number that the decimal digits `d` write.
pub open spec fn digits_value(d: Seq<char>) -> nat
    decreases d.len(),
{
    if d.len() == 0 {
        0
    } else {
        digits_value(d.drop_last()) * 10 + ((d.last() as nat) - 48) as nat
    }
}

/// `path` relative to `dir`: what follows `dir` and a `/`, when `path` starts
/// so; otherwise `path` itself.
pub open spec fn relative_to(path: Seq<char>, dir: Seq<char>) -> Seq<char> {
    if path.len() > dir.len() && path.take(dir.len() as int) == dir && path[dir.len() as int] == '/' {
        path.skip(dir.len() as int + 1)
    } else {
        path
    }
}

/// The source location on one line of `addr2line`'s output: the file before
/// the last `:` (made relative to `dir`) and the line number in the digits
/// after it. There is none when the line has no `:`, no digits after it, a
/// number that is 0 or does not fit in 32 bits, or the unknown file `??`.
pub open spec fn source_location(line: Seq<char>, dir: Seq<char>) -> Option<(Seq<char>, u32)> {
    let c = last_colon(line);
    let path = line.take(c);
    let rest = line.skip(c + 1);
    let n = leading_digits(rest);
    let v = digits_value(rest.take(n as int));
    if c < 0 || n == 0 || v == 0 || v > u32::MAX || path == seq!['?', '?'] {
        None
    } else {
        Some((relative_to(path, dir), v as u32))
    }
}

/// Where the last `:` can be.
proof fn lemma_last_colon(s: Seq<char>)
    ensures
        -1 <= last_colon(s) < s.len(),
    decreases s.len(),
{
    if s.len() > 0 && s.last() != ':' {
        lemma_last_colon(s.drop_last());
    }
}

/// The leading digits are digits, and the character after them is not one.
proof fn lemma_leading_digits(s: Seq<char>)
    ensures
        leading_digits(s) <= s.len(),
        forall|k: int| 0 <= k < leading_digits(s) ==> is_digit(#[trigger] s[k]),
        leading_digits(s) < s.len() ==> !is_digit(s[leading_digits(s) as int]),
    decreases s.len(),
{
    if s.len() > 0 && is_digit(s[0]) {
        lemma_leading_digits(s.drop_first());
        assert forall|k: int| 0 <= k < leading_digits(s) implies is_digit(#[trigger] s[k]) by {
            if k > 0 {
                assert(s[k] == s.drop_first()[k - 1]);
            }
        }
    }
}

/// Writing more digits never makes the number smaller.
proof fn lemma_digits_grow(d: Seq<char>, k: int)
    requires
        0 <= k <= d.len(),
    ensures
        digits_value(d.take(k)) <= digits_value(d),
    decreases d.len() - k,
{
    if k < d.len() {
        lemma_digits_grow(d, k + 1);
        let t = d.take(k + 1);
        assert(t.drop_last() =~= d.take(k));
    } else {
        assert(d.take(k) =~= d);
    }
}

/// The characters of `s` from `from` to `to`.
fn chars_between(s: &Vec<char>, from: usize, to: usize) -> (res: Vec<char>)
    requires
        from <= to <= s@.len(),
    ensures
        res@ == s@.subrange(from as int, to as int),
{
    let mut res: Vec<char> = Vec::new();
    let mut i = from;
    while i < to
        invariant
            from <= i <= to <= s@.len(),
            res@ == s@.subrange(from as int, i as int),
        decreases to - i,
    {
        res.push(s[i]);
        assert(s@.subrange(from as int, i + 1) =~= s@.subrange(from as int, i as int).push(s@[i as int]));
        i = i + 1;
    }
    res
}

/// The position of the last `:` of `s`, if it has one.
fn last_colon_of(s: &Vec<char>) -> (res: Option<usize>)
    ensures
        match res {
            Some(k) => last_colon(s@) == k && k < s@.len(),
            None => last_colon(s@) == -1,
        },
{
    proof {
        lemma_last_colon(s@);
    }
    let mut colon: Option<usize> = None;
    let mut i: usize = 0;
    while i < s.len()
        invariant
            i <= s@.len(),
            match colon {
                Some(k) => last_colon(s@.take(i as int)) == k && k < i,
                None => last_colon(s@.take(i as int)) == -1,
            },
        decreases s@.len() - i,
    {
        assert(s@.take(i + 1).drop_last() =~= s@.take(i as int));
        if s[i] == ':' {
            colon = Some(i);
        }
        i = i + 1;
    }
    assert(s@.take(s@.len() as int) =~= s@);
    colon
}

/// The digits of `s` from position `from` on: how many there are and the
/// number they write, or nothing when that number does not fit in 32 bits.
fn leading_number(s: &Vec<char>, from: usize) -> (res: Option<(usize, u32)>)
    requires
        from <= s@.len(),
    ensures
        ({
            let rest = s@.skip(from as int);
            let n = leading_digits(rest);
            match res {
                Some((count, value)) => count == n && value == digits_value(rest.take(n as int)),
                None => digits_value(rest.take(n as int)) > u32::MAX,
            }
        }),
{
    let ghost rest = s@.skip(from as int);
    proof {
        lemma_leading_digits(rest);
    }
    let mut j: usize = from;
    let mut value: u64 = 0;
    while j < s.len() && '0' <= s[j] && s[j] <= '9'
        invariant
            from <= j <= s@.len(),
            rest == s@.skip(from as int),
            j - from <= leading_digits(rest),
            leading_digits(rest) <= rest.len(),
            value == digits_value(rest.take(j - from)),
            value <= u32::MAX,
            forall|k: int| 0 <= k < leading_digits(rest) ==> is_digit(#[trigger] rest[k]),
            leading_digits(rest) < rest.len() ==> !is_digit(rest[leading_digits(rest) as int]),
        decreases s@.len() - j,
    {
        let ghost k = j - from;
        assert(rest[k] == s@[j as int]);
        assert(k < leading_digits(rest));
        let d = (s[j] as u32 - 48) as u64;
        assert(rest.take(k + 1).drop_last() =~= rest.take(k));
        assert(rest.take(k + 1).last() == s@[j as int]);
        let next = value * 10 + d;
        if next > 0xffff_ffffu64 {
            proof {
                let all = rest.take(leading_digits(rest) as int);
                lemma_digits_grow(all, k + 1);
                assert(all.take(k + 1) =~= rest.take(k + 1));
            }
            return None;
        }
        value = next;
        j = j + 1;
    }
    proof {
        let n = j - from;
        if n < leading_digits(rest) {
            assert(rest[n] == s@[j as int]);
        }
    }
    Some((j - from, value as u32))
}

/// `path` relative to `dir`.
fn relative_path(path: Vec<char>, dir: &Vec<char>) -> (res: Vec<char>)
    ensures
        res@ == relative_to(path@, dir@),
{
    if path.len() > dir.len() && crate::tree::chars_equal(&chars_between(&path, 0, dir.len()), dir)
        && path[dir.len()] == '/' {
        chars_between(&path, dir.len() + 1, path.len())
    } else {
        path
    }
}

/// Reads the source location on one line of `addr2line`'s output, with the
/// file made relative to `kernel_src_dir`.
pub fn parse_source_location(line: &str, kernel_src_dir: &str) -> (res: Option<(String, u32)>)
    ensures
        match res {
            Some((path, number)) => source_location(line@, kernel_src_dir@) == Some((path@, number)),
            None => source_location(line@, kernel_src_dir@) is None,
        },
{
    let s = str_chars(line);
    let dir = str_chars(kernel_src_dir);
    let c = match last_colon_of(&s) {
        Some(c) => c,
        None => return None,
    };
    let slen = s.len();
    assert(c < slen);
    let (n, value) = match leading_number(&s, c + 1) {
        Some(found) => found,
        None => return None,
    };
    let path = chars_between(&s, 0, c);
    assert(path@ =~= s@.take(c as int));
    let unknown = path.len() == 2 && path[0] == '?' && path[1] == '?';
    assert(unknown == (path@ == seq!['?', '?'])) by {
        if path@.len() == 2 && path@[0] == '?' && path@[1] == '?' {
            assert(path@ =~= seq!['?', '?']);
        }
    }
    if n == 0 || value == 0 || unknown {
        return None;
    }
    let relative = relative_path(path, &dir);
    let mut text = String::new();
    crate::index::push_chars(&mut text, &relative);
    Some((text, value))
}

} // verus!
