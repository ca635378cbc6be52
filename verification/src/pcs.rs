//! Decoding the program counters that fuzzing workers report, and keeping
//! the set of those seen so far.

use std::collections::HashSet;
use vstd::prelude::*;

verus! {

broadcast use vstd::std_specs::hash::group_hash_axioms;

/// The unsigned number that the bytes `s` encode, least significant byte first.
pub open spec fn le_value(s: Seq<u8>) -> nat
    decreases s.len(),
{
    if s.len() == 0 {
        0
    } else {
        s[0] as nat + 256 * le_value(s.drop_first())
    }
}

/// 256 to the power `n`.
pub open spec fn pow256(n: nat) -> nat
    decreases n,
{
    if n == 0 {
        1
    } else {
        256 * pow256((n - 1) as nat)
    }
}

/// `n` bytes encode less than 256 to the power `n`.
pub proof fn lemma_le_value_bound(s: Seq<u8>)
    ensures
        le_value(s) < pow256(s.len()),
    decreases s.len(),
{
    if s.len() > 0 {
        lemma_le_value_bound(s.drop_first());
        let r = le_value(s.drop_first());
        let p = pow256(s.drop_first().len());
        let b = s[0] as nat;
        assert(b + 256 * r < 256 * p) by (nonlinear_arith)
            requires
                b < 256,
                r < p,
        ;
    }
}

/// Eight bytes encode a number below 2^64.
pub proof fn lemma_pow256_8()
    ensures
        pow256(8) == 0x1_0000_0000_0000_0000,
{
    reveal_with_fuel(pow256, 9);
}

/// The number encoded by the 8 bytes at `data[at..at + 8]`, least
/// significant byte first.
pub fn le_u64_at(data: &[u8], at: usize) -> (res: u64)
    requires
        at + 8 <= data@.len(),
    ensures
        res == le_value(data@.subrange(at as int, at + 8)),
{
    let len = data.len();
    let mut v: u64 = 0;
    let mut k: usize = 8;
    proof {
        lemma_pow256_8();
    }
    while k > 0
        invariant
            k <= 8,
            at + 8 <= data@.len(),
            len == data@.len(),
            v == le_value(data@.subrange(at + k, at + 8)),
            pow256(8) == 0x1_0000_0000_0000_0000,
        decreases k,
    {
        let ghost rest = data@.subrange(at + k, at + 8);
        proof {
            lemma_le_value_bound(rest);
            lemma_pow_mono((8 - k) as nat, 7);
        }
        let b = data[at + k - 1];
        let ghost next = data@.subrange(at + k - 1, at + 8);
        assert(next.drop_first() =~= rest);
        assert(next[0] == b);
        let ghost p = pow256((8 - k) as nat);
        assert(v * 256 + b < 0x1_0000_0000_0000_0000) by (nonlinear_arith)
            requires
                v < p,
                p <= pow256(7),
                256 * pow256(7) == 0x1_0000_0000_0000_0000,
                b < 256,
        {
        }
        v = v * 256 + b as u64;
        k = k - 1;
    }
    v
}

/// Powers of 256 grow with the exponent.
proof fn lemma_pow_mono(a: nat, b: nat)
    requires
        a <= b,
    ensures
        pow256(a) <= pow256(b),
        pow256(8) == 256 * pow256(7),
    decreases b,
{
    reveal_with_fuel(pow256, 2);
    if a < b {
        lemma_pow_mono(a, (b - 1) as nat);
    }
}

/// The byte the controller sends a worker to ask for the program counters it
/// has reached.
pub const NEED_COVERAGE_COMMAND: u8 = 0x66;

/// The value of an 8-byte length prefix, least significant byte first.
pub fn batch_length(len_bytes: &[u8; 8]) -> (res: u64)
    ensures
        res == le_value(len_bytes@),
{
    let s: &[u8] = len_bytes.as_slice();
    assert(s@.subrange(0, 8) =~= len_bytes@);
    le_u64_at(s, 0)
}

/// What a worker's announced batch length calls for.
pub enum BatchLength {
    /// Nothing follows.
    Empty,
    /// Not a whole number of 8-byte program counters: the batch is skipped.
    Invalid,
    /// This many bytes of program counters follow.
    Pcs(u64),
}

/// Decides what to do with a batch of `n` announced bytes: nothing for zero,
/// reject a length that is not a multiple of 8, else read the bytes.
pub fn check_batch_length(n: u64) -> (res: BatchLength)
    ensures
        n == 0 ==> res is Empty,
        n != 0 && n % 8 != 0 ==> res is Invalid,
        n != 0 && n % 8 == 0 ==> res == BatchLength::Pcs(n),
{
    if n == 0 {
        BatchLength::Empty
    } else if n % 8 != 0 {
        BatchLength::Invalid
    } else {
        BatchLength::Pcs(n)
    }
}

/// The program counters in `data`: each whole run of 8 bytes, least
/// significant byte first.
pub open spec fn pc_values(data: Seq<u8>) -> Seq<u64> {
    Seq::new(data.len() / 8, |i: int| le_value(data.subrange(8 * i, 8 * i + 8)) as u64)
}

/// One counter per whole run of 8 bytes, however long the data: the counters
/// of `a` followed by `b` are those of `a` and then those of `b` when `a` is
/// whole runs, and a run of 8 bytes on its own gives the number it encodes.
pub proof fn lemma_pc_values_concat(a: Seq<u8>, b: Seq<u8>)
    requires
        a.len() % 8 == 0,
    ensures
        pc_values(a + b) == pc_values(a) + pc_values(b),
        pc_values(a + b).len() == (a.len() + b.len()) / 8,
{
    let ab = a + b;
    let na = a.len() / 8;
    assert(ab.len() / 8 == na + b.len() / 8) by (nonlinear_arith)
        requires
            a.len() % 8 == 0,
            na == a.len() / 8,
            ab.len() == a.len() + b.len(),
    ;
    assert forall|i: int| 0 <= i < pc_values(ab).len() implies #[trigger] pc_values(ab)[i] == (pc_values(a) + pc_values(b))[i] by {
        if i < na {
            assert(8 * i + 8 <= a.len()) by (nonlinear_arith)
                requires i < na, na == a.len() / 8, a.len() % 8 == 0;
            assert(ab.subrange(8 * i, 8 * i + 8) =~= a.subrange(8 * i, 8 * i + 8));
        } else {
            let k = i - na;
            assert(8 * i == a.len() + 8 * k) by (nonlinear_arith)
                requires k == i - na, na == a.len() / 8, a.len() % 8 == 0;
            assert(ab.subrange(8 * i, 8 * i + 8) =~= b.subrange(8 * k, 8 * k + 8));
        }
    }
    assert(pc_values(ab) =~= pc_values(a) + pc_values(b));
}

/// Eight bytes give exactly one counter, the number they encode least
/// significant byte first.
pub proof fn lemma_pc_values_run(r: Seq<u8>)
    requires
        r.len() == 8,
    ensures
        pc_values(r) == seq![
            (r[0] + 256 * r[1] + 65536 * r[2] + 16777216 * r[3] + 4294967296 * r[4] + 1099511627776 * r[5]
                + 281474976710656 * r[6] + 72057594037927936 * r[7]) as u64,
        ],
{
    assert(r.subrange(0, 8) =~= r);
    reveal_with_fuel(le_value, 9);
    assert(r.drop_first().drop_first().drop_first().drop_first().drop_first().drop_first().drop_first().drop_first().len() == 0);
    assert(pc_values(r) =~= seq![le_value(r) as u64]);
}

/// Recording two batches one after the other reports the new counters of
/// the first, then those of the second that are new after the first.
pub proof fn lemma_fresh_pcs_concat(known: Set<u64>, v1: Seq<u64>, v2: Seq<u64>)
    ensures
        fresh_pcs(known, v1 + v2) == fresh_pcs(known, v1) + fresh_pcs(known + v1.to_set(), v2),
    decreases v2.len(),
{
    if v2.len() == 0 {
        assert(v1 + v2 =~= v1);
        assert(fresh_pcs(known, v1) + fresh_pcs(known + v1.to_set(), v2) =~= fresh_pcs(known, v1));
    } else {
        let w = v1 + v2;
        lemma_fresh_pcs_concat(known, v1, v2.drop_last());
        assert(w.drop_last() =~= v1 + v2.drop_last());
        assert(w.last() == v2.last());
        let v = v2.last();
        let k2 = known + v1.to_set();
        assert((known.contains(v) || w.drop_last().contains(v)) == (k2.contains(v) || v2.drop_last().contains(v))) by {
            if w.drop_last().contains(v) {
                let m = choose|m: int| 0 <= m < w.drop_last().len() && w.drop_last()[m] == v;
                if m < v1.len() {
                    assert(v1[m] == v);
                    assert(v1.to_set().contains(v));
                } else {
                    assert(v2.drop_last()[m - v1.len()] == v);
                }
            }
            if v2.drop_last().contains(v) {
                let m = choose|m: int| 0 <= m < v2.drop_last().len() && v2.drop_last()[m] == v;
                assert(w.drop_last()[v1.len() + m] == v);
            }
            if v1.to_set().contains(v) {
                let m = choose|m: int| 0 <= m < v1.len() && v1[m] == v;
                assert(w.drop_last()[m] == v);
            }
        }
        if !(k2.contains(v) || v2.drop_last().contains(v)) {
            assert(fresh_pcs(known, v1) + fresh_pcs(k2, v2.drop_last()).push(v) =~= (fresh_pcs(known, v1)
                + fresh_pcs(k2, v2.drop_last())).push(v));
        }
    }
}

/// The counters of `vals` that are new: not in `known` and not earlier in
/// `vals`, in the order they first come.
pub open spec fn fresh_pcs(known: Set<u64>, vals: Seq<u64>) -> Seq<u64>
    decreases vals.len(),
{
    if vals.len() == 0 {
        Seq::empty()
    } else {
        let before = vals.drop_last();
        let v = vals.last();
        if known.contains(v) || before.contains(v) {
            fresh_pcs(known, before)
        } else {
            fresh_pcs(known, before).push(v)
        }
    }
}

/// The new counters are exactly the counters of `vals` not in `known`, each
/// once: every one is in `vals` and not in `known`, none repeats, and every
/// counter of `vals` is in `known` or among them.
pub proof fn lemma_fresh_pcs(known: Set<u64>, vals: Seq<u64>)
    ensures
        forall|k: int| 0 <= k < fresh_pcs(known, vals).len() ==> {
            &&& vals.contains(#[trigger] fresh_pcs(known, vals)[k])
            &&& !known.contains(fresh_pcs(known, vals)[k])
        },
        fresh_pcs(known, vals).no_duplicates(),
        forall|v: u64| #[trigger] vals.contains(v) ==> known.contains(v) || fresh_pcs(known, vals).contains(v),
    decreases vals.len(),
{
    if vals.len() > 0 {
        let before = vals.drop_last();
        let v = vals.last();
        lemma_fresh_pcs(known, before);
        let f = fresh_pcs(known, before);
        assert forall|k: int| 0 <= k < f.len() implies vals.contains(#[trigger] f[k]) by {
            let m = choose|m: int| 0 <= m < before.len() && before[m] == f[k];
            assert(vals[m] == f[k]);
        }
        assert(vals[vals.len() - 1] == v);
        assert forall|w: u64| #[trigger] vals.contains(w) implies known.contains(w) || fresh_pcs(known, vals).contains(w) by {
            let m = choose|m: int| 0 <= m < vals.len() && vals[m] == w;
            if m < vals.len() - 1 {
                assert(before[m] == w);
                assert(before.contains(w));
                if !known.contains(w) {
                    let q = choose|q: int| 0 <= q < f.len() && f[q] == w;
                    if !(known.contains(v) || before.contains(v)) {
                        assert(f.push(v)[q] == w);
                    }
                }
            } else {
                if !(known.contains(v) || before.contains(v)) {
                    assert(f.push(v)[f.len() as int] == v);
                } else if before.contains(v) && !known.contains(v) {
                    let q = choose|q: int| 0 <= q < f.len() && f[q] == v;
                }
            }
        }
        if !(known.contains(v) || before.contains(v)) {
            let g = f.push(v);
            assert forall|k: int| 0 <= k < g.len() implies vals.contains(#[trigger] g[k]) && !known.contains(g[k]) by {
                if k < f.len() {
                    assert(g[k] == f[k]);
                }
            }
            assert forall|a: int, b: int| 0 <= a < b < g.len() implies g[a] != g[b] by {
                if b == f.len() {
                    assert(g[a] == f[a]);
                    let m = choose|m: int| 0 <= m < before.len() && before[m] == f[a];
                    assert(before.contains(v) == false);
                } else {
                    assert(g[a] == f[a] && g[b] == f[b]);
                }
            }
        }
    }
}

/// Recording a batch a second time reports no new counter.
pub proof fn lemma_fresh_pcs_again(known: Set<u64>, vals: Seq<u64>)
    ensures
        fresh_pcs(known + vals.to_set(), vals) == Seq::<u64>::empty(),
{
    lemma_fresh_pcs(known + vals.to_set(), vals);
    let f = fresh_pcs(known + vals.to_set(), vals);
    if f.len() > 0 {
        assert(vals.contains(f[0]));
        assert((known + vals.to_set()).contains(f[0]));
    }
    assert(f =~= Seq::<u64>::empty());
}

/// Adds every program counter in `data` (each whole run of 8 bytes; bytes
/// after the last whole run are not read) to `pcs`, and appends to `new_pcs`
/// each one that was not in `pcs` before, once, in order of first appearance.
pub fn record_pcs(pcs: &mut HashSet<u64>, data: &[u8], new_pcs: &mut Vec<u64>)
    ensures
        final(pcs)@ == old(pcs)@ + pc_values(data@).to_set(),
        final(new_pcs)@ == old(new_pcs)@ + fresh_pcs(old(pcs)@, pc_values(data@)),
{
    let ghost vals = pc_values(data@);
    let ghost known = pcs@;
    let ghost start = new_pcs@;
    let len = data.len();
    let count = len / 8;
    let mut i: usize = 0;
    while i < count
        invariant
            count == vals.len() == data@.len() / 8,
            len == data@.len(),
            vals == pc_values(data@),
            i <= count,
            pcs@ == known + vals.take(i as int).to_set(),
            new_pcs@ == start + fresh_pcs(known, vals.take(i as int)),
        decreases count - i,
    {
        assert(8 * i + 8 <= data@.len()) by (nonlinear_arith)
            requires
                i < count,
                count == data@.len() / 8,
        ;
        assert(8 * i + 8 <= len);
        let pc = le_u64_at(data, 8 * i);
        assert(pc == vals[i as int]);
        let ghost pre = vals.take(i as int);
        assert(vals.take(i + 1).drop_last() =~= pre);
        assert(vals.take(i + 1).last() == pc);
        assert(pcs@.contains(pc) == (known.contains(pc) || pre.contains(pc)));
        let added = pcs.insert(pc);
        if added {
            new_pcs.push(pc);
        }
        assert(vals.take(i + 1).to_set() =~= pre.to_set().insert(pc));
        assert(pcs@ =~= known + vals.take(i + 1).to_set());
        assert(new_pcs@ =~= start + fresh_pcs(known, vals.take(i + 1)));
        i = i + 1;
    }
    assert(vals.take(count as int) =~= vals);
}

} // verus!
