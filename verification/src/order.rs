//! Ordering names the way `str` orders them, and a stable sort of named items.

use vstd::prelude::*;

verus! {

/// Lexicographic order on character sequences, characters compared by code
/// point; for UTF-8 text this is the order of `str`'s comparison operators.
pub open spec fn lex_less(a: Seq<char>, b: Seq<char>) -> bool
    decreases a.len(),
{
    if b.len() == 0 {
        false
    } else if a.len() == 0 {
        true
    } else if a[0] != b[0] {
        (a[0] as u32) < (b[0] as u32)
    } else {
        lex_less(a.drop_first(), b.drop_first())
    }
}

/// Comparing after a common prefix is comparing the rests.
pub proof fn lemma_lex_less_skip(a: Seq<char>, b: Seq<char>, i: int)
    requires
        0 <= i <= a.len(),
        i <= b.len(),
        a.take(i) == b.take(i),
    ensures
        lex_less(a, b) == lex_less(a.skip(i), b.skip(i)),
    decreases i,
{
    if i > 0 {
        assert(a[0] == a.take(i)[0]);
        assert(b[0] == b.take(i)[0]);
        assert(a.drop_first().take(i - 1) =~= a.take(i).drop_first());
        assert(b.drop_first().take(i - 1) =~= b.take(i).drop_first());
        lemma_lex_less_skip(a.drop_first(), b.drop_first(), i - 1);
        assert(a.drop_first().skip(i - 1) =~= a.skip(i));
        assert(b.drop_first().skip(i - 1) =~= b.skip(i));
    } else {
        assert(a.skip(0) =~= a);
        assert(b.skip(0) =~= b);
    }
}

/// `lex_less` is a strict total order: nothing comes before itself, it is
/// transitive, and of two different sequences one comes before the other.
pub proof fn lemma_lex_less_order(a: Seq<char>, b: Seq<char>, c: Seq<char>)
    ensures
        !lex_less(a, a),
        lex_less(a, b) && lex_less(b, c) ==> lex_less(a, c),
        a != b ==> lex_less(a, b) || lex_less(b, a),
        lex_less(a, b) ==> !lex_less(b, a),
    decreases a.len(),
{
    if a.len() > 0 {
        lemma_lex_less_order(a.drop_first(), a.drop_first(), a.drop_first());
        if b.len() > 0 {
            if c.len() > 0 {
                lemma_lex_less_order(a.drop_first(), b.drop_first(), c.drop_first());
            } else {
                lemma_lex_less_order(a.drop_first(), b.drop_first(), b.drop_first());
            }
            if a[0] != b[0] {
                let x: char = a[0];
                let y: char = b[0];
                vstd::utf8::char_u32_cast(x, x as u32);
                vstd::utf8::char_u32_cast(y, y as u32);
                assert((x as u32) != (y as u32));
            }
            if a != b && a[0] == b[0] {
                assert(a.drop_first() != b.drop_first()) by {
                    if a.drop_first() == b.drop_first() {
                        assert(a =~= seq![a[0]] + a.drop_first());
                        assert(b =~= seq![b[0]] + b.drop_first());
                    }
                }
            }
        }
    } else {
        if b.len() == 0 && a != b {
            assert(a =~= b);
        }
    }
}

/// A sequence of items in order of their names.
pub open spec fn sorted_by_name(s: Seq<Item>) -> bool {
    forall|k: int, l: int| 0 <= k < l < s.len() ==> !lex_less(s[l].0, s[k].0)
}

/// Inserting into an ordered sequence keeps it ordered.
pub proof fn lemma_insert_item_sorted(s: Seq<Item>, x: Item)
    requires
        sorted_by_name(s),
    ensures
        sorted_by_name(insert_item(s, x)),
    decreases s.len(),
{
    let r = insert_item(s, x);
    if s.len() == 0 {
        assert(r =~= seq![x]);
    } else if lex_less(x.0, s[0].0) {
        assert(r =~= seq![x] + s);
        assert forall|k: int, l: int| 0 <= k < l < r.len() implies !lex_less(r[l].0, r[k].0) by {
            if k == 0 {
                assert(r[l] == s[l - 1]);
                lemma_lex_less_order(s[l - 1].0, x.0, s[0].0);
                if l - 1 > 0 {
                    assert(!lex_less(s[l - 1].0, s[0].0));
                }
            } else {
                assert(r[l] == s[l - 1] && r[k] == s[k - 1]);
            }
        }
    } else {
        let t = s.drop_first();
        assert(sorted_by_name(t)) by {
            assert forall|k: int, l: int| 0 <= k < l < t.len() implies !lex_less(t[l].0, t[k].0) by {
                assert(t[l] == s[l + 1] && t[k] == s[k + 1]);
            }
        }
        lemma_insert_item_sorted(t, x);
        lemma_insert_item_from(t, x);
        let ti = insert_item(t, x);
        assert(r =~= seq![s[0]] + ti);
        assert forall|k: int, l: int| 0 <= k < l < r.len() implies !lex_less(r[l].0, r[k].0) by {
            if k == 0 {
                assert(r[l] == ti[l - 1]);
                if ti[l - 1] != x {
                    let m = choose|m: int| 0 <= m < t.len() && t[m] == ti[l - 1];
                    assert(t[m] == s[m + 1]);
                }
            } else {
                assert(r[l] == ti[l - 1] && r[k] == ti[k - 1]);
            }
        }
    }
}

/// Inserting adds exactly the new item to the items.
pub proof fn lemma_insert_item_multiset(s: Seq<Item>, x: Item)
    ensures
        insert_item(s, x).to_multiset() == s.to_multiset().insert(x),
    decreases s.len(),
{
    broadcast use vstd::seq_lib::group_to_multiset_ensures;
    broadcast use vstd::multiset::group_multiset_axioms;

    if s.len() == 0 {
        assert(seq![x] =~= Seq::<Item>::empty().push(x));
        assert(insert_item(s, x) =~= seq![x]);
        assert(s =~= Seq::<Item>::empty());
        assert(insert_item(s, x).to_multiset() =~= s.to_multiset().insert(x));
    } else if lex_less(x.0, s[0].0) {
        vstd::seq_lib::lemma_multiset_commutative(seq![x], s);
        assert(seq![x] =~= Seq::<Item>::empty().push(x));
        assert(insert_item(s, x).to_multiset() =~= s.to_multiset().insert(x));
    } else {
        let t = s.drop_first();
        lemma_insert_item_multiset(t, x);
        vstd::seq_lib::lemma_multiset_commutative(seq![s[0]], insert_item(t, x));
        vstd::seq_lib::lemma_multiset_commutative(seq![s[0]], t);
        assert(seq![s[0]] + t =~= s);
        assert(seq![s[0]] =~= Seq::<Item>::empty().push(s[0]));
        assert(insert_item(s, x).to_multiset() =~= s.to_multiset().insert(x));
    }
}

/// Sorting puts the items in order of their names and keeps exactly the
/// same items, each as often as before.
pub proof fn lemma_sort_items_sorted(s: Seq<Item>)
    ensures
        sorted_by_name(sort_items(s)),
        sort_items(s).to_multiset() == s.to_multiset(),
    decreases s.len(),
{
    broadcast use vstd::seq_lib::group_to_multiset_ensures;

    if s.len() > 0 {
        lemma_sort_items_sorted(s.drop_last());
        lemma_insert_item_sorted(sort_items(s.drop_last()), s.last());
        lemma_insert_item_multiset(sort_items(s.drop_last()), s.last());
        assert(s.drop_last().push(s.last()) =~= s);
    }
}

/// Whether `a` comes before `b` in the order of `lex_less`.
pub fn chars_less(a: &Vec<char>, b: &Vec<char>) -> (res: bool)
    ensures
        res == lex_less(a@, b@),
{
    let mut i: usize = 0;
    while i < a.len() && i < b.len()
        invariant
            i <= a@.len(),
            i <= b@.len(),
            a@.take(i as int) == b@.take(i as int),
        decreases a@.len() - i,
    {
        if a[i] != b[i] {
            proof {
                lemma_lex_less_skip(a@, b@, i as int);
                assert(a@.skip(i as int)[0] == a@[i as int]);
                assert(b@.skip(i as int)[0] == b@[i as int]);
            }
            return (a[i] as u32) < (b[i] as u32);
        }
        assert(a@.take(i + 1) =~= a@.take(i as int).push(a@[i as int]));
        assert(b@.take(i + 1) =~= b@.take(i as int).push(b@[i as int]));
        i = i + 1;
    }
    proof {
        lemma_lex_less_skip(a@, b@, i as int);
    }
    i < b.len()
}

/// A named item: the name it is ordered by, and the position it stands for.
pub type Item = (Seq<char>, int);

/// `s` with `x` placed after every item whose name does not come after `x`'s.
pub open spec fn insert_item(s: Seq<Item>, x: Item) -> Seq<Item>
    decreases s.len(),
{
    if s.len() == 0 {
        seq![x]
    } else if lex_less(x.0, s[0].0) {
        seq![x] + s
    } else {
        seq![s[0]] + insert_item(s.drop_first(), x)
    }
}

/// `s` sorted by name; items with equal names keep their order.
pub open spec fn sort_items(s: Seq<Item>) -> Seq<Item>
    decreases s.len(),
{
    if s.len() == 0 {
        s
    } else {
        insert_item(sort_items(s.drop_last()), s.last())
    }
}

/// Inserting places the item before the first item whose name comes after it.
pub proof fn lemma_insert_at(s: Seq<Item>, x: Item, j: int)
    requires
        0 <= j <= s.len(),
        forall|k: int| 0 <= k < j ==> !lex_less(x.0, #[trigger] s[k].0),
        j < s.len() ==> lex_less(x.0, s[j].0),
    ensures
        insert_item(s, x) == s.take(j) + seq![x] + s.skip(j),
    decreases j,
{
    if j == 0 {
        assert(s.take(0) + seq![x] + s.skip(0) =~= seq![x] + s);
        if s.len() == 0 {
            assert(seq![x] + s =~= seq![x]);
        }
    } else {
        let t = s.drop_first();
        assert forall|k: int| 0 <= k < j - 1 implies !lex_less(x.0, #[trigger] t[k].0) by {
            assert(t[k] == s[k + 1]);
        }
        if j - 1 < t.len() {
            assert(t[j - 1] == s[j]);
        }
        lemma_insert_at(t, x, j - 1);
        assert(!lex_less(x.0, s[0].0));
        assert(seq![s[0]] + (t.take(j - 1) + seq![x] + t.skip(j - 1)) =~= s.take(j) + seq![x] + s.skip(j));
    }
}

/// Sorting keeps the number of items, and every sorted item comes from the input.
pub proof fn lemma_sort_items_from(s: Seq<Item>)
    ensures
        sort_items(s).len() == s.len(),
        forall|k: int| 0 <= k < s.len() ==> s.contains(#[trigger] sort_items(s)[k]),
    decreases s.len(),
{
    if s.len() > 0 {
        let p = s.drop_last();
        lemma_sort_items_from(p);
        lemma_insert_item_from(sort_items(p), s.last());
        let r = sort_items(s);
        assert forall|k: int| 0 <= k < s.len() implies s.contains(#[trigger] r[k]) by {
            let y = r[k];
            if y == s.last() {
                assert(s[s.len() - 1] == y);
            } else {
                let m = choose|m: int| 0 <= m < sort_items(p).len() && sort_items(p)[m] == y;
                assert(p.contains(sort_items(p)[m]));
                let q = choose|q: int| 0 <= q < p.len() && p[q] == y;
                assert(s[q] == y);
            }
        }
    }
}

/// Inserting adds one item, and every item of the result is the new one or an old one.
pub proof fn lemma_insert_item_from(s: Seq<Item>, x: Item)
    ensures
        insert_item(s, x).len() == s.len() + 1,
        forall|k: int|
            0 <= k < s.len() + 1 ==> (#[trigger] insert_item(s, x)[k] == x || s.contains(
                insert_item(s, x)[k],
            )),
    decreases s.len(),
{
    let r = insert_item(s, x);
    if s.len() == 0 {
        assert(r =~= seq![x]);
    } else if lex_less(x.0, s[0].0) {
        assert(r =~= seq![x] + s);
        assert forall|k: int| 0 <= k < s.len() + 1 implies (#[trigger] r[k] == x || s.contains(r[k])) by {
            if k > 0 {
                assert(r[k] == s[k - 1]);
            }
        }
    } else {
        let t = s.drop_first();
        lemma_insert_item_from(t, x);
        let ti = insert_item(t, x);
        assert(r =~= seq![s[0]] + ti);
        assert forall|k: int| 0 <= k < s.len() + 1 implies (#[trigger] r[k] == x || s.contains(r[k])) by {
            if k == 0 {
                assert(r[0] == s[0]);
            } else {
                assert(r[k] == ti[k - 1]);
                if ti[k - 1] != x {
                    assert(t.contains(ti[k - 1]));
                    let m = choose|m: int| 0 <= m < t.len() && t[m] == ti[k - 1];
                    assert(s[m + 1] == t[m]);
                }
            }
        }
    }
}

/// The items of a vector of named positions.
pub open spec fn items_view(v: Seq<(Vec<char>, usize)>) -> Seq<Item> {
    v.map_values(|p: (Vec<char>, usize)| (p.0@, p.1 as int))
}

/// Sorts `items` by name, keeping the order of items with equal names.
pub fn sort_by_name(items: Vec<(Vec<char>, usize)>) -> (res: Vec<(Vec<char>, usize)>)
    ensures
        items_view(res@) == sort_items(items_view(items@)),
{
    let mut res: Vec<(Vec<char>, usize)> = Vec::new();
    let mut rest = items;
    let ghost all = items_view(rest@);
    let n = rest.len();
    let mut i: usize = 0;
    while i < n
        invariant
            i <= n,
            n == all.len(),
            items_view(rest@) == all.skip(i as int),
            items_view(res@) == sort_items(all.take(i as int)),
        decreases n - i,
    {
        let ghost before = rest@;
        assert(items_view(before).len() == n - i);
        let x = rest.remove(0);
        assert(items_view(before)[0] == all[i as int]);
        assert(items_view(rest@) =~= items_view(before).drop_first());
        assert(items_view(rest@) =~= all.skip(i + 1));
        assert((x.0@, x.1 as int) == all[i as int]);
        let mut j: usize = 0;
        while j < res.len() && !chars_less(&x.0, &res[j].0)
            invariant
                j <= res@.len(),
                forall|k: int| 0 <= k < j ==> !lex_less(x.0@, #[trigger] items_view(res@)[k].0),
            decreases res@.len() - j,
        {
            j = j + 1;
        }
        proof {
            if j < res@.len() {
                assert(items_view(res@)[j as int].0 == res@[j as int].0@);
            }
            lemma_insert_at(items_view(res@), (x.0@, x.1 as int), j as int);
            assert(all.take(i + 1).drop_last() =~= all.take(i as int));
            assert(all.take(i + 1).last() == all[i as int]);
        }
        let ghost old_res = items_view(res@);
        res.insert(j, x);
        assert(items_view(res@) =~= old_res.take(j as int) + seq![all[i as int]] + old_res.skip(j as int));
        i = i + 1;
    }
    assert(all.take(n as int) =~= all);
    res
}

} // verus!
