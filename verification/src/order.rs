//! Ordering of names: the lexicographic order of their characters, which is
//! the order of `String` (UTF-8 keeps the order of code points), and a
//! stable sort of entries by name.

use vstd::prelude::*;

verus! {

/// `a` comes strictly before `b` in lexicographic character order.
pub open spec fn name_lt(a: Seq<char>, b: Seq<char>) -> bool
    decreases a.len(),
{
    if b.len() == 0 {
        false
    } else if a.len() == 0 {
        true
    } else if a[0] != b[0] {
        a[0] < b[0]
    } else {
        name_lt(a.drop_first(), b.drop_first())
    }
}

/// Inserts index `i` into `order` after the last position whose name does
/// not come after `keys[i]` (so equal names keep their order).
pub open spec fn insert_by_name(keys: Seq<Seq<char>>, order: Seq<int>, i: int) -> Seq<int>
    decreases order.len(),
{
    if order.len() == 0 {
        seq![i]
    } else if name_lt(keys[i], keys[order.last()]) {
        insert_by_name(keys, order.drop_last(), i).push(order.last())
    } else {
        order.push(i)
    }
}

/// The indices `0..n` of `keys` in stable name order.
pub open spec fn name_order(keys: Seq<Seq<char>>, n: nat) -> Seq<int>
    decreases n,
{
    if n == 0 {
        seq![]
    } else {
        insert_by_name(keys, name_order(keys, (n - 1) as nat), n - 1)
    }
}

/// The entries of `s`, stably sorted by the characters of their names.
pub open spec fn sorted_by_name<T>(s: Seq<(String, T)>) -> Seq<(String, T)> {
    let keys = s.map_values(|e: (String, T)| e.0@);
    let order = name_order(keys, s.len());
    Seq::new(s.len(), |j: int| s[order[j]])
}

/// Whether `a` comes strictly before `b` in lexicographic character order.
pub fn name_less(a: &Vec<char>, b: &Vec<char>) -> (r: bool)
    ensures
        r == name_lt(a@, b@),
{
    let mut i: usize = 0;
    assert(a@.skip(0) =~= a@);
    assert(b@.skip(0) =~= b@);
    while i < a.len() && i < b.len()
        invariant
            i <= a@.len(),
            i <= b@.len(),
            name_lt(a@, b@) == name_lt(a@.skip(i as int), b@.skip(i as int)),
        decreases a@.len() - i,
    {
        if a[i] != b[i] {
            return a[i] < b[i];
        }
        assert(a@.skip(i as int).drop_first() =~= a@.skip(i + 1));
        assert(b@.skip(i as int).drop_first() =~= b@.skip(i + 1));
        i = i + 1;
    }
    i < b.len()
}

/// Where [`insert_by_name`] puts index `i`: every entry from `j` on comes
/// after `keys[i]` and the one before `j` does not.
proof fn lemma_insert_at(keys: Seq<Seq<char>>, order: Seq<int>, i: int, j: int)
    requires
        0 <= j <= order.len(),
        forall|k: int| j <= k < order.len() ==> name_lt(keys[i], keys[#[trigger] order[k]]),
        j == 0 || !name_lt(keys[i], keys[order[j - 1]]),
    ensures
        insert_by_name(keys, order, i) == order.take(j).push(i) + order.skip(j),
    decreases order.len(),
{
    if order.len() == 0 {
        assert(order.take(j).push(i) + order.skip(j) =~= seq![i]);
    } else if name_lt(keys[i], keys[order.last()]) {
        let rest = order.drop_last();
        assert(j < order.len());
        assert forall|k: int| j <= k < rest.len() implies name_lt(keys[i], keys[#[trigger] rest[k]]) by {
            assert(rest[k] == order[k]);
        }
        lemma_insert_at(keys, rest, i, j);
        assert(rest.take(j).push(i) + rest.skip(j) + seq![order.last()] =~= order.take(j).push(i)
            + order.skip(j));
    } else {
        assert(j == order.len());
        assert(order.take(j).push(i) + order.skip(j) =~= order.push(i));
    }
}

/// The indices of `keys` in stable name order: `order[j]` is the index of
/// the `j`-th name when the names are sorted, equal names keeping their
/// order.
pub fn sorted_order(keys: &Vec<Vec<char>>) -> (order: Vec<usize>)
    ensures
        order@.len() == keys@.len(),
        forall|j: int|
            0 <= j < order@.len() ==> #[trigger] order@[j] as int == name_order(
                keys@.map_values(|k: Vec<char>| k@),
                keys@.len(),
            )[j],
        forall|j: int| 0 <= j < order@.len() ==> #[trigger] order@[j] < keys@.len(),
{
    let ghost ks = keys@.map_values(|k: Vec<char>| k@);
    let mut order: Vec<usize> = Vec::new();
    let mut i: usize = 0;
    while i < keys.len()
        invariant
            i <= keys@.len(),
            ks == keys@.map_values(|k: Vec<char>| k@),
            order@.len() == i,
            order@.len() == name_order(ks, i as nat).len(),
            forall|j: int|
                0 <= j < order@.len() ==> #[trigger] order@[j] as int == name_order(ks, i as nat)[j],
            forall|j: int| 0 <= j < order@.len() ==> #[trigger] order@[j] < i,
        decreases keys@.len() - i,
    {
        let ghost before = order@.map_values(|k: usize| k as int);
        assert(before =~= name_order(ks, i as nat));
        let mut j: usize = order.len();
        while j > 0 && name_less(&keys[i], &keys[order[j - 1]])
            invariant
                j <= order@.len(),
                i < keys@.len(),
                ks == keys@.map_values(|k: Vec<char>| k@),
                before == order@.map_values(|k: usize| k as int),
                forall|j: int| 0 <= j < order@.len() ==> #[trigger] order@[j] < i,
                forall|k: int| j <= k < before.len() ==> name_lt(ks[i as int], ks[#[trigger] before[k]]),
            decreases j,
        {
            j = j - 1;
        }
        proof {
            lemma_insert_at(ks, before, i as int, j as int);
        }
        order.insert(j, i);
        proof {
            let after = order@.map_values(|k: usize| k as int);
            assert(after =~= before.take(j as int).push(i as int) + before.skip(j as int));
            assert(name_order(ks, (i + 1) as nat) == insert_by_name(ks, name_order(ks, i as nat), i as int));
        }
        i = i + 1;
    }
    order
}

/// No name comes strictly before itself.
pub proof fn lemma_name_lt_irreflexive(a: Seq<char>)
    ensures
        !name_lt(a, a),
    decreases a.len(),
{
    if a.len() > 0 {
        lemma_name_lt_irreflexive(a.drop_first());
    }
}

/// The name order is transitive.
pub proof fn lemma_name_lt_transitive(a: Seq<char>, b: Seq<char>, c: Seq<char>)
    requires
        name_lt(a, b),
        name_lt(b, c),
    ensures
        name_lt(a, c),
    decreases a.len(),
{
    if a.len() > 0 && b.len() > 0 && c.len() > 0 && a[0] == b[0] && b[0] == c[0] {
        lemma_name_lt_transitive(a.drop_first(), b.drop_first(), c.drop_first());
    }
}

/// Of two different names, one comes strictly before the other.
pub proof fn lemma_name_lt_total(a: Seq<char>, b: Seq<char>)
    requires
        a != b,
    ensures
        name_lt(a, b) || name_lt(b, a),
    decreases a.len(),
{
    if a.len() == 0 {
        if b.len() == 0 {
            assert(a =~= b);
        }
    } else if b.len() == 0 {
    } else if a[0] == b[0] {
        if a.drop_first() == b.drop_first() {
            assert(a =~= seq![a[0]] + a.drop_first());
            assert(b =~= seq![b[0]] + b.drop_first());
        }
        lemma_name_lt_total(a.drop_first(), b.drop_first());
    }
}

/// "Does not come after" is transitive.
pub proof fn lemma_name_le_transitive(a: Seq<char>, b: Seq<char>, c: Seq<char>)
    requires
        !name_lt(b, a),
        !name_lt(c, b),
    ensures
        !name_lt(c, a),
{
    if name_lt(c, a) {
        if a == b {
        } else {
            lemma_name_lt_total(a, b);
            lemma_name_lt_transitive(c, a, b);
        }
    }
}

/// `order` lists distinct indices below `bound`, in stable name order.
pub open spec fn is_stable_name_order(keys: Seq<Seq<char>>, order: Seq<int>, bound: int) -> bool {
    &&& forall|p: int| 0 <= p < order.len() ==> 0 <= #[trigger] order[p] < bound
    &&& forall|p: int, q: int| 0 <= p < q < order.len() ==> #[trigger] order[p] != #[trigger] order[q]
    &&& forall|p: int, q: int|
        0 <= p < q < order.len() ==> !name_lt(keys[#[trigger] order[q]], keys[#[trigger] order[p]])
    &&& forall|p: int, q: int|
        0 <= p < q < order.len() && keys[#[trigger] order[p]] == keys[#[trigger] order[q]] ==> order[p]
            < order[q]
}

proof fn lemma_insert_keeps_order(keys: Seq<Seq<char>>, order: Seq<int>, i: int)
    requires
        0 <= i < keys.len(),
        is_stable_name_order(keys, order, i),
    ensures
        is_stable_name_order(keys, insert_by_name(keys, order, i), i + 1),
        insert_by_name(keys, order, i).len() == order.len() + 1,
        forall|p: int|
            0 <= p < insert_by_name(keys, order, i).len() ==> (#[trigger] insert_by_name(keys, order, i)[p]
                == i || order.contains(insert_by_name(keys, order, i)[p])),
    decreases order.len(),
{
    let r = insert_by_name(keys, order, i);
    if order.len() == 0 {
    } else if name_lt(keys[i], keys[order.last()]) {
        let rest = order.drop_last();
        let last = order.last();
        assert(is_stable_name_order(keys, rest, i)) by {
            assert forall|p: int, q: int| 0 <= p < q < rest.len() implies !name_lt(
                keys[#[trigger] rest[q]],
                keys[#[trigger] rest[p]],
            ) by {
                assert(rest[p] == order[p] && rest[q] == order[q]);
            }
            assert forall|p: int, q: int| 0 <= p < q < rest.len() && keys[#[trigger] rest[p]]
                == keys[#[trigger] rest[q]] implies rest[p] < rest[q] by {
                assert(rest[p] == order[p] && rest[q] == order[q]);
            }
            assert forall|p: int, q: int| 0 <= p < q < rest.len() implies #[trigger] rest[p]
                != #[trigger] rest[q] by {
                assert(rest[p] == order[p] && rest[q] == order[q]);
            }
        }
        lemma_insert_keeps_order(keys, rest, i);
        let r1 = insert_by_name(keys, rest, i);
        assert(r == r1.push(last));
        assert forall|p: int| 0 <= p < r1.len() implies !name_lt(keys[last], keys[#[trigger] r1[p]])
            && r1[p] != last && (keys[r1[p]] == keys[last] ==> r1[p] < last) by {
            if r1[p] == i {
                if name_lt(keys[last], keys[i]) {
                    lemma_name_lt_transitive(keys[i], keys[last], keys[i]);
                    lemma_name_lt_irreflexive(keys[i]);
                }
                lemma_name_lt_irreflexive(keys[i]);
            } else {
                let k = choose|k: int| 0 <= k < rest.len() && rest[k] == r1[p];
                assert(order[k] == rest[k]);
                assert(order[order.len() - 1] == last);
            }
        }
        assert forall|p: int| 0 <= p < r.len() implies (#[trigger] r[p] == i || order.contains(r[p])) by {
            if p < r1.len() {
                assert(r[p] == r1[p]);
                if r1[p] != i {
                    let k = choose|k: int| 0 <= k < rest.len() && rest[k] == r1[p];
                    assert(order[k] == rest[k]);
                }
            } else {
                assert(order[order.len() - 1] == last);
            }
        }
        assert forall|p: int, q: int| 0 <= p < q < r.len() implies #[trigger] r[p] != #[trigger] r[q]
            && !name_lt(keys[r[q]], keys[r[p]]) && (keys[r[p]] == keys[r[q]] ==> r[p] < r[q]) by {
            assert(r[p] == r1[p]);
            if q < r1.len() {
                assert(r[q] == r1[q]);
            }
        }
    } else {
        let last = order.last();
        assert(r == order.push(i));
        assert forall|p: int| 0 <= p < order.len() implies !name_lt(keys[i], keys[#[trigger] order[p]]) by {
            if p < order.len() - 1 {
                lemma_name_le_transitive(keys[order[p]], keys[last], keys[i]);
            }
        }
        assert forall|p: int, q: int| 0 <= p < q < r.len() implies #[trigger] r[p] != #[trigger] r[q]
            && !name_lt(keys[r[q]], keys[r[p]]) && (keys[r[p]] == keys[r[q]] ==> r[p] < r[q]) by {
            assert(r[p] == order[p]);
            if q < order.len() {
                assert(r[q] == order[q]);
            }
        }
        assert forall|p: int| 0 <= p < r.len() implies (#[trigger] r[p] == i || order.contains(r[p])) by {
            if p < order.len() {
                assert(r[p] == order[p]);
            }
        }
    }
}

/// The stable sort by name: `name_order(keys, n)` lists each of `0..n`
/// exactly once, the names along it never go down, and equal names keep
/// their order.
pub proof fn lemma_name_order_sorts(keys: Seq<Seq<char>>, n: nat)
    requires
        n <= keys.len(),
    ensures
        name_order(keys, n).len() == n,
        is_stable_name_order(keys, name_order(keys, n), n as int),
    decreases n,
{
    if n > 0 {
        lemma_name_order_sorts(keys, (n - 1) as nat);
        lemma_insert_keeps_order(keys, name_order(keys, (n - 1) as nat), n - 1);
    }
}

/// [`sorted_by_name`] rearranges the entries: it takes each position of `s`
/// exactly once, and the names along the result never go down.
pub proof fn lemma_sorted_by_name<T>(s: Seq<(String, T)>)
    ensures
        sorted_by_name(s).len() == s.len(),
        name_order(s.map_values(|e: (String, T)| e.0@), s.len()).len() == s.len(),
        forall|p: int, q: int|
            0 <= p < q < s.len() ==> !name_lt(
                (#[trigger] sorted_by_name(s)[q]).0@,
                (#[trigger] sorted_by_name(s)[p]).0@,
            ),
        is_stable_name_order(
            s.map_values(|e: (String, T)| e.0@),
            name_order(s.map_values(|e: (String, T)| e.0@), s.len()),
            s.len() as int,
        ),
        forall|j: int|
            0 <= j < s.len() ==> #[trigger] sorted_by_name(s)[j] == s[name_order(
                s.map_values(|e: (String, T)| e.0@),
                s.len(),
            )[j]],
{
    let keys = s.map_values(|e: (String, T)| e.0@);
    let order = name_order(keys, s.len());
    lemma_name_order_sorts(keys, s.len());
    let r = sorted_by_name(s);
    assert forall|p: int, q: int| 0 <= p < q < s.len() implies !name_lt(
        (#[trigger] r[q]).0@,
        (#[trigger] r[p]).0@,
    ) by {
        assert(r[q] == s[order[q]]);
        assert(r[p] == s[order[p]]);
        assert(keys[order[q]] == s[order[q]].0@);
        assert(keys[order[p]] == s[order[p]].0@);
    }
}

/// Picking the entries of `s` along `order` and inserting index `i` by name
/// adds `s[i]` to what is picked.
proof fn lemma_insert_multiset<A>(s: Seq<A>, keys: Seq<Seq<char>>, order: Seq<int>, i: int)
    requires
        0 <= i < s.len(),
        i < keys.len(),
        forall|p: int| 0 <= p < order.len() ==> 0 <= #[trigger] order[p] < s.len() && order[p] < keys.len(),
    ensures
        insert_by_name(keys, order, i).map_values(|k: int| s[k]).to_multiset() == order.map_values(
            |k: int| s[k],
        ).to_multiset().insert(s[i]),
    decreases order.len(),
{
    broadcast use vstd::seq_lib::group_to_multiset_ensures;

    if order.len() == 0 {
        assert(insert_by_name(keys, order, i).map_values(|k: int| s[k]) =~= Seq::<A>::empty().push(
            s[i],
        ));
        assert(order.map_values(|k: int| s[k]) =~= Seq::<A>::empty());
    } else if name_lt(keys[i], keys[order.last()]) {
        let rest = order.drop_last();
        lemma_insert_multiset(s, keys, rest, i);
        let r1 = insert_by_name(keys, rest, i);
        assert(r1.push(order.last()).map_values(|k: int| s[k]) =~= r1.map_values(|k: int| s[k]).push(
            s[order.last()],
        ));
        assert(order.map_values(|k: int| s[k]) =~= rest.map_values(|k: int| s[k]).push(
            s[order.last()],
        ));
        assert(insert_by_name(keys, order, i).map_values(|k: int| s[k]).to_multiset() =~= order.map_values(
            |k: int| s[k],
        ).to_multiset().insert(s[i]));
    } else {
        assert(order.push(i).map_values(|k: int| s[k]) =~= order.map_values(|k: int| s[k]).push(s[i]));
    }
}

/// The entries of `s` picked along [`name_order`] are those of `s`, as a
/// multiset.
pub proof fn lemma_name_order_multiset<A>(s: Seq<A>, keys: Seq<Seq<char>>, n: nat)
    requires
        n <= s.len(),
        n <= keys.len(),
    ensures
        Seq::new(n, |j: int| s[name_order(keys, n)[j]]).to_multiset() == s.take(n as int).to_multiset(),
    decreases n,
{
    broadcast use vstd::seq_lib::group_to_multiset_ensures;

    lemma_name_order_sorts(keys, n);
    let o = name_order(keys, n);
    assert(Seq::new(n, |j: int| s[name_order(keys, n)[j]]) =~= o.map_values(|k: int| s[k]));
    if n == 0 {
        assert(s.take(0) =~= Seq::<A>::empty());
        assert(o.map_values(|k: int| s[k]) =~= Seq::<A>::empty());
    } else {
        let m = (n - 1) as nat;
        lemma_name_order_multiset(s, keys, m);
        lemma_name_order_sorts(keys, m);
        let o1 = name_order(keys, m);
        assert(Seq::new(m, |j: int| s[name_order(keys, m)[j]]) =~= o1.map_values(|k: int| s[k]));
        lemma_insert_multiset(s, keys, o1, m as int);
        assert(s.take(n as int) =~= s.take(m as int).push(s[m as int]));
    }
}

/// Equal multisets give equal multisets after mapping.
pub proof fn lemma_map_multiset<A, B>(s1: Seq<A>, s2: Seq<A>, f: spec_fn(A) -> B)
    requires
        s1.to_multiset() == s2.to_multiset(),
    ensures
        s1.map_values(f).to_multiset() == s2.map_values(f).to_multiset(),
    decreases s1.len(),
{
    broadcast use vstd::seq_lib::group_to_multiset_ensures;
    broadcast use vstd::multiset::group_multiset_axioms;

    if s1.len() == 0 {
        assert(s2.to_multiset().len() == 0);
        assert(s2.len() == 0);
        assert(s1.map_values(f) =~= Seq::<B>::empty());
        assert(s2.map_values(f) =~= Seq::<B>::empty());
    } else {
        let a = s1[0];
        assert(s1.to_multiset().count(a) > 0);
        assert(s2.contains(a));
        let k = choose|k: int| 0 <= k < s2.len() && s2[k] == a;
        let rest1 = s1.remove(0);
        let rest2 = s2.remove(k);
        assert(rest1.to_multiset() == rest2.to_multiset());
        lemma_map_multiset(rest1, rest2, f);
        assert(s1.map_values(f) =~= rest1.map_values(f).insert(0, f(a)));
        assert(s2.map_values(f) =~= rest2.map_values(f).insert(k, f(a)));
    }
}

/// Two sequences sorted by `key`, with the same entries as a multiset,
/// are equal when equal keys in the first mean equal entries.
pub proof fn lemma_sorted_unique<A>(r1: Seq<A>, r2: Seq<A>, key: spec_fn(A) -> Seq<char>)
    requires
        r1.to_multiset() == r2.to_multiset(),
        forall|p: int, q: int|
            0 <= p < q < r1.len() ==> !name_lt(key(#[trigger] r1[q]), key(#[trigger] r1[p])),
        forall|p: int, q: int|
            0 <= p < q < r2.len() ==> !name_lt(key(#[trigger] r2[q]), key(#[trigger] r2[p])),
        forall|p: int, q: int|
            0 <= p < r1.len() && 0 <= q < r1.len() && key(#[trigger] r1[p]) == key(#[trigger] r1[q])
                ==> r1[p] == r1[q],
    ensures
        r1 == r2,
    decreases r1.len(),
{
    broadcast use vstd::seq_lib::group_to_multiset_ensures;
    broadcast use vstd::multiset::group_multiset_axioms;

    assert(r1.len() == r1.to_multiset().len());
    assert(r2.len() == r2.to_multiset().len());
    if r1.len() == 0 {
        assert(r1 =~= r2);
    } else {
        let a = r1[0];
        let b = r2[0];
        assert(r2.to_multiset().count(b) > 0);
        assert(r1.contains(b));
        let m = choose|m: int| 0 <= m < r1.len() && r1[m] == b;
        assert(r1.to_multiset().count(a) > 0);
        assert(r2.contains(a));
        let k = choose|k: int| 0 <= k < r2.len() && r2[k] == a;
        lemma_name_lt_irreflexive(key(a));
        lemma_name_lt_irreflexive(key(b));
        assert(!name_lt(key(b), key(a)));
        assert(!name_lt(key(a), key(b)));
        if key(a) != key(b) {
            lemma_name_lt_total(key(a), key(b));
        }
        assert(r1[m] == r1[0]);
        assert(a == b);
        let t1 = r1.remove(0);
        let t2 = r2.remove(0);
        assert(t1.to_multiset() == t2.to_multiset());
        assert forall|p: int, q: int| 0 <= p < q < t1.len() implies !name_lt(
            key(#[trigger] t1[q]),
            key(#[trigger] t1[p]),
        ) by {
            assert(t1[q] == r1[q + 1] && t1[p] == r1[p + 1]);
        }
        assert forall|p: int, q: int| 0 <= p < q < t2.len() implies !name_lt(
            key(#[trigger] t2[q]),
            key(#[trigger] t2[p]),
        ) by {
            assert(t2[q] == r2[q + 1] && t2[p] == r2[p + 1]);
        }
        assert forall|p: int, q: int|
            0 <= p < t1.len() && 0 <= q < t1.len() && key(#[trigger] t1[p]) == key(
                #[trigger] t1[q],
            ) implies t1[p] == t1[q] by {
            assert(t1[q] == r1[q + 1] && t1[p] == r1[p + 1]);
        }
        lemma_sorted_unique(t1, t2, key);
        assert(r1 =~= r2) by {
            assert forall|i: int| 0 <= i < r1.len() implies r1[i] == r2[i] by {
                if i > 0 {
                    assert(r1[i] == t1[i - 1] && r2[i] == t2[i - 1]);
                }
            }
        }
    }
}

} // verus!
