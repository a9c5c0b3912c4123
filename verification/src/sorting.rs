//! Facts about sequences of keyed entries: where a key first occurs, and
//! what a permutation sorted by key is.
use vstd::prelude::*;
use vstd::relations::{sorted_by, total_ordering};

verus! {

/// The keys of keyed entries, in order.
pub open spec fn keys_of<V>(es: Seq<(usize, V)>) -> Seq<usize> {
    es.map_values(|e: (usize, V)| e.0)
}

/// The index of the first occurrence of `k` in `keys`, or -1.
pub open spec fn first_index(keys: Seq<usize>, k: usize) -> int
    decreases keys.len(),
{
    if keys.len() == 0 {
        -1
    } else if keys[0] == k {
        0
    } else {
        let j = first_index(keys.drop_first(), k);
        if j < 0 {
            -1
        } else {
            j + 1
        }
    }
}

/// `first_index` is the first position holding `k`, or -1 when none does.
pub proof fn lemma_first_index(keys: Seq<usize>, k: usize)
    ensures
        first_index(keys, k) >= 0 ==> first_index(keys, k) < keys.len() && keys[first_index(keys, k)]
            == k && forall|j: int| 0 <= j < first_index(keys, k) ==> keys[j] != k,
        first_index(keys, k) < 0 ==> first_index(keys, k) == -1 && forall|j: int|
            0 <= j < keys.len() ==> keys[j] != k,
    decreases keys.len(),
{
    if keys.len() > 0 && keys[0] != k {
        lemma_first_index(keys.drop_first(), k);
        assert forall|j: int| 1 <= j < keys.len() implies keys[j] == keys.drop_first()[j - 1] by {}
    }
}

/// In a sequence without repeated keys, the position of an entry is the
/// first index of its key.
pub proof fn lemma_first_index_unique(keys: Seq<usize>, i: int)
    requires
        keys.no_duplicates(),
        0 <= i < keys.len(),
    ensures
        first_index(keys, keys[i]) == i,
{
    lemma_first_index(keys, keys[i]);
}

/// The order `<=` on keys.
pub open spec fn key_le(a: usize, b: usize) -> bool {
    a <= b
}

pub proof fn lemma_key_le_total()
    ensures
        total_ordering(|a: usize, b: usize| key_le(a, b)),
{
}

/// Sequences with the same elements keep that after mapping.
pub proof fn lemma_multiset_map<A, B>(s: Seq<A>, t: Seq<A>, f: spec_fn(A) -> B)
    requires
        s.to_multiset() == t.to_multiset(),
    ensures
        s.map_values(f).to_multiset() == t.map_values(f).to_multiset(),
    decreases s.len(),
{
    broadcast use vstd::seq_lib::group_to_multiset_ensures;
    broadcast use vstd::multiset::group_multiset_axioms;

    if s.len() == 0 {
        assert(s.to_multiset().len() == s.len());
        assert(t.to_multiset().len() == t.len());
        assert(t.len() == 0);
        assert(s.map_values(f) =~= t.map_values(f));
    } else {
        let x = s.last();
        let s1 = s.drop_last();
        assert(s =~= s1.push(x));
        assert(s.to_multiset().count(x) > 0);
        assert(t.contains(x));
        let i = choose|i: int| 0 <= i < t.len() && t[i] == x;
        let t1 = t.remove(i);
        assert(t1.to_multiset() =~= t.to_multiset().remove(x));
        assert(s1.to_multiset() =~= s.to_multiset().remove(x));
        lemma_multiset_map(s1, t1, f);
        assert(s.map_values(f) =~= s1.map_values(f).push(f(x)));
        assert(t.map_values(f).remove(i) =~= t1.map_values(f));
        assert(t.map_values(f)[i] == f(x));
        assert(t.map_values(f).remove(i).to_multiset() =~= t.map_values(f).to_multiset().remove(f(x)));
        assert(t.map_values(f).to_multiset().count(f(x)) > 0) by {
            assert(t.map_values(f).contains(f(x)));
        }
        assert(t.map_values(f).to_multiset() =~= t1.map_values(f).to_multiset().insert(f(x)));
    }
}

/// The values of keyed entries in ascending order of their keys.
pub open spec fn values_by_key<V>(es: Seq<(usize, V)>) -> Seq<V> {
    keys_of(es).sort_by(|a: usize, b: usize| key_le(a, b)).map_values(
        |k: usize| es[first_index(keys_of(es), k)].1,
    )
}

/// A permutation of entries with distinct keys that is sorted by key holds
/// the values in ascending order of their keys.
pub proof fn lemma_sorted_permutation<V>(r: Seq<(usize, V)>, es: Seq<(usize, V)>)
    requires
        r.to_multiset() == es.to_multiset(),
        keys_of(es).no_duplicates(),
        forall|i: int, j: int| 0 <= i < j < r.len() ==> r[i].0 <= r[j].0,
    ensures
        keys_of(r) == keys_of(es).sort_by(|a: usize, b: usize| key_le(a, b)),
        r.map_values(|e: (usize, V)| e.1) == values_by_key(es),
        r.len() == es.len(),
        forall|j: int|
            0 <= j < r.len() ==> 0 <= #[trigger] first_index(keys_of(es), keys_of(r)[j]) < es.len(),
{
    broadcast use vstd::seq_lib::group_to_multiset_ensures;

    let leq = |a: usize, b: usize| key_le(a, b);
    lemma_key_le_total();
    lemma_multiset_map(r, es, |e: (usize, V)| e.0);
    let sorted = keys_of(es).sort_by(leq);
    keys_of(es).lemma_sort_by_ensures(leq);
    assert(sorted_by(keys_of(r), leq));
    vstd::seq_lib::lemma_sorted_unique(keys_of(r), sorted, leq);
    assert(r.len() == es.len()) by {
        assert(r.to_multiset().len() == r.len());
        assert(es.to_multiset().len() == es.len());
    }
    assert forall|j: int| 0 <= j < r.len() implies #[trigger] r[j].1 == es[first_index(
        keys_of(es),
        sorted[j],
    )].1 by {
        assert(r.to_multiset().count(r[j]) > 0);
        assert(es.contains(r[j]));
        let i = choose|i: int| 0 <= i < es.len() && es[i] == r[j];
        lemma_first_index_unique(keys_of(es), i);
        assert(keys_of(es)[i] == r[j].0);
        assert(keys_of(r)[j] == r[j].0);
    }
    assert forall|j: int| 0 <= j < r.len() implies 0 <= #[trigger] first_index(
        keys_of(es),
        keys_of(r)[j],
    ) < es.len() by {
        assert(r.to_multiset().count(r[j]) > 0);
        assert(es.contains(r[j]));
        let i = choose|i: int| 0 <= i < es.len() && es[i] == r[j];
        lemma_first_index_unique(keys_of(es), i);
        assert(keys_of(es)[i] == r[j].0);
    }
    assert(r.map_values(|e: (usize, V)| e.1) =~= values_by_key(es));
}

/// Sorts keyed entries by key (insertion sort).
pub fn sort_by_key<V>(v: Vec<(usize, V)>) -> (r: Vec<(usize, V)>)
    ensures
        r@.to_multiset() == v@.to_multiset(),
        forall|i: int, j: int| 0 <= i < j < r@.len() ==> r@[i].0 <= r@[j].0,
{
    broadcast use vstd::seq_lib::group_to_multiset_ensures;

    let mut out: Vec<(usize, V)> = Vec::new();
    let ghost src = v@;
    assert(src.take(0) =~= Seq::<(usize, V)>::empty());
    for e in it: v
        invariant
            it.seq() == src,
            out@.to_multiset() == src.take(it.index() as int).to_multiset(),
            forall|i: int, j: int| 0 <= i < j < out@.len() ==> out@[i].0 <= out@[j].0,
    {
        let ghost n = it.index();
        let mut p: usize = 0;
        while p < out.len() && out[p].0 <= e.0
            invariant
                p <= out@.len(),
                forall|j: int| 0 <= j < p ==> out@[j].0 <= e.0,
            decreases out.len() - p,
        {
            p = p + 1;
        }
        let ghost before = out@;
        out.insert(p, e);
        proof {
            assert(src.take(n + 1) =~= src.take(n as int).push(src[n as int]));
            assert(out@ =~= before.insert(p as int, src[n as int]));
            vstd::seq_lib::to_multiset_insert(before, p as int, src[n as int]);
            vstd::seq_lib::to_multiset_build(src.take(n as int), src[n as int]);
            assert(out@.to_multiset() == src.take(n + 1).to_multiset());
            assert forall|i: int, j: int| 0 <= i < j < out@.len() implies out@[i].0 <= out@[j].0 by {
                if p < before.len() {
                    assert(before[p as int].0 > src[n as int].0);
                }
                if i < p && j > p {
                    assert(out@[i] == before[i]);
                    assert(out@[j] == before[j - 1]);
                }
            }
        }
    }
    assert(src.take(src.len() as int) =~= src);
    out
}

/// For entries without repeated keys, `values_by_key` holds every value
/// once, under keys that strictly ascend.
pub proof fn lemma_values_by_key<V>(es: Seq<(usize, V)>)
    requires
        keys_of(es).no_duplicates(),
    ensures
        ({
            let s = keys_of(es).sort_by(|a: usize, b: usize| key_le(a, b));
            &&& s.len() == es.len()
            &&& values_by_key(es).len() == es.len()
            &&& forall|i: int, j: int| 0 <= i < j < s.len() ==> s[i] < s[j]
            &&& forall|j: int|
                0 <= j < s.len() ==> 0 <= #[trigger] first_index(keys_of(es), s[j]) < es.len()
                    && es[first_index(keys_of(es), s[j])].0 == s[j]
        }),
        values_by_key(es).to_multiset() == es.map_values(|e: (usize, V)| e.1).to_multiset(),
{
    broadcast use vstd::seq_lib::group_to_multiset_ensures;
    broadcast use vstd::multiset::group_multiset_axioms;

    let leq = |a: usize, b: usize| key_le(a, b);
    let ks = keys_of(es);
    let s = ks.sort_by(leq);
    lemma_key_le_total();
    ks.lemma_sort_by_ensures(leq);
    assert(s.len() == es.len()) by {
        assert(s.to_multiset().len() == s.len());
        assert(ks.to_multiset().len() == ks.len());
    }
    ks.lemma_multiset_has_no_duplicates();
    assert forall|x: usize| s.to_multiset().contains(x) implies s.to_multiset().count(x) == 1 by {}
    s.lemma_multiset_has_no_duplicates_conv();
    assert forall|i: int, j: int| 0 <= i < j < s.len() implies s[i] < s[j] by {
        assert(leq(s[i], s[j]));
    }
    assert forall|j: int| 0 <= j < s.len() implies 0 <= #[trigger] first_index(keys_of(es), s[j])
        < es.len() && es[first_index(keys_of(es), s[j])].0 == s[j] by {
        assert(s.to_multiset().count(s[j]) > 0);
        assert(ks.contains(s[j]));
        let i = choose|i: int| 0 <= i < ks.len() && ks[i] == s[j];
        lemma_first_index_unique(ks, i);
    }
    let f = |k: usize| es[first_index(ks, k)].1;
    lemma_multiset_map(s, ks, f);
    assert forall|i: int| 0 <= i < ks.len() implies #[trigger] ks.map_values(f)[i] == es.map_values(
        |e: (usize, V)| e.1,
    )[i] by {
        lemma_first_index_unique(ks, i);
    }
    assert(ks.map_values(f) =~= es.map_values(|e: (usize, V)| e.1));
    assert(values_by_key(es) =~= s.map_values(f));
}

} // verus!
