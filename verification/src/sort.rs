use vstd::prelude::*;
use vstd::relations::{sorted_by, strongly_connected, transitive};

verus! {

/// Where `x` goes into `s` so that it follows every element from the end of `s` that
/// precedes or ties with it: past the last elements that `le` puts before or level
/// with `x`, counting back from the end.
pub open spec fn insert_pos<T>(s: Seq<T>, x: T, le: spec_fn(T, T) -> bool) -> int
    decreases s.len(),
{
    if s.len() == 0 {
        0
    } else if le(s.last(), x) {
        s.len() as int
    } else {
        insert_pos(s.drop_last(), x, le)
    }
}

/// `s` sorted by `le` the way a stable sort orders it: each element in turn is placed
/// after the elements before it that precede or tie with it.
pub open spec fn stable_sort<T>(s: Seq<T>, le: spec_fn(T, T) -> bool) -> Seq<T>
    decreases s.len(),
{
    if s.len() == 0 {
        Seq::empty()
    } else {
        let t = stable_sort(s.drop_last(), le);
        t.insert(insert_pos(t, s.last(), le), s.last())
    }
}

/// The insertion position lies within the sequence, and everything after it is ordered after `x`.
pub proof fn lemma_insert_pos_bounds<T>(s: Seq<T>, x: T, le: spec_fn(T, T) -> bool)
    ensures
        0 <= insert_pos(s, x, le) <= s.len(),
        forall|k: int| insert_pos(s, x, le) <= k < s.len() ==> !le(#[trigger] s[k], x),
    decreases s.len(),
{
    if s.len() > 0 && !le(s.last(), x) {
        lemma_insert_pos_bounds(s.drop_last(), x, le);
        assert forall|k: int| insert_pos(s, x, le) <= k < s.len() implies !le(#[trigger] s[k], x) by {
            if k < s.len() - 1 {
                assert(s[k] == s.drop_last()[k]);
            }
        }
    }
}

/// Sorting keeps the elements: the result is a permutation of the input.
pub proof fn lemma_stable_sort_permutes<T>(s: Seq<T>, le: spec_fn(T, T) -> bool)
    ensures
        stable_sort(s, le).to_multiset() == s.to_multiset(),
        stable_sort(s, le).len() == s.len(),
    decreases s.len(),
{
    broadcast use vstd::seq_lib::group_to_multiset_ensures;
    if s.len() > 0 {
        let t = stable_sort(s.drop_last(), le);
        lemma_stable_sort_permutes(s.drop_last(), le);
        lemma_insert_pos_bounds(t, s.last(), le);
        vstd::seq_lib::to_multiset_insert(t, insert_pos(t, s.last(), le), s.last());
        vstd::seq_lib::to_multiset_build(s.drop_last(), s.last());
        assert(s.drop_last().push(s.last()) == s);
    }
}

/// With a total preorder, the result is sorted.
pub proof fn lemma_stable_sort_sorted<T>(s: Seq<T>, le: spec_fn(T, T) -> bool)
    requires
        transitive(le),
        strongly_connected(le),
    ensures
        sorted_by(stable_sort(s, le), le),
    decreases s.len(),
{
    if s.len() > 0 {
        let t = stable_sort(s.drop_last(), le);
        let x = s.last();
        lemma_stable_sort_sorted(s.drop_last(), le);
        lemma_stable_sort_permutes(s.drop_last(), le);
        lemma_insert_pos_bounds(t, x, le);
        let p = insert_pos(t, x, le);
        let r = t.insert(p, x);
        lemma_insert_pos_prefix(t, x, le);
        assert forall|i: int, j: int| 0 <= i < j < r.len() implies #[trigger] le(r[i], r[j]) by {
            if j < p {
                assert(r[i] == t[i] && r[j] == t[j]);
            } else if j == p {
                assert(r[j] == x);
                assert(r[i] == t[i]);
            } else if i == p {
                assert(r[i] == x);
                assert(r[j] == t[j - 1]);
                assert(!le(t[j - 1], x));
            } else if i < p {
                assert(r[i] == t[i] && r[j] == t[j - 1]);
            } else {
                assert(r[i] == t[i - 1] && r[j] == t[j - 1]);
            }
        }
    }
}

proof fn lemma_insert_pos_prefix<T>(s: Seq<T>, x: T, le: spec_fn(T, T) -> bool)
    requires
        transitive(le),
        strongly_connected(le),
        sorted_by(s, le),
    ensures
        forall|k: int| 0 <= k < insert_pos(s, x, le) ==> le(#[trigger] s[k], x),
    decreases s.len(),
{
    lemma_insert_pos_bounds(s, x, le);
    if s.len() > 0 {
        if le(s.last(), x) {
            assert forall|k: int| 0 <= k < insert_pos(s, x, le) implies le(#[trigger] s[k], x) by {
                if k < s.len() - 1 {
                    assert(le(s[k], s[s.len() - 1]));
                }
            }
        } else {
            let d = s.drop_last();
            assert(sorted_by(d, le)) by {
                assert forall|i: int, j: int| 0 <= i < j < d.len() implies #[trigger] le(d[i], d[j]) by {
                    assert(d[i] == s[i] && d[j] == s[j]);
                }
            }
            lemma_insert_pos_prefix(d, x, le);
            assert forall|k: int| 0 <= k < insert_pos(s, x, le) implies le(#[trigger] s[k], x) by {
                assert(s[k] == d[k]);
            }
        }
    }
}

proof fn lemma_insert_pos_map<T, U>(
    s: Seq<T>,
    x: T,
    le: spec_fn(T, T) -> bool,
    f: spec_fn(T) -> U,
    leu: spec_fn(U, U) -> bool,
)
    requires
        forall|a: T, b: T| #[trigger] le(a, b) == leu(f(a), f(b)),
    ensures
        insert_pos(s.map_values(f), f(x), leu) == insert_pos(s, x, le),
    decreases s.len(),
{
    if s.len() > 0 {
        assert(s.map_values(f).drop_last() =~= s.drop_last().map_values(f));
        assert(s.map_values(f).last() == f(s.last()));
        assert(le(s.last(), x) == leu(f(s.last()), f(x)));
        lemma_insert_pos_map(s.drop_last(), x, le, f, leu);
    }
}

/// Sorting by an order that only looks at `f` of the elements commutes with `f`.
pub proof fn lemma_stable_sort_map<T, U>(
    s: Seq<T>,
    le: spec_fn(T, T) -> bool,
    f: spec_fn(T) -> U,
    leu: spec_fn(U, U) -> bool,
)
    requires
        forall|a: T, b: T| #[trigger] le(a, b) == leu(f(a), f(b)),
    ensures
        stable_sort(s, le).map_values(f) == stable_sort(s.map_values(f), leu),
    decreases s.len(),
{
    if s.len() > 0 {
        let t = stable_sort(s.drop_last(), le);
        lemma_stable_sort_map(s.drop_last(), le, f, leu);
        assert(s.map_values(f).drop_last() =~= s.drop_last().map_values(f));
        assert(s.map_values(f).last() == f(s.last()));
        lemma_insert_pos_map(t, s.last(), le, f, leu);
        lemma_insert_pos_bounds(t, s.last(), le);
        let p = insert_pos(t, s.last(), le);
        assert(t.insert(p, s.last()).map_values(f) =~= t.map_values(f).insert(p, f(s.last())));
    }
}

/// Sorts `v` as `stable_sort` does, with `le_exec` deciding `le`.
pub fn insertion_sort<T, F: Fn(&T, &T) -> bool>(v: Vec<T>, le_exec: &F, Ghost(le): Ghost<spec_fn(T, T) -> bool>) -> (r: Vec<T>)
    requires
        forall|a: &T, b: &T| le_exec.requires((a, b)),
        forall|a: &T, b: &T, x: bool| le_exec.ensures((a, b), x) ==> x == le(*a, *b),
    ensures
        r@ == stable_sort(v@, le),
{
    let ghost all = v@;
    let n = v.len();
    let mut rest = v;
    let mut out: Vec<T> = Vec::new();
    let mut k: usize = 0;
    assert(all.take(0) =~= Seq::<T>::empty());
    while rest.len() > 0
        invariant
            k <= all.len(),
            all.len() == n,
            rest@ == all.skip(k as int),
            out@ == stable_sort(all.take(k as int), le),
            forall|a: &T, b: &T| le_exec.requires((a, b)),
            forall|a: &T, b: &T, x: bool| le_exec.ensures((a, b), x) ==> x == le(*a, *b),
        decreases rest.len(),
    {
        let x = rest.remove(0);
        assert(x == all[k as int]);
        let mut p: usize = out.len();
        assert(out@.take(p as int) =~= out@);
        while p > 0 && !le_exec(&out[p - 1], &x)
            invariant
                p <= out.len(),
                insert_pos(out@, x, le) == insert_pos(out@.take(p as int), x, le),
                forall|a: &T, b: &T| le_exec.requires((a, b)),
                forall|a: &T, b: &T, y: bool| le_exec.ensures((a, b), y) ==> y == le(*a, *b),
            decreases p,
        {
            assert(out@.take(p as int).drop_last() =~= out@.take(p - 1));
            assert(out@.take(p as int).last() == out@[p - 1]);
            p = p - 1;
        }
        proof {
            if p > 0 {
                assert(out@.take(p as int).last() == out@[p - 1]);
            }
            assert(insert_pos(out@.take(p as int), x, le) == p as int);
            assert(all.take(k + 1).drop_last() =~= all.take(k as int));
            assert(all.take(k + 1).last() == x);
        }
        out.insert(p, x);
        k = k + 1;
        assert(rest@ =~= all.skip(k as int));
    }
    assert(all.take(k as int) =~= all);
    out
}

} // verus!
