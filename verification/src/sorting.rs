//! Stable sorting, specified as insertion: the unique stable order that
//! `slice::sort_by` and `slice::sort_by_key` also produce.
use vstd::prelude::*;

verus! {

/// `x` placed after every leading element that is `le` it.
pub open spec fn sorted_insert<T>(s: Seq<T>, x: T, le: spec_fn(T, T) -> bool) -> Seq<T>
    decreases s.len(),
{
    if s.len() == 0 {
        seq![x]
    } else if !le(s[0], x) {
        seq![x] + s
    } else {
        seq![s[0]] + sorted_insert(s.drop_first(), x, le)
    }
}

/// The stable sort of `s` by the order `le`.
pub open spec fn stable_sort<T>(s: Seq<T>, le: spec_fn(T, T) -> bool) -> Seq<T>
    decreases s.len(),
{
    if s.len() == 0 {
        s
    } else {
        sorted_insert(stable_sort(s.drop_last(), le), s.last(), le)
    }
}

pub proof fn lemma_sorted_insert_at<T>(s: Seq<T>, x: T, le: spec_fn(T, T) -> bool, j: int)
    requires
        0 <= j <= s.len(),
        forall|k: int| 0 <= k < j ==> le(#[trigger] s[k], x),
        j == s.len() || !le(s[j], x),
    ensures
        sorted_insert(s, x, le) == s.insert(j, x),
    decreases j,
{
    if s.len() == 0 {
        assert(s.insert(j, x) =~= seq![x]);
    } else if j == 0 {
        assert(s.insert(0, x) =~= seq![x] + s);
    } else {
        let t = s.drop_first();
        assert forall|k: int| 0 <= k < j - 1 implies le(#[trigger] t[k], x) by {
            assert(t[k] == s[k + 1]);
        }
        if j < s.len() {
            assert(t[j - 1] == s[j]);
        }
        lemma_sorted_insert_at(t, x, le, j - 1);
        assert(seq![s[0]] + t.insert(j - 1, x) =~= s.insert(j, x));
    }
}

pub proof fn lemma_sorted_insert_map<A, B>(
    s: Seq<A>,
    x: A,
    f: spec_fn(A) -> B,
    le_a: spec_fn(A, A) -> bool,
    le_b: spec_fn(B, B) -> bool,
)
    requires
        forall|a: A, b: A| #[trigger] le_a(a, b) == le_b(f(a), f(b)),
    ensures
        sorted_insert(s, x, le_a).map_values(f) == sorted_insert(s.map_values(f), f(x), le_b),
    decreases s.len(),
{
    let fs = s.map_values(f);
    if s.len() == 0 {
        assert(sorted_insert(s, x, le_a).map_values(f) =~= seq![f(x)]);
    } else if !le_a(s[0], x) {
        assert(sorted_insert(s, x, le_a).map_values(f) =~= seq![f(x)] + fs);
    } else {
        lemma_sorted_insert_map(s.drop_first(), x, f, le_a, le_b);
        assert(s.drop_first().map_values(f) =~= fs.drop_first());
        assert(sorted_insert(s, x, le_a).map_values(f) =~= seq![f(s[0])] + sorted_insert(
            s.drop_first(),
            x,
            le_a,
        ).map_values(f));
    }
}

/// Sorting commutes with a map that carries the order over.
pub proof fn lemma_stable_sort_map<A, B>(
    s: Seq<A>,
    f: spec_fn(A) -> B,
    le_a: spec_fn(A, A) -> bool,
    le_b: spec_fn(B, B) -> bool,
)
    requires
        forall|a: A, b: A| #[trigger] le_a(a, b) == le_b(f(a), f(b)),
    ensures
        stable_sort(s, le_a).map_values(f) == stable_sort(s.map_values(f), le_b),
    decreases s.len(),
{
    if s.len() == 0 {
        assert(stable_sort(s, le_a).map_values(f) =~= s.map_values(f));
    } else {
        lemma_stable_sort_map(s.drop_last(), f, le_a, le_b);
        assert(s.drop_last().map_values(f) =~= s.map_values(f).drop_last());
        lemma_sorted_insert_map(stable_sort(s.drop_last(), le_a), s.last(), f, le_a, le_b);
    }
}

pub proof fn lemma_sorted_insert_len<T>(s: Seq<T>, x: T, le: spec_fn(T, T) -> bool)
    ensures
        sorted_insert(s, x, le).len() == s.len() + 1,
    decreases s.len(),
{
    if s.len() > 0 && le(s[0], x) {
        lemma_sorted_insert_len(s.drop_first(), x, le);
    }
}

pub proof fn lemma_stable_sort_len<T>(s: Seq<T>, le: spec_fn(T, T) -> bool)
    ensures
        stable_sort(s, le).len() == s.len(),
    decreases s.len(),
{
    if s.len() > 0 {
        lemma_stable_sort_len(s.drop_last(), le);
        lemma_sorted_insert_len(stable_sort(s.drop_last(), le), s.last(), le);
    }
}

/// Stable insertion sort of `v` by `le`, whose results `spec_le` states.
pub fn sort_stable<T, F: Fn(&T, &T) -> bool>(
    v: Vec<T>,
    le: &F,
    Ghost(spec_le): Ghost<spec_fn(T, T) -> bool>,
) -> (r: Vec<T>)
    requires
        forall|a: &T, b: &T| #[trigger] le.requires((a, b)),
        forall|a: &T, b: &T, res: bool| le.ensures((a, b), res) ==> res == spec_le(*a, *b),
    ensures
        r@ == stable_sort(v@, spec_le),
{
    let ghost orig = v@;
    let mut out: Vec<T> = Vec::new();
    for x in it: v.into_iter()
        invariant
            it.seq() == orig,
            forall|a: &T, b: &T| #[trigger] le.requires((a, b)),
            forall|a: &T, b: &T, res: bool| le.ensures((a, b), res) ==> res == spec_le(*a, *b),
            out@ == stable_sort(orig.take(it.index() as int), spec_le),
    {
        let ghost i = it.index();
        let mut j: usize = 0;
        while j < out.len() && le(&out[j], &x)
            invariant
                j <= out.len(),
                forall|a: &T, b: &T| #[trigger] le.requires((a, b)),
                forall|a: &T, b: &T, res: bool| le.ensures((a, b), res) ==> res == spec_le(*a, *b),
                forall|k: int| 0 <= k < j ==> spec_le(#[trigger] out@[k], x),
            decreases out.len() - j,
        {
            j += 1;
        }
        proof {
            lemma_sorted_insert_at(out@, x, spec_le, j as int);
            assert(orig.take(i + 1).drop_last() =~= orig.take(i as int));
            assert(orig.take(i + 1).last() == x);
        }
        out.insert(j, x);
    }
    proof {
        assert(orig.take(orig.len() as int) =~= orig);
    }
    out
}


pub proof fn lemma_sorted_insert_all<T>(s: Seq<T>, x: T, le: spec_fn(T, T) -> bool, pred: spec_fn(T) -> bool)
    requires
        forall|k: int| 0 <= k < s.len() ==> pred(#[trigger] s[k]),
        pred(x),
    ensures
        forall|k: int| 0 <= k < sorted_insert(s, x, le).len() ==> pred(#[trigger] sorted_insert(s, x, le)[k]),
    decreases s.len(),
{
    let r = sorted_insert(s, x, le);
    if s.len() > 0 && le(s[0], x) {
        let t = s.drop_first();
        assert forall|k: int| 0 <= k < t.len() implies pred(#[trigger] t[k]) by {
            assert(t[k] == s[k + 1]);
        }
        lemma_sorted_insert_all(t, x, le, pred);
        assert forall|k: int| 0 <= k < r.len() implies pred(#[trigger] r[k]) by {
            if k > 0 {
                assert(r[k] == sorted_insert(t, x, le)[k - 1]);
            }
        }
    } else if s.len() > 0 {
        assert forall|k: int| 0 <= k < r.len() implies pred(#[trigger] r[k]) by {
            if k > 0 {
                assert(r[k] == s[k - 1]);
            }
        }
    }
}

/// Every element of the sorted sequence satisfies what every element of the
/// input satisfies.
pub proof fn lemma_stable_sort_all<T>(s: Seq<T>, le: spec_fn(T, T) -> bool, pred: spec_fn(T) -> bool)
    requires
        forall|k: int| 0 <= k < s.len() ==> pred(#[trigger] s[k]),
    ensures
        forall|k: int| 0 <= k < stable_sort(s, le).len() ==> pred(#[trigger] stable_sort(s, le)[k]),
    decreases s.len(),
{
    if s.len() > 0 {
        let t = s.drop_last();
        assert forall|k: int| 0 <= k < t.len() implies pred(#[trigger] t[k]) by {
            assert(t[k] == s[k]);
        }
        lemma_stable_sort_all(t, le, pred);
        lemma_sorted_insert_all(stable_sort(t, le), s.last(), le, pred);
    }
}


pub proof fn lemma_sorted_insert_contains<T>(s: Seq<T>, x: T, le: spec_fn(T, T) -> bool)
    ensures
        sorted_insert(s, x, le).contains(x),
        forall|y: T| s.contains(y) ==> #[trigger] sorted_insert(s, x, le).contains(y),
    decreases s.len(),
{
    let r = sorted_insert(s, x, le);
    if s.len() == 0 {
        assert(r[0] == x);
    } else if !le(s[0], x) {
        assert(r[0] == x);
        assert forall|y: T| s.contains(y) implies #[trigger] r.contains(y) by {
            let j = choose|j: int| 0 <= j < s.len() && s[j] == y;
            assert(r[j + 1] == y);
        }
    } else {
        let t = s.drop_first();
        lemma_sorted_insert_contains(t, x, le);
        let rt = sorted_insert(t, x, le);
        let j0 = choose|j: int| 0 <= j < rt.len() && rt[j] == x;
        assert(r[j0 + 1] == x);
        assert forall|y: T| s.contains(y) implies #[trigger] r.contains(y) by {
            let j = choose|j: int| 0 <= j < s.len() && s[j] == y;
            if j == 0 {
                assert(r[0] == y);
            } else {
                assert(t[j - 1] == y);
                assert(t.contains(y));
                assert(rt.contains(y));
                let k = choose|k: int| 0 <= k < rt.len() && rt[k] == y;
                assert(r[k + 1] == y);
            }
        }
    }
}

/// Sorting loses no element.
pub proof fn lemma_stable_sort_contains<T>(s: Seq<T>, le: spec_fn(T, T) -> bool)
    ensures
        forall|y: T| s.contains(y) ==> #[trigger] stable_sort(s, le).contains(y),
    decreases s.len(),
{
    if s.len() > 0 {
        let t = s.drop_last();
        lemma_stable_sort_contains(t, le);
        lemma_sorted_insert_contains(stable_sort(t, le), s.last(), le);
        assert forall|y: T| s.contains(y) implies #[trigger] stable_sort(s, le).contains(y) by {
            let j = choose|j: int| 0 <= j < s.len() && s[j] == y;
            if j < s.len() - 1 {
                assert(t[j] == y);
                assert(t.contains(y));
            }
        }
    }
}


/// Whether no two elements of `s` have the same key.
pub open spec fn distinct_keys<T, K>(s: Seq<T>, key: spec_fn(T) -> K) -> bool {
    forall|i: int, j: int| 0 <= i < j < s.len() ==> key(#[trigger] s[i]) != key(#[trigger] s[j])
}

proof fn lemma_sorted_insert_distinct<T, K>(s: Seq<T>, x: T, le: spec_fn(T, T) -> bool, key: spec_fn(T) -> K)
    requires
        distinct_keys(s, key),
        forall|k: int| 0 <= k < s.len() ==> key(#[trigger] s[k]) != key(x),
    ensures
        distinct_keys(sorted_insert(s, x, le), key),
    decreases s.len(),
{
    let r = sorted_insert(s, x, le);
    if s.len() == 0 {
    } else if !le(s[0], x) {
        assert forall|i: int, j: int| 0 <= i < j < r.len() implies key(#[trigger] r[i]) != key(#[trigger] r[j]) by {
            if i == 0 {
                assert(r[j] == s[j - 1]);
            } else {
                assert(r[i] == s[i - 1]);
                assert(r[j] == s[j - 1]);
            }
        }
    } else {
        let t = s.drop_first();
        assert forall|i: int, j: int| 0 <= i < j < t.len() implies key(#[trigger] t[i]) != key(#[trigger] t[j]) by {
            assert(t[i] == s[i + 1]);
            assert(t[j] == s[j + 1]);
        }
        assert forall|k: int| 0 <= k < t.len() implies key(#[trigger] t[k]) != key(x) by {
            assert(t[k] == s[k + 1]);
        }
        lemma_sorted_insert_distinct(t, x, le, key);
        let rt = sorted_insert(t, x, le);
        lemma_sorted_insert_all(t, x, le, |y: T| key(y) != key(s[0]));
        assert forall|k: int| 0 <= k < t.len() implies (|y: T| key(y) != key(s[0]))(#[trigger] t[k]) by {
            assert(t[k] == s[k + 1]);
        }
        assert forall|i: int, j: int| 0 <= i < j < r.len() implies key(#[trigger] r[i]) != key(#[trigger] r[j]) by {
            assert(r[j] == rt[j - 1]);
            if i == 0 {
                assert(r[0] == s[0]);
                assert((|y: T| key(y) != key(s[0]))(rt[j - 1]));
            } else {
                assert(r[i] == rt[i - 1]);
            }
        }
    }
}

/// Sorting keeps keys distinct.
pub proof fn lemma_stable_sort_distinct<T, K>(s: Seq<T>, le: spec_fn(T, T) -> bool, key: spec_fn(T) -> K)
    requires
        distinct_keys(s, key),
    ensures
        distinct_keys(stable_sort(s, le), key),
    decreases s.len(),
{
    if s.len() > 0 {
        let t = s.drop_last();
        let x = s.last();
        assert forall|i: int, j: int| 0 <= i < j < t.len() implies key(#[trigger] t[i]) != key(#[trigger] t[j]) by {
            assert(t[i] == s[i]);
            assert(t[j] == s[j]);
        }
        lemma_stable_sort_distinct(t, le, key);
        let st = stable_sort(t, le);
        let p = |y: T| key(y) != key(x);
        assert forall|k: int| 0 <= k < t.len() implies p(#[trigger] t[k]) by {
            assert(t[k] == s[k]);
            assert(s[s.len() - 1] == x);
        }
        lemma_stable_sort_all(t, le, p);
        assert forall|k: int| 0 <= k < st.len() implies key(#[trigger] st[k]) != key(x) by {
            assert(p(st[k]));
        }
        lemma_sorted_insert_distinct(st, x, le, key);
    }
}


/// Whether `le` orders every pair of elements of `s` that come in order.
pub open spec fn is_sorted<T>(s: Seq<T>, le: spec_fn(T, T) -> bool) -> bool {
    forall|i: int, j: int| 0 <= i < j < s.len() ==> le(#[trigger] s[i], #[trigger] s[j])
}

/// Whether `le` is a total preorder.
pub open spec fn total_preorder<T>(le: spec_fn(T, T) -> bool) -> bool {
    &&& forall|a: T, b: T| #[trigger] le(a, b) || le(b, a)
    &&& forall|a: T, b: T, c: T| #[trigger] le(a, b) && #[trigger] le(b, c) ==> le(a, c)
}

proof fn lemma_sorted_insert_sorted<T>(s: Seq<T>, x: T, le: spec_fn(T, T) -> bool)
    requires
        total_preorder(le),
        is_sorted(s, le),
    ensures
        is_sorted(sorted_insert(s, x, le), le),
    decreases s.len(),
{
    let r = sorted_insert(s, x, le);
    if s.len() == 0 {
    } else if !le(s[0], x) {
        assert(le(x, s[0]));
        assert forall|i: int, j: int| 0 <= i < j < r.len() implies le(#[trigger] r[i], #[trigger] r[j]) by {
            if i == 0 {
                assert(r[j] == s[j - 1]);
                if j > 1 {
                    assert(le(s[0], s[j - 1]));
                }
            } else {
                assert(r[i] == s[i - 1]);
                assert(r[j] == s[j - 1]);
            }
        }
    } else {
        let t = s.drop_first();
        assert forall|i: int, j: int| 0 <= i < j < t.len() implies le(#[trigger] t[i], #[trigger] t[j]) by {
            assert(t[i] == s[i + 1]);
            assert(t[j] == s[j + 1]);
        }
        lemma_sorted_insert_sorted(t, x, le);
        let rt = sorted_insert(t, x, le);
        let p = |y: T| le(s[0], y);
        assert forall|k: int| 0 <= k < t.len() implies p(#[trigger] t[k]) by {
            assert(t[k] == s[k + 1]);
        }
        lemma_sorted_insert_all(t, x, le, p);
        assert forall|i: int, j: int| 0 <= i < j < r.len() implies le(#[trigger] r[i], #[trigger] r[j]) by {
            assert(r[j] == rt[j - 1]);
            if i == 0 {
                assert(p(rt[j - 1]));
            } else {
                assert(r[i] == rt[i - 1]);
            }
        }
    }
}

/// Under a total preorder the stable sort is sorted.
pub proof fn lemma_stable_sort_sorted<T>(s: Seq<T>, le: spec_fn(T, T) -> bool)
    requires
        total_preorder(le),
    ensures
        is_sorted(stable_sort(s, le), le),
    decreases s.len(),
{
    if s.len() > 0 {
        lemma_stable_sort_sorted(s.drop_last(), le);
        lemma_sorted_insert_sorted(stable_sort(s.drop_last(), le), s.last(), le);
    }
}

/// Sorting what is already sorted changes nothing.
pub proof fn lemma_stable_sort_of_sorted<T>(s: Seq<T>, le: spec_fn(T, T) -> bool)
    requires
        is_sorted(s, le),
    ensures
        stable_sort(s, le) == s,
    decreases s.len(),
{
    if s.len() > 0 {
        let t = s.drop_last();
        assert forall|i: int, j: int| 0 <= i < j < t.len() implies le(#[trigger] t[i], #[trigger] t[j]) by {
            assert(t[i] == s[i]);
            assert(t[j] == s[j]);
        }
        lemma_stable_sort_of_sorted(t, le);
        assert forall|k: int| 0 <= k < t.len() implies le(#[trigger] t[k], s.last()) by {
            assert(t[k] == s[k]);
            assert(s.last() == s[s.len() - 1]);
        }
        lemma_sorted_insert_at(t, s.last(), le, t.len() as int);
        assert(t.insert(t.len() as int, s.last()) =~= s);
    }
}

} // verus!
