//! Filtering and stable sorting of lists.

use vstd::prelude::*;

verus! {

/// A strict order on the elements of a list.
pub trait Order<T> {
    spec fn before(&self, a: T, b: T) -> bool;

    fn less(&self, a: &T, b: &T) -> (r: bool)
        ensures
            r == self.before(*a, *b),
    ;
}

/// A condition on the elements of a list.
pub trait Condition<T> {
    spec fn passes(&self, x: T) -> bool;

    fn check(&self, x: &T) -> (r: bool)
        ensures
            r == self.passes(*x),
    ;
}

/// `x` placed after the last element it does not come before.
pub open spec fn placed<T>(s: Seq<T>, x: T, lt: spec_fn(T, T) -> bool) -> Seq<T>
    decreases s.len(),
{
    if s.len() > 0 && lt(x, s.last()) {
        placed(s.drop_last(), x, lt).push(s.last())
    } else {
        s.push(x)
    }
}

/// The elements in order, those of equal rank in the order they came.
pub open spec fn stable_sort<T>(s: Seq<T>, lt: spec_fn(T, T) -> bool) -> Seq<T>
    decreases s.len(),
{
    if s.len() == 0 {
        s
    } else {
        placed(stable_sort(s.drop_last(), lt), s.last(), lt)
    }
}

/// The first `n` elements, or all of them where there are fewer.
pub open spec fn first<T>(s: Seq<T>, n: nat) -> Seq<T> {
    if s.len() <= n {
        s
    } else {
        s.take(n as int)
    }
}

proof fn lemma_placed_at<T>(s: Seq<T>, x: T, lt: spec_fn(T, T) -> bool, j: int)
    requires
        0 <= j <= s.len(),
        forall|k: int| j <= k < s.len() ==> lt(x, #[trigger] s[k]),
        j > 0 ==> !lt(x, s[j - 1]),
    ensures
        placed(s, x, lt) == s.insert(j, x),
    decreases s.len(),
{
    if s.len() > j {
        lemma_placed_at(s.drop_last(), x, lt, j);
        assert(s.insert(j, x) =~= s.drop_last().insert(j, x).push(s.last()));
    } else {
        assert(s.insert(j, x) =~= s.push(x));
    }
}

/// The list sorted by `order`, elements of equal rank kept in the order they
/// came.
pub fn sorted<T, O: Order<T>>(v: Vec<T>, order: &O) -> (r: Vec<T>)
    ensures
        r@ == stable_sort(v@, |a: T, b: T| order.before(a, b)),
{
    let ghost lt = |a: T, b: T| order.before(a, b);
    let ghost all = v@;
    let mut out: Vec<T> = Vec::new();
    assert(all.take(0) =~= out@);
    for x in it: v
        invariant
            it.seq() == all,
            lt == (|a: T, b: T| order.before(a, b)),
            out@ == stable_sort(all.take(it.index()), lt),
    {
        let ghost i = it.index();
        assert(all.take(i + 1).drop_last() =~= all.take(i));
        assert(all.take(i + 1).last() == x);
        let mut j: usize = out.len();
        while j > 0 && order.less(&x, &out[j - 1])
            invariant
                j <= out.len(),
                lt == (|a: T, b: T| order.before(a, b)),
                forall|k: int| j <= k < out.len() ==> lt(x, #[trigger] out@[k]),
            decreases j,
        {
            j -= 1;
        }
        proof {
            lemma_placed_at(out@, x, lt, j as int);
        }
        out.insert(j, x);
    }
    assert(all.take(all.len() as int) =~= all);
    out
}

/// The elements that pass, in the order they came.
pub fn kept<T, C: Condition<T>>(v: Vec<T>, c: &C) -> (r: Vec<T>)
    ensures
        r@ == v@.filter(|x: T| c.passes(x)),
{
    let ghost p = |x: T| c.passes(x);
    let ghost all = v@;
    let mut out: Vec<T> = Vec::new();
    assert(all.take(0).filter(p) =~= out@) by {
        reveal(Seq::filter);
    }
    for x in it: v
        invariant
            it.seq() == all,
            p == (|x: T| c.passes(x)),
            out@ == all.take(it.index()).filter(p),
    {
        proof {
            let i = it.index();
            crate::text::lemma_filter_push(all.take(i), p, x);
            assert(all.take(i + 1) =~= all.take(i).push(x));
        }
        if c.check(&x) {
            out.push(x);
        }
    }
    assert(all.take(all.len() as int) =~= all);
    out
}

/// The first `n` elements, or all of them where there are fewer.
pub fn cut<T>(v: Vec<T>, n: usize) -> (r: Vec<T>)
    ensures
        r@ == first(v@, n as nat),
{
    let mut v = v;
    if v.len() > n {
        v.truncate(n);
    }
    v
}

// --- what sorting gives ------------------------------------------------------------

/// Comparing gives no element a place before itself, and not coming before is
/// passed on.
pub open spec fn is_order<T>(lt: spec_fn(T, T) -> bool) -> bool {
    &&& forall|a: T| !(#[trigger] lt(a, a))
    &&& forall|a: T, b: T| #[trigger] lt(a, b) ==> !lt(b, a)
    &&& forall|a: T, b: T, c: T| !#[trigger] lt(a, b) && !#[trigger] lt(b, c) ==> !lt(a, c)
}

/// No element comes before one that stands ahead of it.
pub open spec fn in_order<T>(s: Seq<T>, lt: spec_fn(T, T) -> bool) -> bool {
    forall|i: int, j: int| 0 <= i < j < s.len() ==> !lt(#[trigger] s[j], #[trigger] s[i])
}

proof fn lemma_placed<T>(s: Seq<T>, x: T, lt: spec_fn(T, T) -> bool)
    requires
        is_order(lt),
        in_order(s, lt),
    ensures
        in_order(placed(s, x, lt), lt),
        placed(s, x, lt).to_multiset() == s.to_multiset().insert(x),
        placed(s, x, lt).len() == s.len() + 1,
    decreases s.len(),
{
    broadcast use vstd::seq_lib::group_to_multiset_ensures;

    if s.len() > 0 && lt(x, s.last()) {
        let t = s.drop_last();
        lemma_placed(t, x, lt);
        let p = placed(t, x, lt);
        assert forall|i: int| 0 <= i < p.len() implies !lt(s.last(), #[trigger] p[i]) by {
            assert(p.contains(p[i]));
            assert(p.to_multiset().count(p[i]) > 0);
            if p[i] != x {
                assert(t.to_multiset().count(p[i]) > 0);
                assert(t.contains(p[i]));
                let k = choose|k: int| 0 <= k < t.len() && t[k] == p[i];
                assert(s[k] == p[i]);
                assert(!lt(s[s.len() - 1], s[k]));
            }
        }
        assert(s =~= t.push(s.last()));
        assert(p.push(s.last()).to_multiset() =~= s.to_multiset().insert(x));
    } else {
        assert forall|i: int| 0 <= i < s.len() implies !lt(x, #[trigger] s[i]) by {
            if i < s.len() - 1 {
                assert(!lt(s[s.len() - 1], s[i]));
                assert(!lt(x, s[s.len() - 1]));
            }
        }
    }
}

/// A sorted list is in order and holds the same elements.
pub proof fn sorting_orders<T>(s: Seq<T>, lt: spec_fn(T, T) -> bool)
    requires
        is_order(lt),
    ensures
        in_order(stable_sort(s, lt), lt),
        stable_sort(s, lt).to_multiset() == s.to_multiset(),
        stable_sort(s, lt).len() == s.len(),
    decreases s.len(),
{
    broadcast use vstd::seq_lib::group_to_multiset_ensures;

    if s.len() > 0 {
        sorting_orders(s.drop_last(), lt);
        lemma_placed(stable_sort(s.drop_last(), lt), s.last(), lt);
        assert(s =~= s.drop_last().push(s.last()));
    }
}

/// What holds of every element.
pub open spec fn all_of<T>(s: Seq<T>, p: spec_fn(T) -> bool) -> bool {
    forall|i: int| 0 <= i < s.len() ==> p(#[trigger] s[i])
}

proof fn lemma_placed_all<T>(s: Seq<T>, x: T, lt: spec_fn(T, T) -> bool, p: spec_fn(T) -> bool)
    requires
        all_of(s, p),
        p(x),
    ensures
        all_of(placed(s, x, lt), p),
    decreases s.len(),
{
    if s.len() > 0 && lt(x, s.last()) {
        assert(p(s[s.len() - 1]));
        assert(all_of(s.drop_last(), p)) by {
            assert forall|i: int| 0 <= i < s.drop_last().len() implies p(
                #[trigger] s.drop_last()[i],
            ) by {
                assert(p(s[i]));
            }
        }
        lemma_placed_all(s.drop_last(), x, lt, p);
    }
}

/// Sorting brings in nothing new.
pub proof fn lemma_sort_all<T>(s: Seq<T>, lt: spec_fn(T, T) -> bool, p: spec_fn(T) -> bool)
    requires
        all_of(s, p),
    ensures
        all_of(stable_sort(s, lt), p),
    decreases s.len(),
{
    if s.len() > 0 {
        assert(p(s[s.len() - 1]));
        assert(all_of(s.drop_last(), p)) by {
            assert forall|i: int| 0 <= i < s.drop_last().len() implies p(
                #[trigger] s.drop_last()[i],
            ) by {
                assert(p(s[i]));
            }
        }
        lemma_sort_all(s.drop_last(), lt, p);
        lemma_placed_all(stable_sort(s.drop_last(), lt), s.last(), lt, p);
    }
}

/// Everything kept passes.
pub proof fn lemma_filter_all<T>(s: Seq<T>, p: spec_fn(T) -> bool)
    ensures
        all_of(s.filter(p), p),
    decreases s.len(),
{
    if s.len() > 0 {
        lemma_filter_all(s.drop_last(), p);
        assert(s =~= s.drop_last().push(s.last()));
        crate::text::lemma_filter_push(s.drop_last(), p, s.last());
    } else {
        reveal(Seq::filter);
    }
}

proof fn lemma_placed_filter<T>(s: Seq<T>, x: T, lt: spec_fn(T, T) -> bool, p: spec_fn(T) -> bool)
    requires
        forall|a: T, b: T| p(a) && p(b) ==> !#[trigger] lt(a, b),
    ensures
        placed(s, x, lt).filter(p) == s.push(x).filter(p),
    decreases s.len(),
{
    if s.len() > 0 && lt(x, s.last()) {
        let t = s.drop_last();
        lemma_placed_filter(t, x, lt, p);
        crate::text::lemma_filter_push(placed(t, x, lt), p, s.last());
        crate::text::lemma_filter_push(t, p, x);
        crate::text::lemma_filter_push(t, p, s.last());
        assert(s =~= t.push(s.last()));
        crate::text::lemma_filter_push(s, p, x);
    }
}

/// Sorting is stable: elements of which none comes before another stay in the
/// order they came.
pub proof fn sorting_is_stable<T>(s: Seq<T>, lt: spec_fn(T, T) -> bool, p: spec_fn(T) -> bool)
    requires
        forall|a: T, b: T| p(a) && p(b) ==> !#[trigger] lt(a, b),
    ensures
        stable_sort(s, lt).filter(p) == s.filter(p),
    decreases s.len(),
{
    if s.len() > 0 {
        let t = s.drop_last();
        sorting_is_stable(t, lt, p);
        lemma_placed_filter(stable_sort(t, lt), s.last(), lt, p);
        crate::text::lemma_filter_push(stable_sort(t, lt), p, s.last());
        crate::text::lemma_filter_push(t, p, s.last());
        assert(s =~= t.push(s.last()));
    }
}

// --- lists seen through their elements' views --------------------------------------

proof fn lemma_placed_maps<A, B>(
    s: Seq<A>,
    x: A,
    f: spec_fn(A) -> B,
    lt: spec_fn(A, A) -> bool,
    lt_seen: spec_fn(B, B) -> bool,
)
    requires
        forall|a: A, b: A| #[trigger] lt(a, b) == lt_seen(f(a), f(b)),
    ensures
        placed(s, x, lt).map_values(f) == placed(s.map_values(f), f(x), lt_seen),
    decreases s.len(),
{
    let seen = s.map_values(f);
    if s.len() > 0 && lt(x, s.last()) {
        let t = s.drop_last();
        lemma_placed_maps(t, x, f, lt, lt_seen);
        assert(seen.drop_last() =~= t.map_values(f));
        assert(placed(t, x, lt).push(s.last()).map_values(f) =~= placed(t, x, lt).map_values(
            f,
        ).push(f(s.last())));
    } else {
        assert(s.push(x).map_values(f) =~= seen.push(f(x)));
        if s.len() > 0 {
            assert(!lt(x, s.last()));
        }
    }
}

/// Sorting does not look past what the order sees.
pub proof fn lemma_sort_maps<A, B>(
    s: Seq<A>,
    f: spec_fn(A) -> B,
    lt: spec_fn(A, A) -> bool,
    lt_seen: spec_fn(B, B) -> bool,
)
    requires
        forall|a: A, b: A| #[trigger] lt(a, b) == lt_seen(f(a), f(b)),
    ensures
        stable_sort(s, lt).map_values(f) == stable_sort(s.map_values(f), lt_seen),
    decreases s.len(),
{
    if s.len() > 0 {
        lemma_sort_maps(s.drop_last(), f, lt, lt_seen);
        lemma_placed_maps(stable_sort(s.drop_last(), lt), s.last(), f, lt, lt_seen);
        assert(s.map_values(f).drop_last() =~= s.drop_last().map_values(f));
    } else {
        assert(s.map_values(f) =~= Seq::empty());
    }
}

/// Filtering does not look past what the condition sees.
pub proof fn lemma_filter_maps<A, B>(
    s: Seq<A>,
    f: spec_fn(A) -> B,
    p: spec_fn(A) -> bool,
    p_seen: spec_fn(B) -> bool,
)
    requires
        forall|a: A| #[trigger] p(a) == p_seen(f(a)),
    ensures
        s.filter(p).map_values(f) == s.map_values(f).filter(p_seen),
    decreases s.len(),
{
    if s.len() > 0 {
        let t = s.drop_last();
        lemma_filter_maps(t, f, p, p_seen);
        assert(s =~= t.push(s.last()));
        assert(s.map_values(f) =~= t.map_values(f).push(f(s.last())));
        crate::text::lemma_filter_push(t, p, s.last());
        crate::text::lemma_filter_push(t.map_values(f), p_seen, f(s.last()));
        assert(t.filter(p).push(s.last()).map_values(f) =~= t.filter(p).map_values(f).push(
            f(s.last()),
        ));
    } else {
        reveal(Seq::filter);
        assert(s.filter(p).map_values(f) =~= s.map_values(f).filter(p_seen));
    }
}

// --- lists with one element per key ------------------------------------------------

/// No two elements have the same key.
pub open spec fn distinct<T, K>(s: Seq<T>, key: spec_fn(T) -> K) -> bool {
    forall|i: int, j: int| 0 <= i < j < s.len() ==> key(#[trigger] s[i]) != key(#[trigger] s[j])
}

proof fn lemma_filter_from<T>(s: Seq<T>, p: spec_fn(T) -> bool, i: int)
    requires
        0 <= i < s.filter(p).len(),
    ensures
        s.contains(s.filter(p)[i]),
{
    s.lemma_filter_contains_rev(p, s.filter(p)[i]);
}

pub proof fn lemma_distinct_filter<T, K>(s: Seq<T>, key: spec_fn(T) -> K, p: spec_fn(T) -> bool)
    requires
        distinct(s, key),
    ensures
        distinct(s.filter(p), key),
    decreases s.len(),
{
    if s.len() == 0 {
        reveal(Seq::filter);
    } else {
        let t = s.drop_last();
        assert(s =~= t.push(s.last()));
        lemma_distinct_filter(t, key, p);
        crate::text::lemma_filter_push(t, p, s.last());
        let f = t.filter(p);
        let g = s.filter(p);
        assert forall|i: int, j: int| 0 <= i < j < g.len() implies key(#[trigger] g[i]) != key(
            #[trigger] g[j],
        ) by {
            if j < f.len() {
                assert(key(f[i]) != key(f[j]));
            } else {
                lemma_filter_from(t, p, i);
                let k = choose|k: int| 0 <= k < t.len() && t[k] == f[i];
                assert(key(s[k]) != key(s[s.len() - 1]));
            }
        }
    }
}

/// An element of another key than the rest can stand before them.
pub proof fn lemma_distinct_leader<T, K>(m: T, rest: Seq<T>, key: spec_fn(T) -> K)
    requires
        distinct(rest, key),
        forall|i: int| 0 <= i < rest.len() ==> key(#[trigger] rest[i]) != key(m),
    ensures
        distinct(seq![m] + rest, key),
{
    let all = seq![m] + rest;
    assert forall|i: int, j: int| 0 <= i < j < all.len() implies key(#[trigger] all[i]) != key(
        #[trigger] all[j],
    ) by {
        assert(all[j] == rest[j - 1]);
        if i > 0 {
            assert(all[i] == rest[i - 1]);
        }
    }
}

proof fn lemma_distinct_placed<T, K>(
    u: Seq<T>,
    x: T,
    key: spec_fn(T) -> K,
    lt: spec_fn(T, T) -> bool,
)
    requires
        distinct(u, key),
        forall|i: int| 0 <= i < u.len() ==> key(#[trigger] u[i]) != key(x),
    ensures
        distinct(placed(u, x, lt), key),
        forall|i: int|
            0 <= i < placed(u, x, lt).len() ==> (#[trigger] placed(u, x, lt)[i]) == x
                || u.contains(placed(u, x, lt)[i]),
    decreases u.len(),
{
    if u.len() > 0 && lt(x, u.last()) {
        let t = u.drop_last();
        lemma_distinct_placed(t, x, key, lt);
        let q = placed(t, x, lt);
        let r = placed(u, x, lt);
        assert forall|i: int| 0 <= i < r.len() implies (#[trigger] r[i]) == x || u.contains(
            r[i],
        ) by {
            if i < q.len() {
                assert(r[i] == q[i]);
                if q[i] != x {
                    let k = choose|k: int| 0 <= k < t.len() && t[k] == q[i];
                    assert(u[k] == r[i]);
                }
            } else {
                assert(u[u.len() - 1] == r[i]);
            }
        }
        assert forall|i: int, j: int| 0 <= i < j < r.len() implies key(#[trigger] r[i]) != key(
            #[trigger] r[j],
        ) by {
            if j < q.len() {
                assert(key(q[i]) != key(q[j]));
            } else {
                assert(r[i] == q[i]);
                if q[i] != x {
                    let k = choose|k: int| 0 <= k < t.len() && t[k] == q[i];
                    assert(key(u[k]) != key(u[u.len() - 1]));
                }
            }
        }
    } else {
        let r = u.push(x);
        assert forall|i: int| 0 <= i < r.len() implies (#[trigger] r[i]) == x || u.contains(
            r[i],
        ) by {
            if i < u.len() {
                assert(u[i] == r[i]);
            }
        }
    }
}

pub proof fn lemma_distinct_sort<T, K>(s: Seq<T>, key: spec_fn(T) -> K, lt: spec_fn(T, T) -> bool)
    requires
        distinct(s, key),
    ensures
        distinct(stable_sort(s, lt), key),
        forall|i: int|
            0 <= i < stable_sort(s, lt).len() ==> s.contains(#[trigger] stable_sort(s, lt)[i]),
    decreases s.len(),
{
    if s.len() > 0 {
        let t = s.drop_last();
        lemma_distinct_sort(t, key, lt);
        let u = stable_sort(t, lt);
        assert forall|i: int| 0 <= i < u.len() implies key(#[trigger] u[i]) != key(s.last()) by {
            assert(t.contains(u[i]));
            let k = choose|k: int| 0 <= k < t.len() && t[k] == u[i];
            assert(key(s[k]) != key(s[s.len() - 1]));
        }
        lemma_distinct_placed(u, s.last(), key, lt);
        let r = stable_sort(s, lt);
        assert forall|i: int| 0 <= i < r.len() implies s.contains(#[trigger] r[i]) by {
            if r[i] == s.last() {
                assert(s[s.len() - 1] == r[i]);
            } else {
                assert(u.contains(r[i]));
                let j = choose|j: int| 0 <= j < u.len() && u[j] == r[i];
                assert(t.contains(u[j]));
                let k = choose|k: int| 0 <= k < t.len() && t[k] == r[i];
                assert(s[k] == r[i]);
            }
        }
    }
}

proof fn lemma_placed_behind<T>(s: Seq<T>, x: T, lt: spec_fn(T, T) -> bool)
    requires
        s.len() > 0,
        !lt(x, s[0]),
    ensures
        placed(s, x, lt).len() == s.len() + 1,
        placed(s, x, lt)[0] == s[0],
    decreases s.len(),
{
    if lt(x, s.last()) {
        lemma_placed_behind(s.drop_last(), x, lt);
    }
}

/// A first element that nothing goes before stays first.
pub proof fn lemma_leader_stays<T>(m: T, rest: Seq<T>, lt: spec_fn(T, T) -> bool)
    requires
        forall|i: int| 0 <= i < rest.len() ==> !lt(#[trigger] rest[i], m),
    ensures
        stable_sort(seq![m] + rest, lt).len() == rest.len() + 1,
        stable_sort(seq![m] + rest, lt)[0] == m,
    decreases rest.len(),
{
    let all = seq![m] + rest;
    if rest.len() == 0 {
        assert(all.drop_last() =~= Seq::empty());
        assert(all.last() == m);
        reveal_with_fuel(stable_sort, 2);
    } else {
        let t = rest.drop_last();
        assert(all.drop_last() =~= seq![m] + t);
        assert(all.last() == rest.last());
        assert(!lt(rest[rest.len() - 1], m));
        lemma_leader_stays(m, t, lt);
        lemma_placed_behind(stable_sort(seq![m] + t, lt), rest.last(), lt);
    }
}

// --- the first of each key ---------------------------------------------------------

/// A tag on the elements of a list, by which two of them are the same.
pub trait Tag<T> {
    spec fn tag(&self, x: T) -> u64;

    fn tag_of(&self, x: &T) -> (r: u64)
        ensures
            r == self.tag(*x),
    ;
}

/// Some element has the key.
pub open spec fn has_key<T, K>(s: Seq<T>, key: spec_fn(T) -> K, k: K) -> bool {
    exists|i: int| 0 <= i < s.len() && key(#[trigger] s[i]) == k
}

/// The elements that come first of their key.
pub open spec fn firsts<T, K>(s: Seq<T>, key: spec_fn(T) -> K) -> Seq<T>
    decreases s.len(),
{
    if s.len() == 0 {
        s
    } else {
        let before = firsts(s.drop_last(), key);
        if has_key(s.drop_last(), key, key(s.last())) {
            before
        } else {
            before.push(s.last())
        }
    }
}

fn holds_tag(tags: &Vec<u64>, t: u64) -> (r: bool)
    ensures
        r == tags@.contains(t),
{
    let mut i: usize = 0;
    while i < tags.len()
        invariant
            i <= tags.len(),
            forall|k: int| 0 <= k < i ==> tags@[k] != t,
        decreases tags.len() - i,
    {
        if tags[i] == t {
            return true;
        }
        i += 1;
    }
    false
}

/// The elements that come first of their tag, in the order they came.
pub fn unique<T, G: Tag<T>>(v: Vec<T>, g: &G) -> (r: Vec<T>)
    ensures
        r@ == firsts(v@, |x: T| g.tag(x)),
{
    let ghost key = |x: T| g.tag(x);
    let ghost all = v@;
    let mut tags: Vec<u64> = Vec::new();
    let mut out: Vec<T> = Vec::new();
    assert(all.take(0) =~= out@);
    for x in it: v
        invariant
            it.seq() == all,
            key == (|x: T| g.tag(x)),
            tags@.len() == it.index(),
            forall|k: int| 0 <= k < it.index() ==> tags@[k] == key(#[trigger] all[k]),
            out@ == firsts(all.take(it.index()), key),
    {
        let ghost i = it.index();
        let t = g.tag_of(&x);
        proof {
            let before = all.take(i);
            assert(all.take(i + 1).drop_last() =~= before);
            assert(all.take(i + 1).last() == x);
            if tags@.contains(t) {
                let k = choose|k: int| 0 <= k < tags@.len() && tags@[k] == t;
                assert(key(before[k]) == t) by {
                    assert(before[k] == all[k]);
                }
            }
            if has_key(before, key, key(x)) {
                let k = choose|k: int| 0 <= k < before.len() && key(#[trigger] before[k]) == key(x);
                assert(before[k] == all[k]);
                assert(tags@[k] == t);
            }
        }
        if !holds_tag(&tags, t) {
            out.push(x);
        }
        tags.push(t);
    }
    assert(all.take(all.len() as int) =~= all);
    out
}

/// The firsts of a list are one per key, and every key of the list is among
/// them.
pub proof fn firsts_are_distinct<T, K>(s: Seq<T>, key: spec_fn(T) -> K, k: K)
    ensures
        distinct(firsts(s, key), key),
        has_key(firsts(s, key), key, k) == has_key(s, key, k),
        firsts(s, key).len() <= s.len(),
    decreases s.len(),
{
    if s.len() > 0 {
        let t = s.drop_last();
        let last = key(s.last());
        firsts_are_distinct(t, key, k);
        firsts_are_distinct(t, key, last);
        let f = firsts(t, key);
        let g = firsts(s, key);
        if has_key(t, key, k) {
            let i = choose|i: int| 0 <= i < t.len() && key(#[trigger] t[i]) == k;
            assert(key(s[i]) == k);
        }
        if last == k {
            assert(key(s[s.len() - 1]) == k);
        }
        if has_key(s, key, k) {
            let i = choose|i: int| 0 <= i < s.len() && key(#[trigger] s[i]) == k;
            if i < t.len() {
                assert(key(t[i]) == k);
            }
        }
        if !has_key(t, key, last) {
            assert forall|i: int, j: int| 0 <= i < j < g.len() implies key(#[trigger] g[i]) != key(
                #[trigger] g[j],
            ) by {
                if j < f.len() {
                    assert(key(f[i]) != key(f[j]));
                } else {
                    assert(key(f[i]) == key(g[i]));
                    if key(g[i]) == last {
                        assert(has_key(f, key, last));
                    }
                }
            }
            if has_key(f, key, k) {
                let i = choose|i: int| 0 <= i < f.len() && key(#[trigger] f[i]) == k;
                assert(key(g[i]) == k);
            }
            if last == k {
                assert(key(g[f.len() as int]) == k);
            }
            if has_key(g, key, k) {
                let i = choose|i: int| 0 <= i < g.len() && key(#[trigger] g[i]) == k;
                if i < f.len() {
                    assert(key(f[i]) == k);
                }
            }
        }
    }
}

/// The firsts of an ordered list are in order, and all of them are its own.
pub proof fn lemma_firsts_in_order<T, K>(
    s: Seq<T>,
    key: spec_fn(T) -> K,
    lt: spec_fn(T, T) -> bool,
    p: spec_fn(T) -> bool,
)
    requires
        in_order(s, lt),
        all_of(s, p),
    ensures
        in_order(firsts(s, key), lt),
        all_of(firsts(s, key), p),
        forall|i: int|
            0 <= i < firsts(s, key).len() ==> s.contains(#[trigger] firsts(s, key)[i]),
    decreases s.len(),
{
    if s.len() > 0 {
        let t = s.drop_last();
        assert(in_order(t, lt)) by {
            assert forall|i: int, j: int| 0 <= i < j < t.len() implies !lt(
                #[trigger] t[j],
                #[trigger] t[i],
            ) by {
                assert(!lt(s[j], s[i]));
            }
        }
        assert(all_of(t, p)) by {
            assert forall|i: int| 0 <= i < t.len() implies p(#[trigger] t[i]) by {
                assert(p(s[i]));
            }
        }
        lemma_firsts_in_order(t, key, lt, p);
        let f = firsts(t, key);
        let g = firsts(s, key);
        assert(p(s[s.len() - 1]));
        assert forall|i: int| 0 <= i < g.len() implies s.contains(#[trigger] g[i]) by {
            if i < f.len() {
                assert(t.contains(f[i]));
                let k = choose|k: int| 0 <= k < t.len() && t[k] == f[i];
                assert(s[k] == g[i]);
            } else {
                assert(s[s.len() - 1] == g[i]);
            }
        }
        assert forall|i: int, j: int| 0 <= i < j < g.len() implies !lt(
            #[trigger] g[j],
            #[trigger] g[i],
        ) by {
            if j < f.len() {
                assert(!lt(f[j], f[i]));
            } else {
                assert(t.contains(f[i]));
                let k = choose|k: int| 0 <= k < t.len() && t[k] == f[i];
                assert(!lt(s[s.len() - 1], s[k]));
            }
        }
    }
}

/// In a sorted list, no element comes before the first of its key.
pub proof fn lemma_firsts_lead<T, K>(s: Seq<T>, key: spec_fn(T) -> K, lt: spec_fn(T, T) -> bool)
    requires
        is_order(lt),
        in_order(s, lt),
    ensures
        forall|i: int, j: int|
            0 <= i < firsts(s, key).len() && 0 <= j < s.len() && key(#[trigger] s[j]) == key(
                #[trigger] firsts(s, key)[i],
            ) ==> !lt(s[j], firsts(s, key)[i]),
    decreases s.len(),
{
    if s.len() > 0 {
        let t = s.drop_last();
        let n = t.len() as int;
        assert(in_order(t, lt)) by {
            assert forall|i: int, j: int| 0 <= i < j < t.len() implies !lt(
                #[trigger] t[j],
                #[trigger] t[i],
            ) by {
                assert(!lt(s[j], s[i]));
            }
        }
        lemma_firsts_lead(t, key, lt);
        lemma_firsts_in_order(t, key, lt, |x: T| true);
        let f = firsts(t, key);
        let g = firsts(s, key);
        assert forall|i: int, j: int|
            0 <= i < g.len() && 0 <= j < s.len() && key(#[trigger] s[j]) == key(
                #[trigger] g[i],
            ) implies !lt(s[j], g[i]) by {
            if i < f.len() {
                assert(t.contains(f[i]));
                let k = choose|k: int| 0 <= k < t.len() && t[k] == f[i];
                if j < n {
                    assert(key(t[j]) == key(f[i]));
                } else {
                    assert(!lt(s[n], s[k]));
                }
            } else if j < n {
                assert(key(t[j]) == key(s.last()));
            }
        }
    }
}

/// Two keys that tell the same elements apart give the same firsts.
pub proof fn lemma_firsts_keys<T, K, L>(s: Seq<T>, key: spec_fn(T) -> K, other: spec_fn(T) -> L)
    requires
        forall|a: T, b: T| #![trigger key(a), key(b)] (key(a) == key(b)) == (other(a) == other(b)),
    ensures
        firsts(s, key) == firsts(s, other),
    decreases s.len(),
{
    if s.len() > 0 {
        let t = s.drop_last();
        let x = s.last();
        lemma_firsts_keys(t, key, other);
        if has_key(t, key, key(x)) {
            let i = choose|i: int| 0 <= i < t.len() && key(#[trigger] t[i]) == key(x);
            assert(other(t[i]) == other(x));
        }
        if has_key(t, other, other(x)) {
            let i = choose|i: int| 0 <= i < t.len() && other(#[trigger] t[i]) == other(x);
            assert(key(t[i]) == key(x));
        }
    }
}

/// Taking the firsts does not look past what the key sees.
pub proof fn lemma_firsts_map<A, B, K>(
    s: Seq<A>,
    f: spec_fn(A) -> B,
    key: spec_fn(A) -> K,
    key_seen: spec_fn(B) -> K,
)
    requires
        forall|a: A| #[trigger] key(a) == key_seen(f(a)),
    ensures
        firsts(s, key).map_values(f) == firsts(s.map_values(f), key_seen),
    decreases s.len(),
{
    if s.len() > 0 {
        let t = s.drop_last();
        lemma_firsts_map(t, f, key, key_seen);
        let seen = s.map_values(f);
        assert(seen.drop_last() =~= t.map_values(f));
        let k = key(s.last());
        if has_key(t, key, k) {
            let i = choose|i: int| 0 <= i < t.len() && key(#[trigger] t[i]) == k;
            assert(key_seen(t.map_values(f)[i]) == k);
        }
        if has_key(t.map_values(f), key_seen, k) {
            let i = choose|i: int|
                0 <= i < t.len() && key_seen(#[trigger] t.map_values(f)[i]) == k;
            assert(key(t[i]) == k);
        }
        assert(firsts(t, key).push(s.last()).map_values(f) =~= firsts(t, key).map_values(f).push(
            f(s.last()),
        ));
    } else {
        assert(s.map_values(f) =~= Seq::empty());
    }
}

// --- from one list to another -------------------------------------------------------

/// What each element of a list becomes, where it becomes anything.
pub trait Narrow<A, B: View> {
    spec fn result(&self, a: A) -> Option<B::V>;

    fn narrow(&self, a: A) -> (r: Option<B>)
        ensures
            match r {
                Some(b) => self.result(a) == Some(b@),
                None => self.result(a) is None,
            },
    ;
}

/// What is seen of each element.
pub open spec fn views<B: View>(s: Seq<B>) -> Seq<B::V> {
    s.map_values(|b: B| b@)
}

/// What the elements become, in the order they came.
pub open spec fn chosen<A, V>(s: Seq<A>, f: spec_fn(A) -> Option<V>) -> Seq<V>
    decreases s.len(),
{
    if s.len() == 0 {
        Seq::empty()
    } else {
        let before = chosen(s.drop_last(), f);
        match f(s.last()) {
            Some(v) => before.push(v),
            None => before,
        }
    }
}

/// What the elements become, in the order they came.
pub fn through<A, B: View, N: Narrow<A, B>>(v: Vec<A>, n: &N) -> (r: Vec<B>)
    ensures
        views(r@) == chosen(v@, |a: A| n.result(a)),
{
    let ghost f = |a: A| n.result(a);
    let ghost all = v@;
    let mut out: Vec<B> = Vec::new();
    assert(views(out@) =~= chosen(all.take(0), f));
    for x in it: v
        invariant
            it.seq() == all,
            f == (|a: A| n.result(a)),
            views(out@) == chosen(all.take(it.index()), f),
    {
        let ghost i = it.index();
        assert(all.take(i + 1).drop_last() =~= all.take(i));
        assert(all.take(i + 1).last() == x);
        let ghost before = views(out@);
        match n.narrow(x) {
            Some(b) => {
                out.push(b);
                assert(views(out@) =~= before.push(b@));
            },
            None => {},
        }
    }
    assert(all.take(all.len() as int) =~= all);
    out
}

/// Where every element becomes something, all of them are there.
pub proof fn lemma_chosen_all<A, V>(s: Seq<A>, f: spec_fn(A) -> Option<V>, g: spec_fn(A) -> V)
    requires
        forall|a: A| #[trigger] f(a) == Some(g(a)),
    ensures
        chosen(s, f) == s.map_values(g),
    decreases s.len(),
{
    if s.len() > 0 {
        lemma_chosen_all(s.drop_last(), f, g);
        assert(s.map_values(g) =~= s.drop_last().map_values(g).push(g(s.last())));
    } else {
        assert(s.map_values(g) =~= Seq::empty());
    }
}

} // verus!
