//! Facts about sequences.

use vstd::prelude::*;

verus! {

/// An item is among what comes of a sequence just where it comes of one of its items.
pub proof fn lemma_filter_map_member<A, B>(s: Seq<A>, f: spec_fn(A) -> Option<B>, b: B)
    ensures
        s.filter_map(f).contains(b) <==> exists|a: A| #[trigger] s.contains(a) && f(a) == Some(b),
    decreases s.len(),
{
    let all = s.filter_map(f);
    if all.contains(b) {
        s.lemma_filter_map_contains(f, b);
    }
    if exists|a: A| #[trigger] s.contains(a) && f(a) == Some(b) {
        let a = choose|a: A| #[trigger] s.contains(a) && f(a) == Some(b);
        let k = choose|k: int| 0 <= k < s.len() && s[k] == a;
        let n = s.len() - 1;
        let init = s.drop_last();
        let before = init.filter_map(f);
        lemma_filter_map_member(init, f, b);
        assert(s.take(n) =~= init);
        assert(s.take(n + 1) =~= s);
        s.lemma_filter_map_take_succ(f, n);
        if k < n {
            assert(init[k] == a);
            assert(init.contains(a));
            let i = choose|i: int| 0 <= i < before.len() && before[i] == b;
            assert(all[i] == b);
        } else {
            assert(all[before.len() as int] == b);
        }
    }
}

/// An item is among what comes of a sequence just where it is among what comes of one of its items.
pub proof fn lemma_flat_map_member<A, B>(s: Seq<A>, f: spec_fn(A) -> Seq<B>, b: B)
    ensures
        s.flat_map(f).contains(b) <==> exists|i: int|
            0 <= i < s.len() && f(#[trigger] s[i]).contains(b),
    decreases s.len(),
{
    let all = s.flat_map(f);
    if s.len() == 0 {
        assert(s =~= Seq::empty());
        assert(all =~= Seq::empty());
    } else {
        let n = s.len() - 1;
        let init = s.drop_last();
        let before = init.flat_map(f);
        let behind = f(s[n]);
        lemma_flat_map_member(init, f, b);
        assert(s.take(n) =~= init);
        assert(s.take(n + 1) =~= s);
        s.lemma_flat_map_take_append(f, n);
        assert(all =~= before + behind);
        lemma_in_sum(before, behind, b);
        if before.contains(b) {
            let i = choose|i: int| 0 <= i < init.len() && f(#[trigger] init[i]).contains(b);
            assert(f(s[i]).contains(b));
        }
        if exists|i: int| 0 <= i < s.len() && f(#[trigger] s[i]).contains(b) {
            let i = choose|i: int| 0 <= i < s.len() && f(#[trigger] s[i]).contains(b);
            if i < n {
                assert(f(init[i]).contains(b));
            }
        }
    }
}

/// An item is in two sequences in a row just where it is in one of them.
pub proof fn lemma_in_sum<A>(a: Seq<A>, b: Seq<A>, x: A)
    ensures
        (a + b).contains(x) <==> a.contains(x) || b.contains(x),
{
    let all = a + b;
    if all.contains(x) {
        let i = choose|i: int| 0 <= i < all.len() && all[i] == x;
        if i < a.len() {
            assert(a[i] == x);
        } else {
            assert(b[i - a.len()] == x);
        }
    }
    if a.contains(x) {
        let i = choose|i: int| 0 <= i < a.len() && a[i] == x;
        assert(all[i] == x);
    }
    if b.contains(x) {
        let i = choose|i: int| 0 <= i < b.len() && b[i] == x;
        assert(all[a.len() + i] == x);
    }
}

/// What comes of two sequences in a row is what comes of each of them, in a row.
pub proof fn lemma_filter_map_add<A, B>(a: Seq<A>, b: Seq<A>, f: spec_fn(A) -> Option<B>)
    ensures
        (a + b).filter_map(f) == a.filter_map(f) + b.filter_map(f),
    decreases b.len(),
{
    if b.len() == 0 {
        assert(a + b =~= a);
        assert(b =~= Seq::empty());
        assert(b.filter_map(f) =~= Seq::empty());
        assert(a.filter_map(f) + b.filter_map(f) =~= a.filter_map(f));
    } else {
        let all = a + b;
        let n = b.len() - 1;
        let init = b.drop_last();
        lemma_filter_map_add(a, init, f);
        assert(all.take(a.len() + n) =~= a + init);
        assert(all.take(a.len() + n + 1) =~= all);
        assert(b.take(n) =~= init);
        assert(b.take(n + 1) =~= b);
        all.lemma_filter_map_take_succ(f, a.len() + n);
        b.lemma_filter_map_take_succ(f, n);
        assert(all.filter_map(f) =~= a.filter_map(f) + b.filter_map(f));
    }
}

/// What comes of two sequences in a row is what comes of each of them, in a row.
pub proof fn lemma_flat_map_add<A, B>(a: Seq<A>, b: Seq<A>, f: spec_fn(A) -> Seq<B>)
    ensures
        (a + b).flat_map(f) == a.flat_map(f) + b.flat_map(f),
    decreases b.len(),
{
    if b.len() == 0 {
        assert(a + b =~= a);
        assert(b =~= Seq::empty());
        assert(b.flat_map(f) =~= Seq::empty());
        assert(a.flat_map(f) + b.flat_map(f) =~= a.flat_map(f));
    } else {
        let all = a + b;
        let n = b.len() - 1;
        let init = b.drop_last();
        lemma_flat_map_add(a, init, f);
        assert(all.take(a.len() + n) =~= a + init);
        assert(all.take(a.len() + n + 1) =~= all);
        assert(b.take(n) =~= init);
        assert(b.take(n + 1) =~= b);
        all.lemma_flat_map_take_append(f, a.len() + n);
        b.lemma_flat_map_take_append(f, n);
        assert(all.flat_map(f) =~= a.flat_map(f) + b.flat_map(f));
    }
}

/// What comes of one item is what comes of the sequence of it.
pub proof fn lemma_flat_map_one<A, B>(a: A, f: spec_fn(A) -> Seq<B>)
    ensures
        seq![a].flat_map(f) == f(a),
{
    let s = seq![a];
    assert(s.take(0) =~= Seq::empty());
    assert(s.take(1) =~= s);
    s.lemma_flat_map_take_append(f, 0);
    assert(s.take(0).flat_map(f) =~= Seq::empty());
    assert(s.flat_map(f) =~= f(a));
}

} // verus!
