use vstd::prelude::*;
use vstd::multiset::Multiset;
use crate::impg::{Impg, IntervalIndex, QueryInterval, QueryMetadata, SerializableInterval, iv_triple, index_items, touching, snapshot_of, rebuilt_from, lemma_item_in_range};

verus! {

broadcast use vstd::seq_lib::group_to_multiset_ensures, vstd::multiset::group_multiset_axioms;

/// Mapping a function over two sequences that hold the same elements, counted
/// with multiplicity, gives two sequences that again hold the same elements.
pub proof fn lemma_map_keeps_multiset<A, B>(x: Seq<A>, y: Seq<A>, f: spec_fn(A) -> B)
    requires
        x.to_multiset() == y.to_multiset(),
    ensures
        x.map_values(f).to_multiset() == y.map_values(f).to_multiset(),
    decreases x.len(),
{
    if x.len() == 0 {
        assert(x.to_multiset().len() == 0);
        assert(y.to_multiset().len() == 0);
        assert(y.len() == 0);
        assert(x.map_values(f) =~= Seq::<B>::empty());
        assert(y.map_values(f) =~= Seq::<B>::empty());
    } else {
        let a = x[0];
        assert(x.to_multiset().count(a) > 0);
        assert(y.contains(a));
        let j = choose|j: int| 0 <= j < y.len() && y[j] == a;
        let x1 = x.remove(0);
        let y1 = y.remove(j);
        assert(x1.to_multiset() == x.to_multiset().remove(a));
        assert(y1.to_multiset() == y.to_multiset().remove(a));
        lemma_map_keeps_multiset(x1, y1, f);
        let mx = x.map_values(f);
        let my = y.map_values(f);
        assert(mx.remove(0) =~= x1.map_values(f));
        assert(my.remove(j) =~= y1.map_values(f));
        assert(mx.to_multiset().remove(f(a)) == x1.map_values(f).to_multiset());
        assert(my.to_multiset().remove(f(a)) == y1.map_values(f).to_multiset());
        assert(mx.to_multiset().count(f(a)) > 0) by {
            assert(mx[0] == f(a));
            assert(mx.contains(f(a)));
        }
        assert(my.to_multiset().count(f(a)) > 0) by {
            assert(my[j] == f(a));
            assert(my.contains(f(a)));
        }
        assert(mx.to_multiset() =~= my.to_multiset()) by {
            assert forall|v: B| mx.to_multiset().count(v) == my.to_multiset().count(v) by {
                if v == f(a) {
                    assert(mx.to_multiset().remove(f(a)).count(v) == mx.to_multiset().count(v) - 1);
                    assert(my.to_multiset().remove(f(a)).count(v) == my.to_multiset().count(v) - 1);
                } else {
                    assert(mx.to_multiset().remove(f(a)).count(v) == mx.to_multiset().count(v));
                    assert(my.to_multiset().remove(f(a)).count(v) == my.to_multiset().count(v));
                }
            }
        }
    }
}

pub open spec fn interval_of(t: (int, int, u32)) -> QueryInterval {
    QueryInterval { first: t.0 as i32, last: t.1 as i32, metadata: t.2 }
}

/// Two answers to the same range of one index hold the same intervals, in
/// whatever order the tree handed them out.
pub proof fn lemma_answers_agree(index: IntervalIndex, s: i32, e: i32, a: Seq<QueryInterval>, b: Seq<QueryInterval>)
    requires
        index.answers_range(s, e, a),
        index.answers_range(s, e, b),
    ensures
        a.to_multiset() == b.to_multiset(),
{
    let ha = choose|hits: Seq<(i32, i32, u32)>|
        #[trigger] hits.to_multiset() == index_items(index.entries@).filter(touching(s, e))
            && a.map_values(|q: QueryInterval| iv_triple(q)) == index.hit_answers(hits, s, e);
    let hb = choose|hits: Seq<(i32, i32, u32)>|
        #[trigger] hits.to_multiset() == index_items(index.entries@).filter(touching(s, e))
            && b.map_values(|q: QueryInterval| iv_triple(q)) == index.hit_answers(hits, s, e);
    let g = |h: (i32, i32, u32)| index.entries@[h.2 as int].answer(s, e);
    lemma_map_keeps_multiset(ha, hb, g);
    let ta = a.map_values(|q: QueryInterval| iv_triple(q));
    let tb = b.map_values(|q: QueryInterval| iv_triple(q));
    assert(ta.to_multiset() == tb.to_multiset());
    lemma_map_keeps_multiset(ta, tb, |t: (int, int, u32)| interval_of(t));
    assert(ta.map_values(|t: (int, int, u32)| interval_of(t)) =~= a);
    assert(tb.map_values(|t: (int, int, u32)| interval_of(t)) =~= b);
}

/// Every interval that `query` returns is also returned by `query_transitive`
/// for the same input, at least as many times.
pub proof fn lemma_transitive_covers_direct(
    imp: Impg,
    target_id: u32,
    s: i32,
    e: i32,
    direct: Seq<QueryInterval>,
    transitive: Seq<QueryInterval>,
)
    requires
        imp.is_query_result(target_id, s, e, direct),
        imp.is_transitive_result(target_id, s, e, transitive),
    ensures
        direct.to_multiset().subset_of(transitive.to_multiset()),
{
    broadcast use vstd::seq_lib::lemma_multiset_commutative;

    if imp.trees@.contains_key(target_id) {
        let index = imp.trees@[target_id];
        let k = choose|k: int|
            0 <= k && 1 + k <= transitive.len() && #[trigger] index.answers_range(
                s,
                e,
                transitive.subrange(1, 1 + k),
            );
        lemma_answers_agree(index, s, e, direct.drop_first(), transitive.subrange(1, 1 + k));
        assert(direct =~= seq![direct[0]] + direct.drop_first());
        assert(transitive =~= seq![transitive[0]] + transitive.subrange(1, 1 + k) + transitive.subrange(
            1 + k,
            transitive.len() as int,
        ));
    } else {
        assert(direct =~= seq![transitive[0]]);
        assert(transitive =~= seq![transitive[0]] + transitive.drop_first());
    }
}


/// Keeping the elements that satisfy `p` commutes with counting them.
pub proof fn lemma_filter_to_multiset<A>(x: Seq<A>, p: spec_fn(A) -> bool)
    ensures
        x.filter(p).to_multiset() == x.to_multiset().filter(p),
    decreases x.len(),
{
    reveal(Seq::filter);
    if x.len() == 0 {
        assert(x.filter(p) =~= Seq::<A>::empty());
        assert(x.to_multiset().filter(p) =~= Multiset::empty());
    } else {
        let init = x.drop_last();
        let last = x.last();
        lemma_filter_to_multiset(init, p);
        assert(x =~= init.push(last));
        assert(x.to_multiset() == init.to_multiset().insert(last));
        if p(last) {
            assert(x.filter(p) == init.filter(p).push(last));
            assert(x.filter(p).to_multiset() == init.filter(p).to_multiset().insert(last));
        } else {
            assert(x.filter(p) == init.filter(p));
        }
        assert(x.filter(p).to_multiset() =~= x.to_multiset().filter(p));
    }
}

/// Two sequences that agree position by position on which elements are kept
/// and on what those map to give the same filtered, mapped sequence.
pub proof fn lemma_filter_map_pointwise<A, B, C>(
    x: Seq<A>,
    y: Seq<B>,
    p: spec_fn(A) -> bool,
    q: spec_fn(B) -> bool,
    f: spec_fn(A) -> C,
    g: spec_fn(B) -> C,
)
    requires
        x.len() == y.len(),
        forall|m: int| 0 <= m < x.len() ==> p(#[trigger] x[m]) == q(y[m]) && f(x[m]) == g(y[m]),
    ensures
        x.filter(p).map_values(f) == y.filter(q).map_values(g),
    decreases x.len(),
{
    reveal(Seq::filter);
    if x.len() == 0 {
        assert(x.filter(p) =~= Seq::<A>::empty());
        assert(y.filter(q) =~= Seq::<B>::empty());
        assert(x.filter(p).map_values(f) =~= y.filter(q).map_values(g));
    } else {
        let xi = x.drop_last();
        let yi = y.drop_last();
        assert forall|m: int| 0 <= m < xi.len() implies p(#[trigger] xi[m]) == q(yi[m]) && f(xi[m]) == g(yi[m]) by {
            assert(xi[m] == x[m] && yi[m] == y[m]);
        }
        lemma_filter_map_pointwise(xi, yi, p, q, f, g);
        assert(p(x[x.len() - 1]) == q(y[y.len() - 1]));
        if p(x.last()) {
            assert(x.filter(p).map_values(f) =~= xi.filter(p).map_values(f).push(f(x.last())));
            assert(y.filter(q).map_values(g) =~= yi.filter(q).map_values(g).push(g(y.last())));
        } else {
            assert(x.filter(p) == xi.filter(p));
            assert(y.filter(q) == yi.filter(q));
        }
    }
}

/// The items an index over `es` stores, in entry order.
pub open spec fn items_in_order(es: Seq<QueryMetadata>) -> Seq<(i32, i32, u32)> {
    Seq::new(es.len(), |i: int| (es[i].target_start, es[i].target_end, i as u32))
}

pub open spec fn answer_of(es: Seq<QueryMetadata>, s: i32, e: i32) -> spec_fn((i32, i32, u32)) -> (int, int, u32) {
    |h: (i32, i32, u32)| es[h.2 as int].answer(s, e)
}

/// An answer to a range holds, counted with multiplicity, the projections
/// through the touching entries.
proof fn lemma_answers_counted(index: IntervalIndex, s: i32, e: i32, r: Seq<QueryInterval>)
    requires
        index.answers_range(s, e, r),
    ensures
        r.map_values(|q: QueryInterval| iv_triple(q)).to_multiset() == items_in_order(index.entries@).filter(
            touching(s, e),
        ).map_values(answer_of(index.entries@, s, e)).to_multiset(),
{
    let hits = choose|hits: Seq<(i32, i32, u32)>|
        #[trigger] hits.to_multiset() == index_items(index.entries@).filter(touching(s, e))
            && r.map_values(|q: QueryInterval| iv_triple(q)) == index.hit_answers(hits, s, e);
    let items = items_in_order(index.entries@);
    lemma_filter_to_multiset(items, touching(s, e));
    lemma_map_keeps_multiset(hits, items.filter(touching(s, e)), answer_of(index.entries@, s, e));
    assert(index.hit_answers(hits, s, e) =~= hits.map_values(answer_of(index.entries@, s, e)));
}

proof fn lemma_back_to_intervals(a: Seq<QueryInterval>, b: Seq<QueryInterval>)
    requires
        a.map_values(|q: QueryInterval| iv_triple(q)).to_multiset() == b.map_values(
            |q: QueryInterval| iv_triple(q),
        ).to_multiset(),
    ensures
        a.to_multiset() == b.to_multiset(),
{
    let ta = a.map_values(|q: QueryInterval| iv_triple(q));
    let tb = b.map_values(|q: QueryInterval| iv_triple(q));
    lemma_map_keeps_multiset(ta, tb, |t: (int, int, u32)| interval_of(t));
    assert(ta.map_values(|t: (int, int, u32)| interval_of(t)) =~= a);
    assert(tb.map_values(|t: (int, int, u32)| interval_of(t)) =~= b);
}

/// Taking a snapshot of an index and rebuilding from it gives an index that
/// answers every `query` with the same intervals, counted with multiplicity.
pub proof fn lemma_snapshot_round_trip(
    indexed: Impg,
    snapshot: Seq<(u32, Vec<SerializableInterval>)>,
    restored: Impg,
    target_id: u32,
    s: i32,
    e: i32,
    a: Seq<QueryInterval>,
    b: Seq<QueryInterval>,
)
    requires
        indexed.wf(),
        indexed.snapshot_taken(snapshot),
        restored.wf(),
        restored.restored_from(snapshot),
        indexed.is_query_result(target_id, s, e, a),
        restored.is_query_result(target_id, s, e, b),
    ensures
        a.to_multiset() == b.to_multiset(),
{
    broadcast use vstd::seq_lib::lemma_multiset_commutative;

    assert(indexed.trees@.contains_key(target_id) == restored.trees@.contains_key(target_id)) by {
        if indexed.trees@.contains_key(target_id) {
            let n = choose|n: int| 0 <= n < indexed.targets@.len() && indexed.targets@[n] == target_id;
            assert(snapshot[n].0 == target_id);
            assert(rebuilt_from(restored.trees@, snapshot, n));
        }
        if restored.trees@.contains_key(target_id) {
            let n = choose|n: int| 0 <= n < restored.targets@.len() && restored.targets@[n] == target_id;
            assert(snapshot[n].0 == target_id);
            assert(indexed.targets@.contains(target_id));
        }
    }
    if indexed.trees@.contains_key(target_id) {
        let n = choose|n: int| 0 <= n < indexed.targets@.len() && indexed.targets@[n] == target_id;
        assert(snapshot[n].0 == target_id);
        let x = indexed.trees@[target_id];
        let y = restored.trees@[target_id];
        let ivs = snapshot[n].1@;
        assert(snapshot_of(x, ivs));
        assert(rebuilt_from(restored.trees@, snapshot, n));
        let es = x.entries@;
        let fs = y.entries@;
        let c = choose|c: Seq<(i32, i32, u32)>|
            #[trigger] c.to_multiset() == index_items(es) && c.len() == ivs.len() && (forall|m: int|
                0 <= m < ivs.len() ==> ivs[m].first == c[m].0 && ivs[m].last == c[m].1
                    && (#[trigger] ivs[m]).metadata.same(&es[c[m].2 as int]));
        let touch = touching(s, e);
        let ge = answer_of(es, s, e);
        let gf = answer_of(fs, s, e);
        assert forall|m: int| 0 <= m < c.len() implies touch(#[trigger] c[m]) == touch(items_in_order(fs)[m])
            && ge(c[m]) == gf(items_in_order(fs)[m]) by {
            assert(c.to_multiset().count(c[m]) > 0);
            lemma_item_in_range(es, c[m]);
            assert(fs[m].same(&ivs[m].metadata));
        }
        lemma_filter_map_pointwise(c, items_in_order(fs), touch, touch, ge, gf);
        lemma_filter_to_multiset(c, touch);
        lemma_filter_to_multiset(items_in_order(es), touch);
        lemma_map_keeps_multiset(c.filter(touch), items_in_order(es).filter(touch), ge);
        lemma_answers_counted(x, s, e, a.drop_first());
        lemma_answers_counted(y, s, e, b.drop_first());
        lemma_back_to_intervals(a.drop_first(), b.drop_first());
        assert(a =~= seq![a[0]] + a.drop_first());
        assert(b =~= seq![b[0]] + b.drop_first());
    } else {
        assert(a =~= seq![a[0]]);
        assert(b =~= seq![b[0]]);
    }
}

} // verus!
