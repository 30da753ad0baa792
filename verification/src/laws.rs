//! Laws of the grouping engine that span several functions: rows keep the
//! relative input order of their visits, and a grouping of a given input is
//! unique — so grouping the same unmodified input twice yields equal results.

use vstd::prelude::*;
use crate::country::VisitV;
use crate::grouping::{
    grouping_of, groups_have_key, key_filter, key_pred, lemma_filter_push, GroupV,
};
use crate::lex::{lemma_lex_trichotomy, lex_lt};

verus! {

/// Filtering a prefix yields a prefix of the filtered sequence.
proof fn lemma_filter_prefix<A>(s: Seq<A>, pred: spec_fn(A) -> bool, n: int)
    requires
        0 <= n <= s.len(),
    ensures
        s.take(n).filter(pred).len() <= s.filter(pred).len(),
        s.take(n).filter(pred) == s.filter(pred).take(s.take(n).filter(pred).len() as int),
    decreases s.len(),
{
    if n == s.len() {
        assert(s.take(n) =~= s);
        assert(s.filter(pred).take(s.filter(pred).len() as int) =~= s.filter(pred));
    } else {
        let d = s.drop_last();
        assert(s.take(n) =~= d.take(n));
        lemma_filter_prefix(d, pred, n);
        assert(s =~= d.push(s.last()));
        lemma_filter_push(d, pred, s.last());
        let fp = s.take(n).filter(pred);
        assert(s.filter(pred).take(fp.len() as int) =~= d.filter(pred).take(fp.len() as int));
    }
}

/// Where a matching element lands in the filtered sequence: right after the
/// matching elements that precede it.
proof fn lemma_filter_pos<A>(s: Seq<A>, pred: spec_fn(A) -> bool, i: int)
    requires
        0 <= i < s.len(),
        pred(s[i]),
    ensures
        s.take(i).filter(pred).len() < s.filter(pred).len(),
        s.filter(pred)[s.take(i).filter(pred).len() as int] == s[i],
{
    assert(s.take(i + 1) =~= s.take(i).push(s[i]));
    lemma_filter_push(s.take(i), pred, s[i]);
    lemma_filter_prefix(s, pred, i + 1);
    let p = s.take(i).filter(pred).len() as int;
    let f1 = s.take(i + 1).filter(pred);
    assert(f1[p] == s[i]);
    assert(f1 == s.filter(pred).take(f1.len() as int));
    assert(s.filter(pred).take(f1.len() as int)[p] == s.filter(pred)[p]);
}

/// Matching elements keep their relative order under filtering.
proof fn lemma_filter_mono<A>(s: Seq<A>, pred: spec_fn(A) -> bool, i1: int, i2: int)
    requires
        0 <= i1 < i2 < s.len(),
        pred(s[i1]),
        pred(s[i2]),
    ensures
        s.take(i1).filter(pred).len() < s.take(i2).filter(pred).len(),
{
    let st = s.take(i2);
    assert(st.take(i1) =~= s.take(i1));
    assert(st[i1] == s[i1]);
    lemma_filter_pos(st, pred, i1);
}

/// Stable order within a group: two visits with the group's key that stand in
/// the input in a given order stand in the group's rows in that same order.
pub proof fn lemma_stable_order(
    input: Seq<VisitV>,
    groups: Seq<GroupV>,
    key_of: spec_fn(VisitV) -> Seq<char>,
    g: int,
    i1: int,
    i2: int,
)
    requires
        grouping_of(input, groups, key_of),
        0 <= g < groups.len(),
        0 <= i1 < i2 < input.len(),
        key_of(input[i1]) == groups[g].key,
        key_of(input[i2]) == groups[g].key,
    ensures
        exists|p1: int, p2: int|
            #![trigger groups[g].rows[p1], groups[g].rows[p2]]
            0 <= p1 < p2 < groups[g].rows.len() && groups[g].rows[p1] == input[i1]
                && groups[g].rows[p2] == input[i2],
{
    let pred = key_pred(key_of, groups[g].key);
    assert(pred(input[i1]));
    assert(pred(input[i2]));
    lemma_filter_pos(input, pred, i1);
    lemma_filter_pos(input, pred, i2);
    lemma_filter_mono(input, pred, i1, i2);
    let p1 = input.take(i1).filter(pred).len() as int;
    let p2 = input.take(i2).filter(pred).len() as int;
    assert(groups[g].rows == key_filter(input, key_of, groups[g].key));
    assert(0 <= p1 < p2 < groups[g].rows.len() && groups[g].rows[p1] == input[i1]
        && groups[g].rows[p2] == input[i2]);
}

/// A filtered element comes from the sequence and satisfies the predicate.
proof fn lemma_filter_elem<A>(s: Seq<A>, pred: spec_fn(A) -> bool, j: int)
    requires
        0 <= j < s.filter(pred).len(),
    ensures
        exists|i: int| 0 <= i < s.len() && #[trigger] s[i] == s.filter(pred)[j] && pred(s[i]),
    decreases s.len(),
{
    reveal(Seq::filter);
    if s.len() > 0 {
        let d = s.drop_last();
        if pred(s.last()) && j == s.filter(pred).len() - 1 {
            assert(s[s.len() - 1] == s.filter(pred)[j] && pred(s[s.len() - 1]));
        } else {
            lemma_filter_elem(d, pred, j);
            let i0 = choose|i: int|
                0 <= i < d.len() && #[trigger] d[i] == d.filter(pred)[j] && pred(d[i]);
            assert(s[i0] == s.filter(pred)[j] && pred(s[i0]));
        }
    }
}

/// Every key of a grouping is the key of some input visit.
proof fn lemma_group_key_used(
    input: Seq<VisitV>,
    groups: Seq<GroupV>,
    key_of: spec_fn(VisitV) -> Seq<char>,
    g: int,
)
    requires
        grouping_of(input, groups, key_of),
        0 <= g < groups.len(),
    ensures
        exists|i: int| 0 <= i < input.len() && key_of(#[trigger] input[i]) == groups[g].key,
{
    let pred = key_pred(key_of, groups[g].key);
    assert(groups[g].rows == key_filter(input, key_of, groups[g].key));
    assert(input.filter(pred).len() > 0);
    lemma_filter_elem(input, pred, 0);
    let i0 = choose|i: int|
        0 <= i < input.len() && #[trigger] input[i] == input.filter(pred)[0] && pred(input[i]);
    assert(key_of(input[i0]) == groups[g].key);
}

/// Two strictly ascending key sequences with the same membership are equal.
proof fn lemma_sorted_keys_unique(k1: Seq<Seq<char>>, k2: Seq<Seq<char>>)
    requires
        forall|i: int, j: int| 0 <= i < j < k1.len() ==> lex_lt(#[trigger] k1[i], #[trigger] k1[j]),
        forall|i: int, j: int| 0 <= i < j < k2.len() ==> lex_lt(#[trigger] k2[i], #[trigger] k2[j]),
        forall|i: int| 0 <= i < k1.len() ==> k2.contains(#[trigger] k1[i]),
        forall|i: int| 0 <= i < k2.len() ==> k1.contains(#[trigger] k2[i]),
    ensures
        k1 == k2,
    decreases k1.len(),
{
    if k1.len() == 0 {
        if k2.len() > 0 {
            assert(k1.contains(k2[0]));
            assert(false);
        }
        assert(k1 =~= k2);
    } else {
        assert(k2.contains(k1[0]));
        assert(k2.len() > 0);
        let a = choose|i: int| 0 <= i < k2.len() && k2[i] == k1[0];
        let b = choose|i: int| 0 <= i < k1.len() && k1[i] == k2[0];
        if a > 0 && b > 0 {
            assert(lex_lt(k2[0], k2[a]));
            assert(lex_lt(k1[0], k1[b]));
            lemma_lex_trichotomy(k1[0], k2[0]);
            assert(false);
        }
        assert(k1[0] == k2[0]);
        let t1 = k1.skip(1);
        let t2 = k2.skip(1);
        assert(forall|j: int| 0 <= j < t1.len() ==> #[trigger] t1[j] == k1[j + 1]);
        assert(forall|j: int| 0 <= j < t2.len() ==> #[trigger] t2[j] == k2[j + 1]);
        assert forall|i: int| 0 <= i < t1.len() implies t2.contains(#[trigger] t1[i]) by {
            assert(k2.contains(k1[i + 1]));
            let w = choose|j: int| 0 <= j < k2.len() && k2[j] == k1[i + 1];
            lemma_lex_trichotomy(k1[0], k1[i + 1]);
            assert(k2[w] != k2[0]);
            assert(t2[w - 1] == t1[i]);
        }
        assert forall|i: int| 0 <= i < t2.len() implies t1.contains(#[trigger] t2[i]) by {
            assert(k1.contains(k2[i + 1]));
            let w = choose|j: int| 0 <= j < k1.len() && k1[j] == k2[i + 1];
            lemma_lex_trichotomy(k2[0], k2[i + 1]);
            assert(k1[w] != k1[0]);
            assert(t1[w - 1] == t2[i]);
        }
        lemma_sorted_keys_unique(t1, t2);
        assert(k1.len() == k2.len());
        assert forall|i: int| 0 <= i < k1.len() implies k1[i] == k2[i] by {
            if i > 0 {
                assert(t1[i - 1] == t2[i - 1]);
            }
        }
        assert(k1 =~= k2);
    }
}

/// Grouping is a pure function of its input: any two groupings of the same
/// unmodified input under the same key are identical.
pub proof fn lemma_grouping_unique(
    input: Seq<VisitV>,
    gs1: Seq<GroupV>,
    gs2: Seq<GroupV>,
    key_of: spec_fn(VisitV) -> Seq<char>,
)
    requires
        grouping_of(input, gs1, key_of),
        grouping_of(input, gs2, key_of),
    ensures
        gs1 == gs2,
{
    let k1 = Seq::new(gs1.len(), |g: int| gs1[g].key);
    let k2 = Seq::new(gs2.len(), |g: int| gs2[g].key);
    assert forall|i: int| 0 <= i < k1.len() implies k2.contains(#[trigger] k1[i]) by {
        lemma_group_key_used(input, gs1, key_of, i);
        let w = choose|j: int| 0 <= j < input.len() && key_of(#[trigger] input[j]) == gs1[i].key;
        assert(groups_have_key(gs2, key_of(input[w])));
        let g2 = choose|g: int| 0 <= g < gs2.len() && (#[trigger] gs2[g]).key == key_of(input[w]);
        assert(k2[g2] == k1[i]);
    }
    assert forall|i: int| 0 <= i < k2.len() implies k1.contains(#[trigger] k2[i]) by {
        lemma_group_key_used(input, gs2, key_of, i);
        let w = choose|j: int| 0 <= j < input.len() && key_of(#[trigger] input[j]) == gs2[i].key;
        assert(groups_have_key(gs1, key_of(input[w])));
        let g1 = choose|g: int| 0 <= g < gs1.len() && (#[trigger] gs1[g]).key == key_of(input[w]);
        assert(k1[g1] == k2[i]);
    }
    lemma_sorted_keys_unique(k1, k2);
    assert forall|g: int| 0 <= g < gs1.len() implies gs1[g] == gs2[g] by {
        assert(k1[g] == k2[g]);
        assert(gs1[g].key == gs2[g].key);
        assert(gs1[g].rows == key_filter(input, key_of, gs1[g].key));
        assert(gs2[g].rows == key_filter(input, key_of, gs2[g].key));
        assert(gs1[g] =~= gs2[g]);
    }
    assert(gs1 =~= gs2);
}

} // verus!
