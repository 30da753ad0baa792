//! The grouping engine: a single pass over an ordered sequence of visits
//! produces groups keyed by country name or by year of arrival. Groups are
//! ordered by ascending lexicographic key; within a group the rows keep the
//! input order. Nothing is dropped, duplicated or deduplicated.

use vstd::prelude::*;
use crate::country::{Visit, VisitV};
use crate::date::{four_digit_chars, year_to_string};
use crate::lex::{lemma_lex_trans, lemma_lex_trichotomy, lex_lt, str_lt};

verus! {

/// The mathematical value of a `Group`: its key and the rows under it.
#[verifier::ext_equal]
pub ghost struct GroupV {
    pub key: Seq<char>,
    pub rows: Seq<VisitV>,
}

/// One group of the result: a key and the visits that fall under it,
/// in input order.
pub struct Group {
    pub key: String,
    pub rows: Vec<Visit>,
}

impl View for Group {
    type V = GroupV;

    open spec fn view(&self) -> GroupV {
        GroupV { key: self.key@, rows: self.rows@.map_values(|v: Visit| v@) }
    }
}

/// The views of a sequence of visits.
pub open spec fn visit_views(vs: Seq<Visit>) -> Seq<VisitV> {
    vs.map_values(|v: Visit| v@)
}

/// The views of a sequence of groups.
pub open spec fn group_views(gs: Seq<Group>) -> Seq<GroupV> {
    gs.map_values(|g: Group| g@)
}

/// The key of the grouping by country: the visit's country name.
pub open spec fn country_key() -> spec_fn(VisitV) -> Seq<char> {
    |v: VisitV| v.country.name
}

/// The key of the grouping by year of arrival: the year's four digits.
pub open spec fn year_key() -> spec_fn(VisitV) -> Seq<char> {
    |v: VisitV| four_digit_chars(v.start.year as nat)
}

/// Holds of a visit whose key under `key_of` is `k`.
pub open spec fn key_pred(key_of: spec_fn(VisitV) -> Seq<char>, k: Seq<char>) -> spec_fn(
    VisitV,
) -> bool {
    |v: VisitV| key_of(v) == k
}

/// The subsequence of `input`, in order, whose key under `key_of` is `k`.
pub open spec fn key_filter(
    input: Seq<VisitV>,
    key_of: spec_fn(VisitV) -> Seq<char>,
    k: Seq<char>,
) -> Seq<VisitV> {
    input.filter(key_pred(key_of, k))
}

/// Some group carries the key `k`.
pub open spec fn groups_have_key(groups: Seq<GroupV>, k: Seq<char>) -> bool {
    exists|g: int| 0 <= g < groups.len() && (#[trigger] groups[g]).key == k
}

/// What the grouping engine produces: groups in strictly ascending key order,
/// each nonempty group holding exactly the input visits with its key in input
/// order, and a group for the key of every input visit.
pub open spec fn grouping_of(
    input: Seq<VisitV>,
    groups: Seq<GroupV>,
    key_of: spec_fn(VisitV) -> Seq<char>,
) -> bool {
    &&& (forall|i: int, j: int|
        0 <= i < j < groups.len() ==> lex_lt(
            (#[trigger] groups[i]).key,
            (#[trigger] groups[j]).key,
        ))
    &&& (forall|g: int|
        0 <= g < groups.len() ==> (#[trigger] groups[g]).rows == key_filter(
            input,
            key_of,
            groups[g].key,
        ))
    &&& (forall|g: int| 0 <= g < groups.len() ==> (#[trigger] groups[g]).rows.len() > 0)
    &&& (forall|i: int|
        0 <= i < input.len() ==> groups_have_key(groups, key_of(#[trigger] input[i])))
}

/// The total number of rows across all groups.
pub open spec fn sum_rows(groups: Seq<GroupV>) -> nat
    decreases groups.len(),
{
    if groups.len() == 0 {
        0
    } else {
        groups[0].rows.len() + sum_rows(groups.skip(1))
    }
}

/// Filtering after appending one element: the element joins the filtered
/// sequence exactly when it satisfies the predicate.
pub(crate) proof fn lemma_filter_push<A>(s: Seq<A>, pred: spec_fn(A) -> bool, x: A)
    ensures
        pred(x) ==> (s.push(x)).filter(pred) == s.filter(pred).push(x),
        !pred(x) ==> (s.push(x)).filter(pred) == s.filter(pred),
{
    reveal(Seq::filter);
    assert((s.push(x)).drop_last() =~= s);
    assert((s.push(x)).last() == x);
}

/// A sequence none of whose elements satisfies the predicate filters to the
/// empty sequence.
pub(crate) proof fn lemma_filter_all_false<A>(s: Seq<A>, pred: spec_fn(A) -> bool)
    requires
        forall|i: int| 0 <= i < s.len() ==> !pred(s[i]),
    ensures
        s.filter(pred) == Seq::<A>::empty(),
    decreases s.len(),
{
    reveal(Seq::filter);
    if s.len() > 0 {
        assert(forall|i: int| 0 <= i < s.drop_last().len() ==> s.drop_last()[i] == s[i]);
        lemma_filter_all_false(s.drop_last(), pred);
        assert(!pred(s.last()));
    }
}

/// Groups with no rows sum to no rows.
proof fn lemma_sum_rows_zero(groups: Seq<GroupV>)
    requires
        forall|g: int| 0 <= g < groups.len() ==> (#[trigger] groups[g]).rows.len() == 0,
    ensures
        sum_rows(groups) == 0,
    decreases groups.len(),
{
    if groups.len() > 0 {
        assert(forall|j: int|
            0 <= j < groups.skip(1).len() ==> #[trigger] groups.skip(1)[j] == groups[j + 1]);
        lemma_sum_rows_zero(groups.skip(1));
    }
}

/// The sum of rows depends only on the row counts.
proof fn lemma_sum_rows_pointwise(g1: Seq<GroupV>, g2: Seq<GroupV>)
    requires
        g1.len() == g2.len(),
        forall|j: int| 0 <= j < g1.len() ==> (#[trigger] g1[j]).rows.len() == g2[j].rows.len(),
    ensures
        sum_rows(g1) == sum_rows(g2),
    decreases g1.len(),
{
    if g1.len() > 0 {
        assert(forall|j: int| 0 <= j < g1.skip(1).len() ==> #[trigger] g1.skip(1)[j] == g1[j + 1]);
        assert(forall|j: int| 0 <= j < g2.skip(1).len() ==> #[trigger] g2.skip(1)[j] == g2[j + 1]);
        lemma_sum_rows_pointwise(g1.skip(1), g2.skip(1));
    }
}

/// One more row in exactly one group makes the sum one larger.
proof fn lemma_sum_rows_bump(g1: Seq<GroupV>, g2: Seq<GroupV>, t: int)
    requires
        g1.len() == g2.len(),
        0 <= t < g1.len(),
        forall|j: int|
            0 <= j < g1.len() && j != t ==> (#[trigger] g1[j]).rows.len() == g2[j].rows.len(),
        g2[t].rows.len() == g1[t].rows.len() + 1,
    ensures
        sum_rows(g2) == sum_rows(g1) + 1,
    decreases g1.len(),
{
    assert(forall|j: int| 0 <= j < g1.skip(1).len() ==> #[trigger] g1.skip(1)[j] == g1[j + 1]);
    assert(forall|j: int| 0 <= j < g2.skip(1).len() ==> #[trigger] g2.skip(1)[j] == g2[j + 1]);
    if t == 0 {
        lemma_sum_rows_pointwise(g1.skip(1), g2.skip(1));
    } else {
        lemma_sum_rows_bump(g1.skip(1), g2.skip(1), t - 1);
    }
}

/// Groups with distinct keys whose rows are the key filters of the input,
/// one group for each key the input uses, hold the input exactly once over.
proof fn lemma_sum_filters(
    input: Seq<VisitV>,
    groups: Seq<GroupV>,
    key_of: spec_fn(VisitV) -> Seq<char>,
)
    requires
        forall|i: int, j: int|
            0 <= i < j < groups.len() ==> (#[trigger] groups[i]).key != (#[trigger] groups[j]).key,
        forall|g: int|
            0 <= g < groups.len() ==> (#[trigger] groups[g]).rows == key_filter(
                input,
                key_of,
                groups[g].key,
            ),
        forall|i: int|
            0 <= i < input.len() ==> groups_have_key(groups, key_of(#[trigger] input[i])),
    ensures
        sum_rows(groups) == input.len(),
    decreases input.len(),
{
    if input.len() == 0 {
        assert forall|g: int| 0 <= g < groups.len() implies (#[trigger] groups[g]).rows.len() == 0
        by {
            lemma_filter_all_false(input, key_pred(key_of, groups[g].key));
        }
        lemma_sum_rows_zero(groups);
    } else {
        let init = input.drop_last();
        let last = input.last();
        assert(input =~= init.push(last));
        let groups2 = Seq::new(
            groups.len(),
            |g: int| GroupV { key: groups[g].key, rows: key_filter(init, key_of, groups[g].key) },
        );
        assert(groups_have_key(groups, key_of(input[input.len() - 1])));
        let t = choose|g: int|
            0 <= g < groups.len() && (#[trigger] groups[g]).key == key_of(input[input.len() - 1]);
        assert(groups[t].key == key_of(last));
        assert forall|g: int|
            0 <= g < groups.len() && g != t implies (#[trigger] groups[g]).key != key_of(last) by {
            if g < t {
                assert(groups[g].key != groups[t].key);
            }
        }
        assert forall|g: int| 0 <= g < groups.len() implies (#[trigger] groups[g]).rows
            == if g == t {
            groups2[g].rows.push(last)
        } else {
            groups2[g].rows
        } by {
            lemma_filter_push(init, key_pred(key_of, groups[g].key), last);
            assert(key_filter(input, key_of, groups[g].key) == key_filter(
                init.push(last),
                key_of,
                groups[g].key,
            ));
        }
        assert forall|i: int| 0 <= i < init.len() implies groups_have_key(
            groups2,
            key_of(#[trigger] init[i]),
        ) by {
            assert(init[i] == input[i]);
            let g0 = choose|g: int|
                0 <= g < groups.len() && (#[trigger] groups[g]).key == key_of(input[i]);
            assert(0 <= g0 < groups2.len() && groups2[g0].key == key_of(init[i]));
        }
        lemma_sum_filters(init, groups2, key_of);
        lemma_sum_rows_bump(groups2, groups, t);
    }
}

/// Grouping completeness: the rows across all groups of a grouping are
/// exactly as many as the input visits — none dropped, none duplicated.
pub proof fn lemma_grouping_complete(
    input: Seq<VisitV>,
    groups: Seq<GroupV>,
    key_of: spec_fn(VisitV) -> Seq<char>,
)
    requires
        grouping_of(input, groups, key_of),
    ensures
        sum_rows(groups) == input.len(),
{
    assert forall|i: int, j: int| 0 <= i < j < groups.len() implies (#[trigger] groups[i]).key != (
    #[trigger] groups[j]).key by {
        lemma_lex_trichotomy(groups[i].key, groups[j].key);
    }
    lemma_sum_filters(input, groups, key_of);
}

/// Appending a visit whose key already has a group extends that group's rows
/// by the visit and changes nothing else.
proof fn lemma_insert_existing(
    input: Seq<VisitV>,
    ov: Seq<GroupV>,
    key_of: spec_fn(VisitV) -> Seq<char>,
    t: int,
    x: VisitV,
)
    requires
        grouping_of(input, ov, key_of),
        0 <= t < ov.len(),
        ov[t].key == key_of(x),
    ensures
        grouping_of(
            input.push(x),
            ov.update(t, GroupV { key: ov[t].key, rows: ov[t].rows.push(x) }),
            key_of,
        ),
{
    let nv = ov.update(t, GroupV { key: ov[t].key, rows: ov[t].rows.push(x) });
    assert(nv.len() == ov.len());
    assert(forall|j: int| 0 <= j < nv.len() ==> (#[trigger] nv[j]).key == ov[j].key);
    assert forall|g: int| 0 <= g < nv.len() implies (#[trigger] nv[g]).rows == key_filter(
        input.push(x),
        key_of,
        nv[g].key,
    ) by {
        lemma_filter_push(input, key_pred(key_of, ov[g].key), x);
        if g != t {
            if g < t {
                lemma_lex_trichotomy(ov[g].key, ov[t].key);
            } else {
                lemma_lex_trichotomy(ov[t].key, ov[g].key);
            }
            assert(ov[g].key != key_of(x));
        }
    }
    assert forall|i: int| 0 <= i < input.push(x).len() implies groups_have_key(
        nv,
        key_of(#[trigger] input.push(x)[i]),
    ) by {
        if i < input.len() {
            assert(input.push(x)[i] == input[i]);
            assert(groups_have_key(ov, key_of(input[i])));
            let g0 = choose|g: int| 0 <= g < ov.len() && (#[trigger] ov[g]).key == key_of(input[i]);
            assert(0 <= g0 < nv.len() && nv[g0].key == key_of(input[i]));
        } else {
            assert(input.push(x)[i] == x);
            assert(0 <= t < nv.len() && nv[t].key == key_of(x));
        }
    }
}

/// Appending a visit with a fresh key makes a new one-row group at the
/// position that keeps the keys sorted, and changes nothing else.
proof fn lemma_insert_new(
    input: Seq<VisitV>,
    ov: Seq<GroupV>,
    key_of: spec_fn(VisitV) -> Seq<char>,
    t: int,
    x: VisitV,
    k: Seq<char>,
)
    requires
        grouping_of(input, ov, key_of),
        0 <= t <= ov.len(),
        key_of(x) == k,
        forall|j: int| 0 <= j < t ==> lex_lt((#[trigger] ov[j]).key, k),
        forall|j: int| t <= j < ov.len() ==> lex_lt(k, (#[trigger] ov[j]).key),
    ensures
        grouping_of(input.push(x), ov.insert(t, GroupV { key: k, rows: seq![x] }), key_of),
{
    let nv = ov.insert(t, GroupV { key: k, rows: seq![x] });
    assert(nv.len() == ov.len() + 1);
    assert forall|j: int| 0 <= j < ov.len() implies (#[trigger] ov[j]).key != k by {
        if j < t {
            lemma_lex_trichotomy(ov[j].key, k);
        } else {
            lemma_lex_trichotomy(k, ov[j].key);
        }
    }
    // index layout of the inserted sequence
    assert(forall|j: int| 0 <= j < t ==> #[trigger] nv[j] == ov[j]);
    assert(nv[t] == (GroupV { key: k, rows: seq![x] }));
    assert(forall|j: int| t < j < nv.len() ==> #[trigger] nv[j] == ov[j - 1]);
    // no input visit carries the fresh key
    assert forall|i: int| 0 <= i < input.len() implies key_of(#[trigger] input[i]) != k by {
        assert(groups_have_key(ov, key_of(input[i])));
        let g0 = choose|g: int| 0 <= g < ov.len() && (#[trigger] ov[g]).key == key_of(input[i]);
    }
    assert forall|i: int| 0 <= i < input.len() implies !(key_pred(key_of, k)(#[trigger] input[i])) by {}
    lemma_filter_all_false(input, key_pred(key_of, k));
    lemma_filter_push(input, key_pred(key_of, k), x);
    assert(key_filter(input.push(x), key_of, k) =~= seq![x]);
    // sortedness
    assert forall|i: int, j: int| 0 <= i < j < nv.len() implies lex_lt(
        (#[trigger] nv[i]).key,
        (#[trigger] nv[j]).key,
    ) by {
        if i < t && j > t {
            assert(lex_lt(nv[i].key, ov[j - 1].key));
        } else if i == t && j > t {
            assert(lex_lt(k, ov[j - 1].key));
        } else if i < t && j == t {
            assert(lex_lt(ov[i].key, k));
        }
    }
    // each group holds exactly the input visits with its key
    assert forall|g: int| 0 <= g < nv.len() implies (#[trigger] nv[g]).rows == key_filter(
        input.push(x),
        key_of,
        nv[g].key,
    ) by {
        if g != t {
            let og = if g < t { g } else { g - 1 };
            lemma_filter_push(input, key_pred(key_of, ov[og].key), x);
            assert(ov[og].key != k);
        }
    }
    // every key of the longer input has a group
    assert forall|i: int| 0 <= i < input.push(x).len() implies groups_have_key(
        nv,
        key_of(#[trigger] input.push(x)[i]),
    ) by {
        if i < input.len() {
            assert(input.push(x)[i] == input[i]);
            assert(groups_have_key(ov, key_of(input[i])));
            let g0 = choose|g: int| 0 <= g < ov.len() && (#[trigger] ov[g]).key == key_of(input[i]);
            let g1 = if g0 < t { g0 } else { g0 + 1 };
            assert(0 <= g1 < nv.len() && nv[g1].key == key_of(input[i]));
        } else {
            assert(input.push(x)[i] == x);
            assert(0 <= t < nv.len() && nv[t].key == key_of(x));
        }
    }
}

/// Inserts one visit, whose key string is `key`, into a grouping in progress.
fn insert_visit(
    groups: &mut Vec<Group>,
    key: String,
    v: Visit,
    Ghost(input): Ghost<Seq<VisitV>>,
    Ghost(key_of): Ghost<spec_fn(VisitV) -> Seq<char>>,
)
    requires
        grouping_of(input, group_views(old(groups)@), key_of),
        key_of(v@) == key@,
    ensures
        grouping_of(input.push(v@), group_views(final(groups)@), key_of),
{
    let ghost ov = group_views(groups@);
    let mut i: usize = 0;
    while i < groups.len() && str_lt(groups[i].key.as_str(), key.as_str())
        invariant
            i <= groups@.len(),
            *groups == *old(groups),
            ov == group_views(groups@),
            forall|j: int| 0 <= j < i as int ==> lex_lt((#[trigger] ov[j]).key, key@),
        decreases groups@.len() - i,
    {
        proof {
            assert(ov[i as int].key == groups@[i as int]@.key);
        }
        i = i + 1;
    }
    if i < groups.len() && groups[i].key == key {
        proof {
            assert(ov[i as int].key == key@);
        }
        let mut g = groups.remove(i);
        g.rows.push(v);
        groups.insert(i, g);
        proof {
            let nv = group_views(groups@);
            assert forall|j: int| 0 <= j < nv.len() implies nv[j] == ov.update(
                i as int,
                GroupV { key: ov[i as int].key, rows: ov[i as int].rows.push(v@) },
            )[j] by {
                if j == i as int {
                    assert(nv[j].rows =~= ov[i as int].rows.push(v@));
                    assert(nv[j] =~= ov.update(
                        i as int,
                        GroupV { key: ov[i as int].key, rows: ov[i as int].rows.push(v@) },
                    )[j]);
                }
            }
            assert(nv =~= ov.update(
                i as int,
                GroupV { key: ov[i as int].key, rows: ov[i as int].rows.push(v@) },
            ));
            lemma_insert_existing(input, ov, key_of, i as int, v@);
        }
    } else {
        proof {
            if i < groups@.len() {
                assert(ov[i as int].key != key@);
                lemma_lex_trichotomy(ov[i as int].key, key@);
                assert(lex_lt(key@, ov[i as int].key));
                assert forall|j: int| i as int <= j < ov.len() implies lex_lt(
                    key@,
                    (#[trigger] ov[j]).key,
                ) by {
                    if j > i as int {
                        lemma_lex_trans(key@, ov[i as int].key, ov[j].key);
                    }
                }
            }
        }
        let mut rows: Vec<Visit> = Vec::new();
        rows.push(v);
        groups.insert(i, Group { key, rows });
        proof {
            let nv = group_views(groups@);
            let fresh = GroupV { key: key@, rows: seq![v@] };
            assert forall|j: int| 0 <= j < nv.len() implies nv[j] == ov.insert(i as int, fresh)[j]
            by {
                if j == i as int {
                    assert(nv[j].rows =~= seq![v@]);
                    assert(nv[j] =~= fresh);
                }
            }
            assert(nv =~= ov.insert(i as int, fresh));
            lemma_insert_new(input, ov, key_of, i as int, v@, key@);
        }
    }
}

/// Groups the visits by country name: one pass over the input, groups in
/// ascending key order, rows in input order, every visit in exactly the
/// group of its own country name.
pub fn group_by_country(visits: &Vec<Visit>) -> (r: Vec<Group>)
    ensures
        grouping_of(visit_views(visits@), group_views(r@), country_key()),
        sum_rows(group_views(r@)) == visits@.len(),
{
    let mut groups: Vec<Group> = Vec::new();
    proof {
        assert(group_views(groups@) =~= Seq::<GroupV>::empty());
        assert(visit_views(visits@.take(0)) =~= Seq::<VisitV>::empty());
    }
    let mut n: usize = 0;
    while n < visits.len()
        invariant
            n <= visits@.len(),
            grouping_of(visit_views(visits@.take(n as int)), group_views(groups@), country_key()),
        decreases visits@.len() - n,
    {
        let key = visits[n].country.name.clone();
        let v = visits[n].clone();
        proof {
            assert(v@ == visits@[n as int]@);
            assert(country_key()(v@) == key@);
        }
        insert_visit(
            &mut groups,
            key,
            v,
            Ghost(visit_views(visits@.take(n as int))),
            Ghost(country_key()),
        );
        proof {
            assert(visit_views(visits@.take(n as int + 1)) =~= visit_views(
                visits@.take(n as int),
            ).push(visits@[n as int]@));
        }
        n = n + 1;
    }
    proof {
        assert(visits@.take(visits@.len() as int) =~= visits@);
        lemma_grouping_complete(visit_views(visits@), group_views(groups@), country_key());
    }
    groups
}

/// Groups the visits by year of arrival, the year written as four digits:
/// one pass, groups in ascending key order (numeric order of years), rows in
/// input order, every visit in exactly the group of its arrival year.
pub fn group_by_year(visits: &Vec<Visit>) -> (r: Vec<Group>)
    requires
        forall|k: int| 0 <= k < visits@.len() ==> (#[trigger] visits@[k]).start.year <= 9999,
    ensures
        grouping_of(visit_views(visits@), group_views(r@), year_key()),
        sum_rows(group_views(r@)) == visits@.len(),
{
    let mut groups: Vec<Group> = Vec::new();
    proof {
        assert(group_views(groups@) =~= Seq::<GroupV>::empty());
        assert(visit_views(visits@.take(0)) =~= Seq::<VisitV>::empty());
    }
    let mut n: usize = 0;
    while n < visits.len()
        invariant
            n <= visits@.len(),
            forall|k: int| 0 <= k < visits@.len() ==> (#[trigger] visits@[k]).start.year <= 9999,
            grouping_of(visit_views(visits@.take(n as int)), group_views(groups@), year_key()),
        decreases visits@.len() - n,
    {
        let key = year_to_string(&visits[n].start);
        let v = visits[n].clone();
        proof {
            assert(v@ == visits@[n as int]@);
            assert(year_key()(v@) == key@);
        }
        insert_visit(
            &mut groups,
            key,
            v,
            Ghost(visit_views(visits@.take(n as int))),
            Ghost(year_key()),
        );
        proof {
            assert(visit_views(visits@.take(n as int + 1)) =~= visit_views(
                visits@.take(n as int),
            ).push(visits@[n as int]@));
        }
        n = n + 1;
    }
    proof {
        assert(visits@.take(visits@.len() as int) =~= visits@);
        lemma_grouping_complete(visit_views(visits@), group_views(groups@), year_key());
    }
    groups
}

} // verus!
