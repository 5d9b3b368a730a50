//! The similarity clusterer: a greedy, single-pass, online partition of
//! records into groups of textually similar match contexts.
//!
//! For each incoming record, the existing groups are tried in order of
//! descending member count; a group accepts the record when a bounded random
//! sample of its members contains one whose match context is similar to the
//! record's. The first accepting group in that order receives the record;
//! when none accepts, the record starts a new group, appended at the end of
//! the result, so the result lists groups in creation order.

use vstd::multiset::Multiset;
use vstd::prelude::*;

use crate::similarity::{is_similar, similar_spec};
use crate::snaffler_record::{RecordView, SnafflerRecord};

verus! {

/// Upper bound on the number of members sampled from a group for the
/// acceptance test.
pub const MAX_CHECKED_RECORDS_PER_GROUP: usize = 5;

/// The views of a sequence of records, in order.
pub open spec fn recs_view(s: Seq<SnafflerRecord>) -> Seq<RecordView> {
    Seq::new(s.len(), |i: int| s[i]@)
}

/// The views of a sequence of groups, in order.
pub open spec fn groups_view(gs: Seq<Vec<SnafflerRecord>>) -> Seq<Seq<RecordView>> {
    Seq::new(gs.len(), |i: int| recs_view(gs[i]@))
}

/// Whether `k` appears among the elements of `order`.
pub open spec fn appears(order: Seq<usize>, k: int) -> bool {
    exists|p: int| 0 <= p < order.len() && order[p] == k
}

/// Whether some member of the group has a match context similar to `c`.
pub open spec fn has_similar(g: Seq<RecordView>, c: Seq<char>) -> bool {
    exists|i: int| 0 <= i < g.len() && similar_spec(#[trigger] g[i].match_context, c)
}

/// Whether every member of the group has a match context similar to `c`.
pub open spec fn all_similar(g: Seq<RecordView>, c: Seq<char>) -> bool {
    forall|i: int| 0 <= i < g.len() ==> similar_spec((#[trigger] g[i]).match_context, c)
}

/// Whether every member of the group after the first is similar to some
/// earlier member of the same group.
pub open spec fn similar_chain(g: Seq<RecordView>) -> bool {
    forall|j: int| #![trigger g[j]]
        1 <= j < g.len() ==> exists|i: int|
            0 <= i < j && similar_spec(#[trigger] g[i].match_context, g[j].match_context)
}

/// `sub` is a subsequence of `s`: the members of `sub` appear in `s`, in
/// the same relative order. Matching greedily from the end is complete,
/// so this recursion decides it.
pub open spec fn is_subsequence(sub: Seq<RecordView>, s: Seq<RecordView>) -> bool
    decreases sub.len() + s.len(),
{
    if sub.len() == 0 {
        true
    } else if s.len() == 0 {
        false
    } else if sub.last() == s.last() {
        is_subsequence(sub.drop_last(), s.drop_last())
    } else {
        is_subsequence(sub, s.drop_last())
    }
}

/// The first member of each group — the record that founded it — in group
/// order.
pub open spec fn founders(gs: Seq<Seq<RecordView>>) -> Seq<RecordView> {
    Seq::new(gs.len(), |g: int| gs[g][0])
}

/// All records held by the groups, as a multiset.
pub open spec fn groups_multiset(gs: Seq<Seq<RecordView>>) -> Multiset<RecordView>
    decreases gs.len(),
{
    if gs.len() == 0 {
        Multiset::empty()
    } else {
        groups_multiset(gs.drop_last()).add(gs.last().to_multiset())
    }
}

/// What the clusterer guarantees of its result, for a given input record
/// sequence:
/// - every group is non-empty;
/// - the records of all groups together are exactly the input records,
///   none lost and none duplicated;
/// - within a group, every member after the first is similar to some
///   earlier member of the same group (the member that was sampled when it
///   was accepted);
/// - within a group, the members appear in their relative input (arrival)
///   order: every group is a subsequence of the input;
/// - the groups appear in creation order: the founding records of the
///   groups form a subsequence of the input;
/// - a group was only created because no existing group was certain to
///   accept its first record: every earlier group holds at least one
///   member dissimilar to that first record.
pub open spec fn valid_clustering(input: Seq<RecordView>, gs: Seq<Seq<RecordView>>) -> bool {
    &&& forall|g: int| 0 <= g < gs.len() ==> (#[trigger] gs[g]).len() > 0
    &&& groups_multiset(gs) == input.to_multiset()
    &&& forall|g: int| 0 <= g < gs.len() ==> similar_chain(#[trigger] gs[g])
    &&& forall|g: int| 0 <= g < gs.len() ==> is_subsequence(#[trigger] gs[g], input)
    &&& is_subsequence(founders(gs), input)
    &&& forall|k1: int, k2: int| #![trigger gs[k1], gs[k2]]
        0 <= k1 < k2 < gs.len() ==> !all_similar(gs[k1], gs[k2][0].match_context)
}

/// Appending a singleton group adds exactly its record to the held
/// multiset.
proof fn lemma_groups_multiset_push_new(gs: Seq<Seq<RecordView>>, r: RecordView)
    ensures
        groups_multiset(gs.push(seq![r])) == groups_multiset(gs).insert(r),
{
    broadcast use vstd::seq_lib::group_to_multiset_ensures;

    let gs2 = gs.push(seq![r]);
    assert(gs2.drop_last() =~= gs);
    assert(gs2.last() == seq![r]);
    assert(seq![r] =~= Seq::<RecordView>::empty().push(r));
    assert(seq![r].to_multiset() =~= Multiset::empty().insert(r));
    assert(groups_multiset(gs).add(Multiset::empty().insert(r)) =~= groups_multiset(gs).insert(
        r,
    ));
}

/// Appending a record to one group adds exactly that record to the held
/// multiset.
proof fn lemma_groups_multiset_append(gs: Seq<Seq<RecordView>>, k: int, r: RecordView)
    requires
        0 <= k < gs.len(),
    ensures
        groups_multiset(gs.update(k, gs[k].push(r))) == groups_multiset(gs).insert(r),
    decreases gs.len(),
{
    broadcast use vstd::seq_lib::group_to_multiset_ensures;

    let gs2 = gs.update(k, gs[k].push(r));
    if k == gs.len() - 1 {
        assert(gs2.drop_last() =~= gs.drop_last());
        assert(gs2.last() == gs[k].push(r));
        assert(gs[k].push(r).to_multiset() =~= gs[k].to_multiset().insert(r));
        assert(groups_multiset(gs.drop_last()).add(gs[k].to_multiset().insert(r))
            =~= groups_multiset(gs.drop_last()).add(gs[k].to_multiset()).insert(r));
    } else {
        lemma_groups_multiset_append(gs.drop_last(), k, r);
        assert(gs2.drop_last() =~= gs.drop_last().update(k, gs.drop_last()[k].push(r)));
        assert(gs2.last() == gs.last());
        assert(groups_multiset(gs.drop_last()).insert(r).add(gs.last().to_multiset())
            =~= groups_multiset(gs.drop_last()).add(gs.last().to_multiset()).insert(r));
    }
}

/// The held multiset counts at least as many copies of any record as any
/// single group does.
proof fn lemma_groups_multiset_ge_group(gs: Seq<Seq<RecordView>>, g: int, v: RecordView)
    requires
        0 <= g < gs.len(),
    ensures
        groups_multiset(gs).count(v) >= gs[g].to_multiset().count(v),
    decreases gs.len(),
{
    if g == gs.len() - 1 {
        assert(gs.last() == gs[g]);
    } else {
        lemma_groups_multiset_ge_group(gs.drop_last(), g, v);
        assert(gs.drop_last()[g] == gs[g]);
    }
}

/// Every member of every group is counted in the held multiset.
proof fn lemma_groups_multiset_member(gs: Seq<Seq<RecordView>>, g: int, j: int)
    requires
        0 <= g < gs.len(),
        0 <= j < gs[g].len(),
    ensures
        groups_multiset(gs).count(gs[g][j]) > 0,
{
    broadcast use vstd::seq_lib::group_to_multiset_ensures;

    assert(gs[g].contains(gs[g][j]));
    lemma_groups_multiset_ge_group(gs, g, gs[g][j]);
}

/// A value found at two positions of a sequence is counted at least twice
/// in its multiset.
proof fn lemma_two_positions_count(s: Seq<RecordView>, i: int, j: int)
    requires
        0 <= i < j < s.len(),
        s[i] == s[j],
    ensures
        s.to_multiset().count(s[i]) >= 2,
{
    broadcast use vstd::seq_lib::group_to_multiset_ensures;

    let s2 = s.remove(j);
    assert(s2[i] == s[i]);
    assert(s2.contains(s[i]));
    assert(s2.to_multiset() == s.to_multiset().remove(s[j]));
    assert(s2.to_multiset().count(s[i]) >= 1);
    assert(s.to_multiset().remove(s[j]).count(s[i]) == s.to_multiset().count(s[i]) - 1);
}

/// A subsequence remains one when its own last member is dropped.
proof fn lemma_subsequence_drop_last(sub: Seq<RecordView>, s: Seq<RecordView>)
    requires
        is_subsequence(sub, s),
        sub.len() > 0,
    ensures
        is_subsequence(sub.drop_last(), s),
    decreases s.len(),
{
    if sub.last() == s.last() {
        if sub.drop_last().len() > 0 {
            if sub.drop_last().last() == s.last() {
                lemma_subsequence_drop_last(sub.drop_last(), s.drop_last());
            }
        }
    } else {
        lemma_subsequence_drop_last(sub, s.drop_last());
        if sub.drop_last().len() > 0 && sub.drop_last().last() == s.last() {
            lemma_subsequence_drop_last(sub.drop_last(), s.drop_last());
        }
    }
}

/// A subsequence of `s` is also one of `s` extended by any record.
proof fn lemma_subsequence_extend(sub: Seq<RecordView>, s: Seq<RecordView>, r: RecordView)
    requires
        is_subsequence(sub, s),
    ensures
        is_subsequence(sub, s.push(r)),
{
    assert(s.push(r).drop_last() =~= s);
    if sub.len() > 0 && sub.last() == r {
        lemma_subsequence_drop_last(sub, s);
    }
}

/// A subsequence remains one when the same record is appended to both
/// sequences.
proof fn lemma_subsequence_push_both(sub: Seq<RecordView>, s: Seq<RecordView>, r: RecordView)
    requires
        is_subsequence(sub, s),
    ensures
        is_subsequence(sub.push(r), s.push(r)),
{
    assert(sub.push(r).drop_last() =~= sub);
    assert(s.push(r).drop_last() =~= s);
    assert(sub.push(r).last() == r);
    assert(s.push(r).last() == r);
    assert(is_subsequence(sub.push(r), s.push(r)));
}

/// A subsequence is no longer than its supersequence; one of equal length
/// is the whole sequence.
proof fn lemma_subsequence_length(sub: Seq<RecordView>, s: Seq<RecordView>)
    requires
        is_subsequence(sub, s),
    ensures
        sub.len() <= s.len(),
        sub.len() == s.len() ==> sub == s,
    decreases sub.len() + s.len(),
{
    if sub.len() == 0 {
        if s.len() == 0 {
            assert(sub =~= s);
        }
    } else if sub.last() == s.last() {
        lemma_subsequence_length(sub.drop_last(), s.drop_last());
        if sub.len() == s.len() {
            assert(sub.drop_last() == s.drop_last());
            assert forall|i: int| 0 <= i < sub.len() implies sub[i] == s[i] by {
                if i < sub.len() - 1 {
                    assert(sub.drop_last()[i] == sub[i]);
                    assert(s.drop_last()[i] == s[i]);
                }
            }
            assert(sub =~= s);
        }
    } else {
        lemma_subsequence_length(sub, s.drop_last());
    }
}

/// A chain stays a chain when a record similar to some current member is
/// appended.
proof fn lemma_chain_push(g: Seq<RecordView>, r: RecordView)
    requires
        similar_chain(g),
        has_similar(g, r.match_context),
    ensures
        similar_chain(g.push(r)),
{
    let g1 = g.push(r);
    let i0 = choose|i: int|
        0 <= i < g.len() && similar_spec(#[trigger] g[i].match_context, r.match_context);
    assert(g1[i0] == g[i0]);
    assert(g1[g.len() as int] == r);
    assert forall|j: int| #![trigger g1[j]]
        1 <= j < g1.len() implies exists|i: int|
        0 <= i < j && similar_spec(#[trigger] g1[i].match_context, g1[j].match_context) by {
        if j < g.len() {
            assert(g[j] == g1[j]);
            let iw = choose|i: int|
                0 <= i < j && similar_spec(#[trigger] g[i].match_context, g[j].match_context);
            assert(g1[iw] == g[iw]);
            assert(0 <= iw < j && similar_spec(g1[iw].match_context, g1[j].match_context));
        } else {
            assert(j == g.len());
            assert(0 <= i0 < j && similar_spec(g1[i0].match_context, g1[j].match_context));
        }
    }
    assert(similar_chain(g1));
}

/// A group with a dissimilar member keeps one when a record is appended.
proof fn lemma_not_all_similar_push(g: Seq<RecordView>, r: RecordView, c: Seq<char>)
    requires
        !all_similar(g, c),
    ensures
        !all_similar(g.push(r), c),
{
    let i0 = choose|i: int| 0 <= i < g.len() && !similar_spec((#[trigger] g[i]).match_context, c);
    assert(g.push(r)[i0] == g[i0]);
    assert(!similar_spec(g.push(r)[i0].match_context, c));
}

/// The clustering of no records into no groups is valid.
proof fn lemma_valid_clustering_empty()
    ensures
        valid_clustering(Seq::<RecordView>::empty(), Seq::<Seq<RecordView>>::empty()),
{
    broadcast use vstd::seq_lib::group_to_multiset_ensures;

    assert(Seq::<RecordView>::empty().to_multiset().len() == 0);
    vstd::multiset::lemma_multiset_empty_len::<RecordView>(
        Seq::<RecordView>::empty().to_multiset(),
    );
    assert(Seq::<RecordView>::empty().to_multiset() =~= Multiset::<RecordView>::empty());
    assert(founders(Seq::<Seq<RecordView>>::empty()) =~= Seq::<RecordView>::empty());
}

/// One step of the fold, accepting branch: appending a record that is
/// similar to some current member of group `gi` preserves the clustering
/// guarantees, for the input extended by that record.
#[verifier::spinoff_prover]
proof fn lemma_step_append(
    prefix: Seq<RecordView>,
    gs0: Seq<Seq<RecordView>>,
    gi: int,
    r: RecordView,
)
    requires
        valid_clustering(prefix, gs0),
        0 <= gi < gs0.len(),
        has_similar(gs0[gi], r.match_context),
    ensures
        valid_clustering(prefix.push(r), gs0.update(gi, gs0[gi].push(r))),
{
    broadcast use vstd::seq_lib::group_to_multiset_ensures;

    let gs1 = gs0.update(gi, gs0[gi].push(r));
    lemma_groups_multiset_append(gs0, gi, r);
    assert(groups_multiset(gs1) == prefix.push(r).to_multiset());
    assert forall|g: int| 0 <= g < gs1.len() implies similar_chain(#[trigger] gs1[g]) by {
        if g == gi {
            lemma_chain_push(gs0[gi], r);
        } else {
            assert(gs1[g] == gs0[g]);
        }
    }
    assert forall|k1: int, k2: int| #![trigger gs1[k1], gs1[k2]]
        0 <= k1 < k2 < gs1.len() implies !all_similar(gs1[k1], gs1[k2][0].match_context) by {
        assert(gs0[k2].len() > 0);
        assert(gs1[k2][0] == gs0[k2][0]);
        assert(!all_similar(gs0[k1], gs0[k2][0].match_context));
        if k1 == gi {
            lemma_not_all_similar_push(gs0[k1], r, gs0[k2][0].match_context);
        } else {
            assert(gs1[k1] == gs0[k1]);
        }
    }
    assert forall|g: int|
        0 <= g < gs1.len() implies is_subsequence(#[trigger] gs1[g], prefix.push(r)) by {
        if g == gi {
            assert(gs1[g] == gs0[gi].push(r));
            assert(is_subsequence(gs0[gi], prefix));
            lemma_subsequence_push_both(gs0[gi], prefix, r);
        } else {
            assert(gs1[g] == gs0[g]);
            lemma_subsequence_extend(gs0[g], prefix, r);
        }
    }
    assert(founders(gs1) =~= founders(gs0));
    lemma_subsequence_extend(founders(gs0), prefix, r);
}

/// One step of the fold, new-group branch: when every existing group holds
/// a member dissimilar to the record, appending a new singleton group
/// preserves the clustering guarantees, for the input extended by that
/// record.
#[verifier::spinoff_prover]
proof fn lemma_step_new_group(prefix: Seq<RecordView>, gs0: Seq<Seq<RecordView>>, r: RecordView)
    requires
        valid_clustering(prefix, gs0),
        forall|k: int| 0 <= k < gs0.len() ==> !all_similar(#[trigger] gs0[k], r.match_context),
    ensures
        valid_clustering(prefix.push(r), gs0.push(seq![r])),
{
    broadcast use vstd::seq_lib::group_to_multiset_ensures;

    let gs1 = gs0.push(seq![r]);
    lemma_groups_multiset_push_new(gs0, r);
    assert(groups_multiset(gs1) == prefix.push(r).to_multiset());
    let nl = gs0.len() as int;
    assert(gs1[nl] == seq![r]);
    assert(gs1[nl].len() == 1);
    assert forall|g: int| 0 <= g < gs1.len() implies similar_chain(#[trigger] gs1[g]) by {
        if g < nl {
            assert(gs1[g] == gs0[g]);
        } else {
            assert(gs1[g].len() == 1);
        }
    }
    assert forall|k1: int, k2: int| #![trigger gs1[k1], gs1[k2]]
        0 <= k1 < k2 < gs1.len() implies !all_similar(gs1[k1], gs1[k2][0].match_context) by {
        assert(gs1[k1] == gs0[k1]);
        if k2 == nl {
            assert(gs1[k2][0] == r);
            assert(!all_similar(gs0[k1], r.match_context));
        } else {
            assert(gs1[k2][0] == gs0[k2][0]);
        }
    }
    assert forall|g: int|
        0 <= g < gs1.len() implies is_subsequence(#[trigger] gs1[g], prefix.push(r)) by {
        if g < nl {
            assert(gs1[g] == gs0[g]);
            lemma_subsequence_extend(gs0[g], prefix, r);
        } else {
            assert(gs1[g] == seq![r]);
            assert(seq![r] =~= Seq::<RecordView>::empty().push(r));
            lemma_subsequence_push_both(Seq::<RecordView>::empty(), prefix, r);
        }
    }
    assert(founders(gs1) =~= founders(gs0).push(r));
    lemma_subsequence_push_both(founders(gs0), prefix, r);
}

/// Relies on rand::seq::index::sample (with rand::thread_rng): it draws
/// exactly `amount` distinct indices from `0..length`, in random order, and
/// panics when `amount > length`.
#[verifier::external_body]
fn sample_indices(length: usize, amount: usize) -> (idx: Vec<usize>)
    requires
        amount <= length,
    ensures
        idx@.len() == amount,
        forall|q: int| 0 <= q < idx@.len() ==> #[trigger] idx@[q] < length,
        forall|p: int, q: int| 0 <= p < q < idx@.len() ==> idx@[p] != idx@[q],
{
    rand::seq::index::sample(&mut rand::thread_rng(), length, amount).into_vec()
}

/// The acceptance test of one group for one candidate match context: a
/// uniformly random sample, without replacement, of at most
/// `MAX_CHECKED_RECORDS_PER_GROUP` members is drawn, and the candidate is
/// accepted when its context is similar to the context of any sampled
/// member.
///
/// An accepted candidate is similar to some member; a candidate similar to
/// every member is always accepted, whatever the sample — in particular,
/// against a group of at most `MAX_CHECKED_RECORDS_PER_GROUP` members with
/// an identical context the test is exhaustive, not probabilistic.
#[verifier::loop_isolation(false)]
fn group_accepts(group: &Vec<SnafflerRecord>, context: &str) -> (r: bool)
    requires
        group@.len() > 0,
    ensures
        r ==> has_similar(recs_view(group@), context@),
        all_similar(recs_view(group@), context@) ==> r,
{
    let ghost gv = recs_view(group@);
    let n = if group.len() < MAX_CHECKED_RECORDS_PER_GROUP {
        group.len()
    } else {
        MAX_CHECKED_RECORDS_PER_GROUP
    };
    let idx = sample_indices(group.len(), n);
    let mut p: usize = 0;
    let mut hit = false;
    while p < idx.len()
        invariant
            p <= idx@.len(),
            hit ==> has_similar(gv, context@),
            !hit ==> forall|q: int|
                0 <= q < p ==> !similar_spec(
                    gv[#[trigger] idx@[q] as int].match_context,
                    context@,
                ),
        decreases idx@.len() - p,
    {
        if !hit {
            let gi = idx[p];
            if is_similar(group[gi].match_context.as_str(), context) {
                proof {
                    assert(gv[gi as int].match_context == group@[gi as int]@.match_context);
                    assert(similar_spec(gv[gi as int].match_context, context@));
                }
                hit = true;
            } else {
                proof {
                    assert(gv[gi as int].match_context == group@[gi as int]@.match_context);
                    assert(!similar_spec(gv[gi as int].match_context, context@));
                }
            }
        }
        p += 1;
    }
    proof {
        if !hit {
            assert(!similar_spec(gv[idx@[0] as int].match_context, context@));
            assert(!all_similar(gv, context@));
        }
    }
    hit
}

/// The order in which the groups are searched for one incoming record:
/// every group index exactly once, by descending member count, ties in
/// creation order.
#[verifier::spinoff_prover]
#[verifier::loop_isolation(false)]
fn search_order(groups: &Vec<Vec<SnafflerRecord>>) -> (order: Vec<usize>)
    ensures
        order@.len() == groups@.len(),
        forall|p: int| 0 <= p < order@.len() ==> (#[trigger] order@[p]) < groups@.len(),
        forall|k: int| 0 <= k < groups@.len() ==> #[trigger] appears(order@, k),
        forall|p: int, q: int|
            0 <= p < q < order@.len() ==> groups@[order@[p] as int]@.len()
                >= groups@[order@[q] as int]@.len(),
{
    let mut order: Vec<usize> = Vec::new();
    let mut k: usize = 0;
    while k < groups.len()
        invariant
            k <= groups@.len(),
            order@.len() == k,
            forall|p: int| 0 <= p < order@.len() ==> (#[trigger] order@[p]) < k,
            forall|k2: int| 0 <= k2 < k ==> #[trigger] appears(order@, k2),
            forall|p: int, q: int|
                0 <= p < q < order@.len() ==> groups@[order@[p] as int]@.len()
                    >= groups@[order@[q] as int]@.len(),
        decreases groups@.len() - k,
    {
        let len_k = groups[k].len();
        let mut pos: usize = 0;
        while pos < order.len() && groups[order[pos]].len() >= len_k
            invariant
                pos <= order@.len(),
                forall|p: int|
                    0 <= p < pos ==> groups@[#[trigger] order@[p] as int]@.len() >= len_k,
            decreases order@.len() - pos,
        {
            pos += 1;
        }
        let ghost old_order = order@;
        order.insert(pos, k);
        proof {
            assert forall|k2: int| 0 <= k2 < k + 1 implies #[trigger] appears(order@, k2) by {
                if k2 == k {
                    assert(order@[pos as int] == k);
                } else {
                    assert(appears(old_order, k2));
                    let p0 = choose|p: int|
                        0 <= p < old_order.len() && #[trigger] old_order[p] == k2;
                    if p0 < pos {
                        assert(order@[p0] == k2);
                    } else {
                        assert(order@[p0 + 1] == k2);
                    }
                }
            }
        }
        k += 1;
    }
    order
}

/// Assign one record: give it to the first group, in descending-size
/// order, whose sampled members contain one similar to it, or append a new
/// singleton group holding it.
#[verifier::spinoff_prover]
#[verifier::loop_isolation(false)]
#[verifier::rlimit(50)]
fn assign_record(
    groups: &mut Vec<Vec<SnafflerRecord>>,
    rec: SnafflerRecord,
    Ghost(prefix): Ghost<Seq<RecordView>>,
)
    requires
        valid_clustering(prefix, groups_view(old(groups)@)),
    ensures
        valid_clustering(prefix.push(rec@), groups_view(final(groups)@)),
{
    proof {
        assert forall|g: int| 0 <= g < groups@.len() implies #[trigger] groups@[g]@.len() > 0 by {
            assert(groups_view(groups@)[g].len() == groups@[g]@.len());
        }
    }
    let order = search_order(groups);
    let mut accepted: Option<usize> = None;
    let mut pos: usize = 0;
    while pos < order.len()
        invariant
            pos <= order@.len(),
            match accepted {
                Some(gi) => gi < groups@.len() && has_similar(
                    recs_view(groups@[gi as int]@),
                    rec@.match_context,
                ),
                None => forall|p: int|
                    0 <= p < pos ==> !all_similar(
                        recs_view(groups@[#[trigger] order@[p] as int]@),
                        rec@.match_context,
                    ),
            },
        decreases order@.len() - pos,
    {
        if accepted.is_none() {
            let gi = order[pos];
            if group_accepts(&groups[gi], rec.match_context.as_str()) {
                accepted = Some(gi);
            }
        }
        pos += 1;
    }
    let ghost gvecs0 = groups@;
    let ghost gs0 = groups_view(groups@);
    match accepted {
        Some(gi) => {
            let mut g = groups.remove(gi);
            g.push(rec);
            let ghost gnew = g@;
            groups.insert(gi, g);
            proof {
                assert(gnew =~= gvecs0[gi as int]@.push(rec));
                assert(forall|x: int|
                    0 <= x < gvecs0.len() && x != gi ==> groups@[x] == gvecs0[x]);
                let gs1 = gs0.update(gi as int, gs0[gi as int].push(rec@));
                assert(recs_view(gnew) =~= gs0[gi as int].push(rec@));
                assert(groups_view(groups@) =~= gs1);
                assert(gs0[gi as int] == recs_view(gvecs0[gi as int]@));
                lemma_step_append(prefix, gs0, gi as int, rec@);
                assert(valid_clustering(prefix.push(rec@), groups_view(groups@)));
            }
        },
        None => {
            let mut ng: Vec<SnafflerRecord> = Vec::new();
            ng.push(rec);
            let ghost ngs = ng@;
            groups.push(ng);
            proof {
                let gs1 = gs0.push(recs_view(ngs));
                assert(recs_view(ngs) =~= seq![rec@]);
                assert(groups_view(groups@) =~= gs1);
                assert forall|k2: int|
                    0 <= k2 < gs0.len() implies !all_similar(
                    #[trigger] gs0[k2],
                    rec@.match_context,
                ) by {
                    assert(appears(order@, k2));
                    let p0 = choose|p: int| 0 <= p < order@.len() && #[trigger] order@[p] == k2;
                    assert(!all_similar(recs_view(gvecs0[k2]@), rec@.match_context));
                    assert(gs0[k2] == recs_view(gvecs0[k2]@));
                }
                lemma_step_new_group(prefix, gs0, rec@);
                assert(gs0.push(seq![rec@]) == gs1);
                assert(valid_clustering(prefix.push(rec@), groups_view(groups@)));
            }
        },
    }
}

/// Partition the records, in input order, into groups of similar match
/// contexts, by the greedy online strategy described at the top of this
/// module.
///
/// The result satisfies [`valid_clustering`] for the input sequence; in
/// particular every input record lands in exactly one group and every
/// group is non-empty. An empty input yields an empty result.
#[verifier::spinoff_prover]
#[verifier::loop_isolation(false)]
pub fn group_similar_snaffler_records(file_records: Vec<SnafflerRecord>) -> (groups: Vec<
    Vec<SnafflerRecord>,
>)
    ensures
        valid_clustering(recs_view(file_records@), groups_view(groups@)),
{
    let ghost orig = file_records@;
    let mut records = file_records;
    let mut groups: Vec<Vec<SnafflerRecord>> = Vec::new();
    proof {
        lemma_valid_clustering_empty();
        assert(recs_view(orig.subrange(0, 0)) =~= Seq::<RecordView>::empty());
        assert(groups_view(groups@) =~= Seq::<Seq<RecordView>>::empty());
        assert(valid_clustering(recs_view(orig.subrange(0, 0)), groups_view(groups@)));
    }
    while records.len() > 0
        invariant
            records@.len() <= orig.len(),
            records@ == orig.subrange(orig.len() - records@.len(), orig.len() as int),
            valid_clustering(
                recs_view(orig.subrange(0, orig.len() - records@.len())),
                groups_view(groups@),
            ),
        decreases records@.len(),
    {
        let ghost k = orig.len() - records@.len();
        let ghost prefix = recs_view(orig.subrange(0, k as int));
        let rec = records.remove(0);
        proof {
            assert(rec == orig[k as int]);
            assert(records@ =~= orig.subrange(orig.len() - records@.len(), orig.len() as int));
            assert(orig.subrange(0, k + 1) =~= orig.subrange(0, k as int).push(orig[k as int]));
            assert(recs_view(orig.subrange(0, k + 1)) =~= prefix.push(rec@));
        }
        assign_record(&mut groups, rec, Ghost(prefix));
    }
    proof {
        assert(orig.subrange(0, orig.len() as int) =~= orig);
    }
    groups
}

/// Every member of every group is one of the input records.
proof fn lemma_member_is_input(
    input: Seq<RecordView>,
    gs: Seq<Seq<RecordView>>,
    g: int,
    j: int,
)
    requires
        valid_clustering(input, gs),
        0 <= g < gs.len(),
        0 <= j < gs[g].len(),
    ensures
        exists|x: int| 0 <= x < input.len() && #[trigger] input[x] == gs[g][j],
{
    broadcast use vstd::seq_lib::group_to_multiset_ensures;

    lemma_groups_multiset_member(gs, g, j);
    assert(input.to_multiset().count(gs[g][j]) > 0);
    assert(input.contains(gs[g][j]));
    let x = choose|x: int| 0 <= x < input.len() && input[x] == gs[g][j];
    assert(input[x] == gs[g][j]);
}

/// Law: two records with identical match contexts always land in one
/// group, in arrival order. Against a singleton group the sample is the
/// whole group, so the second record is accepted whatever the randomness
/// drew.
pub proof fn lemma_identical_pair_one_group(input: Seq<RecordView>, gs: Seq<Seq<RecordView>>)
    requires
        valid_clustering(input, gs),
        input.len() == 2,
        input[0].match_context == input[1].match_context,
    ensures
        gs.len() == 1,
        gs[0] == input,
{
    broadcast use vstd::seq_lib::group_to_multiset_ensures;

    let c = input[0].match_context;
    assert(input.to_multiset().len() == 2);
    if gs.len() == 0 {
        assert(groups_multiset(gs).len() == 0);
        assert(false);
    }
    if gs.len() >= 2 {
        assert(!all_similar(gs[0], gs[1][0].match_context));
        let i0 = choose|i: int|
            0 <= i < gs[0].len() && !similar_spec(
                (#[trigger] gs[0][i]).match_context,
                gs[1][0].match_context,
            );
        lemma_member_is_input(input, gs, 0, i0);
        let x0 = choose|x: int| 0 <= x < input.len() && #[trigger] input[x] == gs[0][i0];
        lemma_member_is_input(input, gs, 1, 0);
        let x1 = choose|x: int| 0 <= x < input.len() && #[trigger] input[x] == gs[1][0];
        assert(gs[0][i0].match_context == c);
        assert(gs[1][0].match_context == c);
        crate::similarity::lemma_similarity_reflexive(c);
        assert(false);
    }
    assert(gs.drop_last() =~= Seq::<Seq<RecordView>>::empty());
    assert(gs.last() == gs[0]);
    assert(groups_multiset(gs.drop_last()) =~= Multiset::<RecordView>::empty());
    assert(groups_multiset(gs) =~= gs[0].to_multiset());
    assert(gs[0].to_multiset().len() == gs[0].len());
    assert(gs[0].len() == 2);
    assert(is_subsequence(gs[0], input));
    lemma_subsequence_length(gs[0], input);
}

/// The inputs of the isolation law: every record whose context is not `c`
/// occurs only once and is similar to no other input record.
pub open spec fn isolated_inputs(input: Seq<RecordView>, c: Seq<char>) -> bool {
    &&& forall|x: int|
        0 <= x < input.len() && (#[trigger] input[x]).match_context != c
            ==> input.to_multiset().count(input[x]) == 1
    &&& forall|x: int, y: int| #![trigger input[x], input[y]]
        0 <= x < input.len() && 0 <= y < input.len() && input[x] != input[y] && (
        input[x].match_context != c || input[y].match_context != c) ==> !similar_spec(
            input[x].match_context,
            input[y].match_context,
        )
}

/// In a group whose first member has context `c`, every member has
/// context `c`: each member is similar to an earlier one, and under
/// [`isolated_inputs`] only `c`-records are similar to `c`-records.
proof fn lemma_group_pure(
    input: Seq<RecordView>,
    gs: Seq<Seq<RecordView>>,
    c: Seq<char>,
    g: int,
    j: int,
)
    requires
        valid_clustering(input, gs),
        isolated_inputs(input, c),
        0 <= g < gs.len(),
        0 <= j < gs[g].len(),
        gs[g][0].match_context == c,
    ensures
        gs[g][j].match_context == c,
    decreases j,
{
    if j > 0 {
        assert(similar_chain(gs[g]));
        let i = choose|i: int|
            0 <= i < j && similar_spec(#[trigger] gs[g][i].match_context, gs[g][j].match_context);
        lemma_group_pure(input, gs, c, g, i);
        if gs[g][j].match_context != c {
            lemma_member_is_input(input, gs, g, j);
            let xj = choose|x: int| 0 <= x < input.len() && #[trigger] input[x] == gs[g][j];
            lemma_member_is_input(input, gs, g, i);
            let xi = choose|x: int| 0 <= x < input.len() && #[trigger] input[x] == gs[g][i];
            assert(input[xj] != input[xi]);
            assert(!similar_spec(input[xj].match_context, input[xi].match_context));
            crate::similarity::lemma_similarity_symmetric(
                gs[g][i].match_context,
                gs[g][j].match_context,
            );
            assert(false);
        }
    }
}

/// Law: under [`isolated_inputs`], every group led by a record whose
/// context differs from `c` is a singleton; every group led by a
/// `c`-record holds `c`-records only; and at most one group is led by a
/// `c`-record. So the records sharing context `c` gather in at most one
/// group, and each of the mutually dissimilar records stands alone.
pub proof fn lemma_isolated_records_separate(
    input: Seq<RecordView>,
    gs: Seq<Seq<RecordView>>,
    c: Seq<char>,
)
    requires
        valid_clustering(input, gs),
        isolated_inputs(input, c),
    ensures
        forall|g: int|
            0 <= g < gs.len() && (#[trigger] gs[g])[0].match_context != c ==> gs[g].len() == 1,
        forall|g: int, j: int| #![trigger gs[g][j]]
            0 <= g < gs.len() && 0 <= j < gs[g].len() && gs[g][0].match_context == c
                ==> gs[g][j].match_context == c,
        forall|g1: int, g2: int| #![trigger gs[g1], gs[g2]]
            0 <= g1 < g2 < gs.len() ==> !(gs[g1][0].match_context == c && gs[g2][0].match_context
                == c),
{
    broadcast use vstd::seq_lib::group_to_multiset_ensures;

    assert forall|g: int|
        0 <= g < gs.len() && (#[trigger] gs[g])[0].match_context != c implies gs[g].len()
        == 1 by {
        if gs[g].len() >= 2 {
            assert(similar_chain(gs[g]));
            let i = choose|i: int|
                0 <= i < 1 && similar_spec(
                    #[trigger] gs[g][i].match_context,
                    gs[g][1].match_context,
                );
            assert(i == 0);
            lemma_member_is_input(input, gs, g, 0);
            let x0 = choose|x: int| 0 <= x < input.len() && #[trigger] input[x] == gs[g][0];
            lemma_member_is_input(input, gs, g, 1);
            let x1 = choose|x: int| 0 <= x < input.len() && #[trigger] input[x] == gs[g][1];
            if input[x0] == input[x1] {
                lemma_two_positions_count(gs[g], 0, 1);
                lemma_groups_multiset_ge_group(gs, g, gs[g][0]);
                assert(input.to_multiset().count(input[x0]) >= 2);
                assert(false);
            } else {
                assert(!similar_spec(input[x0].match_context, input[x1].match_context));
                assert(false);
            }
        }
    }
    assert forall|g: int, j: int| #![trigger gs[g][j]]
        0 <= g < gs.len() && 0 <= j < gs[g].len() && gs[g][0].match_context
        == c implies gs[g][j].match_context == c by {
        lemma_group_pure(input, gs, c, g, j);
    }
    assert forall|g1: int, g2: int| #![trigger gs[g1], gs[g2]]
        0 <= g1 < g2 < gs.len() implies !(gs[g1][0].match_context == c
        && gs[g2][0].match_context == c) by {
        if gs[g1][0].match_context == c && gs[g2][0].match_context == c {
            assert(!all_similar(gs[g1], gs[g2][0].match_context));
            let i0 = choose|i: int|
                0 <= i < gs[g1].len() && !similar_spec(
                    (#[trigger] gs[g1][i]).match_context,
                    gs[g2][0].match_context,
                );
            lemma_group_pure(input, gs, c, g1, i0);
            crate::similarity::lemma_similarity_reflexive(c);
            assert(false);
        }
    }
}

} // verus!
