//! What the search tree stands for, and the laws of the solver: a tree
//! built for a set of codes keeps standing for them through propagating,
//! counting and pruning; played against every code, a finished strategy
//! makes exactly as many guesses as its count; a finished count stays; no
//! count is below the best case; and no valid strategy needs fewer guesses
//! than the counts of the tree.
use vstd::prelude::*;
use crate::mastermind_mechanics::{code_count, lemma_nth_code_len, spec_grade, ResultType};
use super::{
    similar,
    all_finished,
    check_finished,
    counter_new,
    CandidateHandlerType,
    CandidateResultHashMap,
    CandidateResultType,
    StrategyCounter,
    all_codes,
    created,
    distinct_keys,
    done_of,
    estimate,
    fresh_result,
    grade_keys,
    grouped,
    guesses_total,
    handler_count_post,
    handler_counted,
    handler_fits,
    handler_guesses,
    handler_ok,
    handler_propagate_post,
    handler_prune_post,
    handler_value,
    has_result,
    index_of,
    kept,
    lemma_list_counted,
    lemma_min_finished_witness,
    lemma_pairs_counted,
    lemma_sum_nonneg,
    lemma_with_grade_props,
    lemma_with_grade_push,
    list_count_post,
    list_counted,
    min_estimate,
    min_finished,
    pairs_counted,
    result_count_post,
    result_counted,
    result_fits,
    result_ok,
    result_propagate_post,
    result_prune_post,
    selection,
    sum_estimates,
    unsolved,
    views,
    with_grade,
};

verus! {

// ---------------------------------------------------------------------------
// What the tree stands for
// ---------------------------------------------------------------------------

/// The grades of `ks` other than `done`, in order.
pub open spec fn key_filter(ks: Seq<ResultType>, done: ResultType) -> Seq<ResultType>
    decreases ks.len(),
{
    if ks.len() == 0 {
        ks
    } else {
        let p = key_filter(ks.drop_last(), done);
        if ks.last() != done {
            p.push(ks.last())
        } else {
            p
        }
    }
}

/// `h` stands for the possible codes `cs`: every guess of it is built for them.
pub open spec fn handler_built(h: CandidateHandlerType, cs: Seq<Seq<u8>>, columns: nat) -> bool
    decreases h,
{
    forall|i: int|
        0 <= i < h.candidate_list@.len() ==> result_built(#[trigger] h.candidate_list@[i], cs, columns)
}

/// The guess `c` is built for the codes `cs`: it counts them; with one or two
/// codes it is the first of them; grouped, its groups are the codes of each
/// grade; propagated, it has one handler per grade but the solving one, in
/// the order of the groups, standing for the codes of that grade.
pub open spec fn result_built(c: CandidateResultType, cs: Seq<Seq<u8>>, columns: nat) -> bool
    decreases c,
{
    &&& c.number_of_candidates == cs.len()
    &&& cs.len() <= 2 ==> c.candidate@ == cs[0]
    &&& match c.result_hashmap {
        CandidateResultHashMap::NEW(groups) => grouped(groups@, cs, c.candidate@),
        CandidateResultHashMap::PROPAGATED(v) => {
            let ks = key_filter(grade_keys(cs, c.candidate@), done_of(columns));
            &&& grade_keys(cs, c.candidate@).len() > 1
            &&& v@.len() == ks.len()
            &&& forall|i: int|
                0 <= i < v@.len() ==> (#[trigger] v@[i]).0 == ks[i] && handler_built(
                    v@[i].1,
                    with_grade(cs, c.candidate@, ks[i]),
                    columns,
                )
        },
    }
}

/// Sum of the counts of the handlers of a propagated map.
pub open spec fn handler_sum(v: Seq<(ResultType, CandidateHandlerType)>) -> int
    decreases v.len(),
{
    if v.len() == 0 {
        0
    } else {
        handler_sum(v.drop_last()) + estimate(v.last().1.counter_stored)
    }
}

/// Finished counts add up: a finished handler has the count of each of its
/// guesses; a finished guess needs one guess (grouped) or one guess per code
/// plus the counts of its handlers (propagated).
pub open spec fn handler_sums(h: CandidateHandlerType) -> bool
    decreases h,
{
    &&& (h.counter_stored is FINISHED ==> forall|i: int|
        0 <= i < h.candidate_list@.len() ==> estimate((#[trigger] h.candidate_list@[i]).counter_stored)
            == estimate(h.counter_stored))
    &&& forall|i: int| 0 <= i < h.candidate_list@.len() ==> result_sums(#[trigger] h.candidate_list@[i])
}

pub open spec fn result_sums(c: CandidateResultType) -> bool
    decreases c,
{
    &&& (c.counter_stored is FINISHED ==> match c.result_hashmap {
        CandidateResultHashMap::NEW(_) => estimate(c.counter_stored) == 1,
        CandidateResultHashMap::PROPAGATED(v) => estimate(c.counter_stored) == c.number_of_candidates
            + handler_sum(v@),
    })
    &&& match c.result_hashmap {
        CandidateResultHashMap::NEW(_) => true,
        CandidateResultHashMap::PROPAGATED(v) => forall|i: int|
            0 <= i < v@.len() ==> handler_sums((#[trigger] v@[i]).1),
    }
}

/// The most guesses any path through the tree makes.
pub open spec fn handler_height(h: CandidateHandlerType) -> nat
    decreases h,
{
    1 + list_height(h.candidate_list@)
}

pub open spec fn list_height(s: Seq<CandidateResultType>) -> nat
    decreases s,
{
    if s.len() == 0 {
        0
    } else {
        let a = list_height(s.subrange(0, s.len() - 1));
        let b = result_height(s[s.len() - 1]);
        if a >= b {
            a
        } else {
            b
        }
    }
}

pub open spec fn result_height(c: CandidateResultType) -> nat
    decreases c,
{
    match c.result_hashmap {
        CandidateResultHashMap::NEW(_) => 0,
        CandidateResultHashMap::PROPAGATED(v) => pairs_height(v@),
    }
}

pub open spec fn pairs_height(v: Seq<(ResultType, CandidateHandlerType)>) -> nat
    decreases v,
{
    if v.len() == 0 {
        0
    } else {
        let a = pairs_height(v.subrange(0, v.len() - 1));
        let b = handler_height(v[v.len() - 1].1);
        if a >= b {
            a
        } else {
            b
        }
    }
}

/// A handler created for the codes `gs` stands for them.
pub(crate) proof fn lemma_created_built(h: CandidateHandlerType, gs: Seq<Seq<u8>>, colors: nat, columns: nat)
    requires
        created(h, gs, colors, columns),
    ensures
        handler_built(h, gs, columns),
{
    if gs.len() > 2 {
        let sel = selection(gs, all_codes(colors, columns), code_count(colors, columns) as int);
        assert forall|i: int| 0 <= i < h.candidate_list@.len() implies result_built(#[trigger] h.candidate_list@[i], gs, columns) by {
            assert(fresh_result(h.candidate_list@[i], gs, sel[i]));
        }
    }
}

/// The unsolved entries of groups keyed by `ks` are keyed by the unsolved grades of `ks`.
proof fn lemma_unsolved_filter<T>(groups: Seq<(ResultType, T)>, ks: Seq<ResultType>, done: ResultType)
    requires
        groups.len() == ks.len(),
        forall|i: int| 0 <= i < groups.len() ==> (#[trigger] groups[i]).0 == ks[i],
    ensures
        unsolved(groups, done).len() == key_filter(ks, done).len(),
        forall|i: int|
            0 <= i < unsolved(groups, done).len() ==> (#[trigger] unsolved(groups, done)[i]).0 == key_filter(
                ks,
                done,
            )[i] && exists|k: int| 0 <= k < groups.len() && unsolved(groups, done)[i] == groups[k],
    decreases groups.len(),
{
    if groups.len() > 0 {
        let gp = groups.drop_last();
        let kp = ks.drop_last();
        assert forall|i: int| 0 <= i < gp.len() implies (#[trigger] gp[i]).0 == kp[i] by {
            assert(gp[i] == groups[i]);
        }
        lemma_unsolved_filter(gp, kp, done);
        let u = unsolved(groups, done);
        let up = unsolved(gp, done);
        assert(groups.last().0 == ks.last()) by {
            assert(groups[groups.len() - 1].0 == ks[ks.len() - 1]);
        }
        assert forall|i: int| 0 <= i < u.len() implies (#[trigger] u[i]).0 == key_filter(ks, done)[i] && exists|k: int|
            0 <= k < groups.len() && u[i] == groups[k] by {
            if i < up.len() {
                assert(u[i] == up[i]);
                assert(key_filter(ks, done)[i] == key_filter(kp, done)[i]);
                let k = choose|k: int| 0 <= k < gp.len() && up[i] == gp[k];
                assert(gp[k] == groups[k]);
            } else {
                assert(u[i] == groups[groups.len() - 1]);
            }
        }
    }
}

proof fn lemma_handler_propagate_built(old: CandidateHandlerType, new: CandidateHandlerType, cs: Seq<Seq<u8>>, colors: nat, columns: nat)
    requires
        handler_propagate_post(old, new, colors, columns),
        handler_built(old, cs, columns),
    ensures
        handler_built(new, cs, columns),
    decreases old,
{
    assert forall|i: int| 0 <= i < new.candidate_list@.len() implies result_built(#[trigger] new.candidate_list@[i], cs, columns) by {
        lemma_result_propagate_built(old.candidate_list@[i], new.candidate_list@[i], cs, colors, columns);
    }
}

proof fn lemma_result_propagate_built(old: CandidateResultType, new: CandidateResultType, cs: Seq<Seq<u8>>, colors: nat, columns: nat)
    requires
        result_propagate_post(old, new, colors, columns),
        result_built(old, cs, columns),
    ensures
        result_built(new, cs, columns),
    decreases old,
{
    if !(old.counter_stored is FINISHED) {
        let g = old.candidate@;
        match old.result_hashmap {
            CandidateResultHashMap::NEW(groups) => {
                if groups@.len() > 1 {
                    if let CandidateResultHashMap::PROPAGATED(w) = new.result_hashmap {
                        let done = done_of(columns);
                        let ks = grade_keys(cs, g);
                        let u = unsolved(groups@, done);
                        lemma_unsolved_filter(groups@, ks, done);
                        assert forall|i: int| 0 <= i < w@.len() implies (#[trigger] w@[i]).0 == key_filter(ks, done)[i]
                            && handler_built(w@[i].1, with_grade(cs, g, key_filter(ks, done)[i]), columns) by {
                            let k = choose|k: int| 0 <= k < groups@.len() && u[i] == groups@[k];
                            assert(views(groups@[k].1@) == with_grade(cs, g, groups@[k].0));
                            assert(created(w@[i].1, views(u[i].1@), colors, columns));
                            lemma_created_built(w@[i].1, views(u[i].1@), colors, columns);
                        }
                    }
                }
            },
            CandidateResultHashMap::PROPAGATED(v) => {
                if let CandidateResultHashMap::PROPAGATED(w) = new.result_hashmap {
                    let ks = key_filter(grade_keys(cs, g), done_of(columns));
                    assert forall|i: int| 0 <= i < w@.len() implies (#[trigger] w@[i]).0 == ks[i] && handler_built(
                        w@[i].1,
                        with_grade(cs, g, ks[i]),
                        columns,
                    ) by {
                        assert(handler_built(v@[i].1, with_grade(cs, g, ks[i]), columns));
                        if !(v@[i].1.counter_stored is FINISHED) {
                            lemma_handler_propagate_built(v@[i].1, w@[i].1, with_grade(cs, g, ks[i]), colors, columns);
                        }
                    }
                }
            },
        }
    }
}

/// Every guess that stays after counting is a counted guess of the list.
#[verifier::spinoff_prover]
proof fn lemma_list_count_origin(v: Seq<CandidateResultType>, w: Seq<CandidateResultType>, best: Option<u16>)
    requires
        list_count_post(v, w, best),
    ensures
        forall|m: int|
            0 <= m < w.len() ==> exists|i: int|
                0 <= i < v.len() && result_count_post(v[i], #[trigger] w[m]) && kept(
                    result_counted(v[i]),
                    best,
                ),
    decreases v.len(),
{
    if v.len() == 0 {
        assert(w.len() == 0);
    } else {
        let vp = v.subrange(0, v.len() - 1);
        if kept(result_counted(v[v.len() - 1]), best) {
            let wp = w.subrange(0, w.len() - 1);
            lemma_list_count_origin(vp, wp, best);
            assert forall|m: int| 0 <= m < w.len() implies exists|i: int|
                0 <= i < v.len() && result_count_post(v[i], #[trigger] w[m]) && kept(result_counted(v[i]), best) by {
                if m < wp.len() {
                    assert(w[m] == wp[m]);
                    let i = choose|i: int| 0 <= i < vp.len() && result_count_post(vp[i], #[trigger] wp[m]) && kept(
                        result_counted(vp[i]),
                        best,
                    );
                    assert(v[i] == vp[i]);
                } else {
                    assert(result_count_post(v[v.len() - 1], w[m]));
                }
            }
        } else {
            lemma_list_count_origin(vp, w, best);
            assert forall|m: int| 0 <= m < w.len() implies exists|i: int|
                0 <= i < v.len() && result_count_post(v[i], #[trigger] w[m]) && kept(result_counted(v[i]), best) by {
                let i = choose|i: int| 0 <= i < vp.len() && result_count_post(vp[i], #[trigger] w[m]) && kept(
                    result_counted(vp[i]),
                    best,
                );
                assert(v[i] == vp[i]);
            }
        }
    }
}

proof fn lemma_handler_count_built(old: CandidateHandlerType, new: CandidateHandlerType, cs: Seq<Seq<u8>>, columns: nat)
    requires
        handler_count_post(old, new),
        handler_built(old, cs, columns),
    ensures
        handler_built(new, cs, columns),
    decreases old,
{
    let best = min_finished(list_counted(old.candidate_list@));
    lemma_list_count_origin(old.candidate_list@, new.candidate_list@, best);
    assert forall|m: int| 0 <= m < new.candidate_list@.len() implies result_built(#[trigger] new.candidate_list@[m], cs, columns) by {
        let i = choose|i: int|
            0 <= i < old.candidate_list@.len() && result_count_post(old.candidate_list@[i], #[trigger] new.candidate_list@[m])
                && kept(result_counted(old.candidate_list@[i]), best);
        lemma_result_count_built(old.candidate_list@[i], new.candidate_list@[m], cs, columns);
    }
}

proof fn lemma_result_count_built(old: CandidateResultType, new: CandidateResultType, cs: Seq<Seq<u8>>, columns: nat)
    requires
        result_count_post(old, new),
        result_built(old, cs, columns),
    ensures
        result_built(new, cs, columns),
    decreases old,
{
    let g = old.candidate@;
    if let CandidateResultHashMap::PROPAGATED(v) = old.result_hashmap {
        if let CandidateResultHashMap::PROPAGATED(w) = new.result_hashmap {
            let ks = key_filter(grade_keys(cs, g), done_of(columns));
            assert forall|i: int| 0 <= i < w@.len() implies (#[trigger] w@[i]).0 == ks[i] && handler_built(
                w@[i].1,
                with_grade(cs, g, ks[i]),
                columns,
            ) by {
                assert(handler_built(v@[i].1, with_grade(cs, g, ks[i]), columns));
                lemma_handler_count_built(v@[i].1, w@[i].1, with_grade(cs, g, ks[i]), columns);
            }
        }
    }
}

proof fn lemma_handler_prune_built(old: CandidateHandlerType, new: CandidateHandlerType, cs: Seq<Seq<u8>>, columns: nat)
    requires
        handler_prune_post(old, new),
        handler_built(old, cs, columns),
    ensures
        handler_built(new, cs, columns),
    decreases old,
{
    if old.candidate_list@.len() > 0 {
        lemma_result_prune_built(old.candidate_list@[0], new.candidate_list@[0], cs, columns);
    }
}

proof fn lemma_result_prune_built(old: CandidateResultType, new: CandidateResultType, cs: Seq<Seq<u8>>, columns: nat)
    requires
        result_prune_post(old, new),
        result_built(old, cs, columns),
    ensures
        result_built(new, cs, columns),
    decreases old,
{
    let g = old.candidate@;
    if let CandidateResultHashMap::PROPAGATED(v) = old.result_hashmap {
        if let CandidateResultHashMap::PROPAGATED(w) = new.result_hashmap {
            let ks = key_filter(grade_keys(cs, g), done_of(columns));
            assert forall|i: int| 0 <= i < w@.len() implies (#[trigger] w@[i]).0 == ks[i] && handler_built(
                w@[i].1,
                with_grade(cs, g, ks[i]),
                columns,
            ) by {
                assert(handler_built(v@[i].1, with_grade(cs, g, ks[i]), columns));
                lemma_handler_prune_built(v@[i].1, w@[i].1, with_grade(cs, g, ks[i]), columns);
            }
        }
    }
}

pub(crate) proof fn lemma_created_sums(h: CandidateHandlerType, gs: Seq<Seq<u8>>, colors: nat, columns: nat)
    requires
        created(h, gs, colors, columns),
    ensures
        handler_sums(h),
{
    let sel = selection(gs, all_codes(colors, columns), code_count(colors, columns) as int);
    assert forall|i: int| 0 <= i < h.candidate_list@.len() implies result_sums(#[trigger] h.candidate_list@[i]) by {
        if gs.len() > 2 {
            assert(fresh_result(h.candidate_list@[i], gs, sel[i]));
        }
    }
}

/// Handlers with the same counters have the same sum of counts.
proof fn lemma_handler_sum_congr(v: Seq<(ResultType, CandidateHandlerType)>, w: Seq<(ResultType, CandidateHandlerType)>)
    requires
        v.len() == w.len(),
        forall|i: int| 0 <= i < v.len() ==> (#[trigger] v[i]).1.counter_stored == w[i].1.counter_stored,
    ensures
        handler_sum(v) == handler_sum(w),
    decreases v.len(),
{
    if v.len() > 0 {
        let vp = v.drop_last();
        let wp = w.drop_last();
        assert forall|i: int| 0 <= i < vp.len() implies (#[trigger] vp[i]).1.counter_stored == wp[i].1.counter_stored by {
            assert(vp[i] == v[i]);
            assert(wp[i] == w[i]);
        }
        lemma_handler_sum_congr(vp, wp);
        assert(v.last() == v[v.len() - 1]);
    }
}

/// The sum of the counts of handlers whose counters are `ks`.
proof fn lemma_handler_sum_counted(w: Seq<(ResultType, CandidateHandlerType)>, ks: Seq<StrategyCounter>)
    requires
        w.len() == ks.len(),
        forall|i: int| 0 <= i < w.len() ==> (#[trigger] w[i]).1.counter_stored == ks[i],
    ensures
        handler_sum(w) == sum_estimates(ks),
    decreases w.len(),
{
    if w.len() > 0 {
        let wp = w.drop_last();
        let kp = ks.drop_last();
        assert forall|i: int| 0 <= i < wp.len() implies (#[trigger] wp[i]).1.counter_stored == kp[i] by {
            assert(wp[i] == w[i]);
        }
        lemma_handler_sum_counted(wp, kp);
        assert(w.last() == w[w.len() - 1]);
    }
}

/// The best finished count is at most every (partially) finished count.
proof fn lemma_min_finished_lower(ks: Seq<StrategyCounter>)
    ensures
        min_finished(ks) matches Some(b) ==> forall|i: int|
            0 <= i < ks.len() && !(ks[i] is PENDING) ==> b <= #[trigger] estimate(ks[i]),
        min_finished(ks) is None ==> forall|i: int| 0 <= i < ks.len() ==> (#[trigger] ks[i]) is PENDING,
    decreases ks.len(),
{
    if ks.len() > 0 {
        let p = ks.drop_last();
        lemma_min_finished_lower(p);
        assert forall|i: int| 0 <= i < p.len() implies #[trigger] ks[i] == p[i] by {}
        assert(ks.last() == ks[ks.len() - 1]);
    }
}

proof fn lemma_handler_propagate_sums(old: CandidateHandlerType, new: CandidateHandlerType, colors: nat, columns: nat)
    requires
        handler_propagate_post(old, new, colors, columns),
        handler_sums(old),
    ensures
        handler_sums(new),
    decreases old,
{
    assert forall|i: int| 0 <= i < new.candidate_list@.len() implies result_sums(#[trigger] new.candidate_list@[i]) by {
        lemma_result_propagate_sums(old.candidate_list@[i], new.candidate_list@[i], colors, columns);
    }
    if new.counter_stored is FINISHED {
        assert forall|i: int| 0 <= i < new.candidate_list@.len() implies estimate((#[trigger] new.candidate_list@[i]).counter_stored)
            == estimate(new.counter_stored) by {
            assert(result_propagate_post(old.candidate_list@[i], new.candidate_list@[i], colors, columns));
        }
    }
}

proof fn lemma_result_propagate_sums(old: CandidateResultType, new: CandidateResultType, colors: nat, columns: nat)
    requires
        result_propagate_post(old, new, colors, columns),
        result_sums(old),
    ensures
        result_sums(new),
    decreases old,
{
    if !(old.counter_stored is FINISHED) {
        match old.result_hashmap {
            CandidateResultHashMap::NEW(groups) => {
                if groups@.len() > 1 {
                    if let CandidateResultHashMap::PROPAGATED(w) = new.result_hashmap {
                        let u = unsolved(groups@, done_of(columns));
                        assert forall|i: int| 0 <= i < w@.len() implies handler_sums((#[trigger] w@[i]).1) by {
                            lemma_created_sums(w@[i].1, views(u[i].1@), colors, columns);
                        }
                    }
                }
            },
            CandidateResultHashMap::PROPAGATED(v) => {
                if let CandidateResultHashMap::PROPAGATED(w) = new.result_hashmap {
                    assert forall|i: int| 0 <= i < w@.len() implies handler_sums((#[trigger] w@[i]).1) by {
                        assert(handler_sums(v@[i].1));
                        if !(v@[i].1.counter_stored is FINISHED) {
                            lemma_handler_propagate_sums(v@[i].1, w@[i].1, colors, columns);
                        }
                    }
                }
            },
        }
    }
}

proof fn lemma_handler_count_sums(old: CandidateHandlerType, new: CandidateHandlerType, columns: nat)
    requires
        handler_count_post(old, new),
        handler_fits(old),
        handler_ok(old, columns),
    ensures
        handler_sums(new),
    decreases old,
{
    let v = old.candidate_list@;
    let ks = list_counted(v);
    let best = min_finished(ks);
    lemma_list_counted(v);
    lemma_list_count_origin(v, new.candidate_list@, best);
    lemma_min_finished_lower(ks);
    assert forall|m: int| 0 <= m < new.candidate_list@.len() implies result_sums(#[trigger] new.candidate_list@[m]) by {
        let i = choose|i: int|
            0 <= i < v.len() && result_count_post(v[i], #[trigger] new.candidate_list@[m]) && kept(result_counted(v[i]), best);
        lemma_result_count_sums(v[i], new.candidate_list@[m], columns);
    }
    if new.counter_stored is FINISHED {
        if best is None {
            if min_estimate(ks) is None {
                assert(ks.len() == 0) by {
                    if ks.len() > 0 {
                        assert(min_estimate(ks) is Some);
                    }
                }
            }
        }
        assert forall|m: int| 0 <= m < new.candidate_list@.len() implies estimate((#[trigger] new.candidate_list@[m]).counter_stored)
            == estimate(new.counter_stored) by {
            let i = choose|i: int|
                0 <= i < v.len() && result_count_post(v[i], #[trigger] new.candidate_list@[m]) && kept(
                    result_counted(v[i]),
                    best,
                );
            assert(ks[i] == result_counted(v[i]));
        }
    }
}

proof fn lemma_result_count_sums(old: CandidateResultType, new: CandidateResultType, columns: nat)
    requires
        result_count_post(old, new),
        result_fits(old),
        result_ok(old, columns),
    ensures
        result_sums(new),
    decreases old,
{
    if let CandidateResultHashMap::PROPAGATED(v) = old.result_hashmap {
        if let CandidateResultHashMap::PROPAGATED(w) = new.result_hashmap {
            lemma_pairs_counted(v@);
            assert forall|i: int| 0 <= i < w@.len() implies handler_sums((#[trigger] w@[i]).1) by {
                assert(handler_fits(v@[i].1));
                assert(handler_ok(v@[i].1, columns));
                lemma_handler_count_sums(v@[i].1, w@[i].1, columns);
            }
            assert forall|i: int| 0 <= i < w@.len() implies (#[trigger] w@[i]).1.counter_stored == pairs_counted(v@)[i] by {
                assert(handler_count_post(v@[i].1, w@[i].1));
            }
            lemma_handler_sum_counted(w@, pairs_counted(v@));
            lemma_sum_nonneg(pairs_counted(v@));
        }
    }
}

proof fn lemma_handler_prune_sums(old: CandidateHandlerType, new: CandidateHandlerType)
    requires
        handler_prune_post(old, new),
        handler_sums(old),
    ensures
        handler_sums(new),
    decreases old,
{
    if old.candidate_list@.len() > 0 {
        lemma_result_prune_sums(old.candidate_list@[0], new.candidate_list@[0]);
    }
}

proof fn lemma_result_prune_sums(old: CandidateResultType, new: CandidateResultType)
    requires
        result_prune_post(old, new),
        result_sums(old),
    ensures
        result_sums(new),
    decreases old,
{
    if let CandidateResultHashMap::PROPAGATED(v) = old.result_hashmap {
        if let CandidateResultHashMap::PROPAGATED(w) = new.result_hashmap {
            assert forall|i: int| 0 <= i < w@.len() implies handler_sums((#[trigger] w@[i]).1) by {
                assert(handler_sums(v@[i].1));
                lemma_handler_prune_sums(v@[i].1, w@[i].1);
            }
            assert forall|i: int| 0 <= i < v@.len() implies (#[trigger] v@[i]).1.counter_stored == w@[i].1.counter_stored by {
                assert(handler_prune_post(v@[i].1, w@[i].1));
            }
            lemma_handler_sum_congr(v@, w@);
        }
    }
}

// ---------------------------------------------------------------------------
// The count of a finished strategy is the number of guesses it makes
// ---------------------------------------------------------------------------

/// Sum of `f` over the codes of `cs`.
pub open spec fn code_sum(cs: Seq<Seq<u8>>, f: spec_fn(Seq<u8>) -> int) -> int
    decreases cs.len(),
{
    if cs.len() == 0 {
        0
    } else {
        code_sum(cs.drop_last(), f) + f(cs.last())
    }
}

/// Sum of `t` over the grades of `ks`.
pub open spec fn grade_sum(ks: Seq<ResultType>, t: spec_fn(ResultType) -> int) -> int
    decreases ks.len(),
{
    if ks.len() == 0 {
        0
    } else {
        grade_sum(ks.drop_last(), t) + t(ks.last())
    }
}

/// The guesses against `s` as a number (0 where the strategy cannot be followed).
pub open spec fn guess_value(h: CandidateHandlerType, s: Seq<u8>, columns: nat, fuel: nat) -> int {
    match handler_guesses(h, s, columns, fuel) {
        Some(k) => k as int,
        None => 0,
    }
}

proof fn lemma_code_sum_add(cs: Seq<Seq<u8>>, f: spec_fn(Seq<u8>) -> int, a: spec_fn(Seq<u8>) -> int, b: spec_fn(Seq<u8>) -> int)
    requires
        forall|k: int| 0 <= k < cs.len() ==> f(#[trigger] cs[k]) == a(cs[k]) + b(cs[k]),
    ensures
        code_sum(cs, f) == code_sum(cs, a) + code_sum(cs, b),
    decreases cs.len(),
{
    if cs.len() > 0 {
        let p = cs.drop_last();
        assert forall|k: int| 0 <= k < p.len() implies f(#[trigger] p[k]) == a(p[k]) + b(p[k]) by {
            assert(p[k] == cs[k]);
        }
        lemma_code_sum_add(p, f, a, b);
        assert(cs.last() == cs[cs.len() - 1]);
    }
}

proof fn lemma_code_sum_one(cs: Seq<Seq<u8>>, f: spec_fn(Seq<u8>) -> int)
    requires
        forall|k: int| 0 <= k < cs.len() ==> f(#[trigger] cs[k]) == 1,
    ensures
        code_sum(cs, f) == cs.len(),
    decreases cs.len(),
{
    if cs.len() > 0 {
        let p = cs.drop_last();
        assert forall|k: int| 0 <= k < p.len() implies f(#[trigger] p[k]) == 1 by {
            assert(p[k] == cs[k]);
        }
        lemma_code_sum_one(p, f);
        assert(cs.last() == cs[cs.len() - 1]);
    }
}

proof fn lemma_grade_sum_congr(ks: Seq<ResultType>, t1: spec_fn(ResultType) -> int, t2: spec_fn(ResultType) -> int)
    requires
        forall|i: int| 0 <= i < ks.len() ==> t1(#[trigger] ks[i]) == t2(ks[i]),
    ensures
        grade_sum(ks, t1) == grade_sum(ks, t2),
    decreases ks.len(),
{
    if ks.len() > 0 {
        let p = ks.drop_last();
        assert forall|i: int| 0 <= i < p.len() implies t1(#[trigger] p[i]) == t2(p[i]) by {
            assert(p[i] == ks[i]);
        }
        lemma_grade_sum_congr(p, t1, t2);
        assert(ks.last() == ks[ks.len() - 1]);
    }
}

proof fn lemma_grade_sum_add(ks: Seq<ResultType>, t: spec_fn(ResultType) -> int, a: spec_fn(ResultType) -> int, b: spec_fn(ResultType) -> int)
    requires
        forall|i: int| 0 <= i < ks.len() ==> t(#[trigger] ks[i]) == a(ks[i]) + b(ks[i]),
    ensures
        grade_sum(ks, t) == grade_sum(ks, a) + grade_sum(ks, b),
    decreases ks.len(),
{
    if ks.len() > 0 {
        let p = ks.drop_last();
        assert forall|i: int| 0 <= i < p.len() implies t(#[trigger] p[i]) == a(p[i]) + b(p[i]) by {
            assert(p[i] == ks[i]);
        }
        lemma_grade_sum_add(p, t, a, b);
        assert(ks.last() == ks[ks.len() - 1]);
    }
}

/// Adding `d` at the grade `r` of distinct grades adds `d` to the sum, if `r` occurs.
proof fn lemma_grade_sum_bump(ks: Seq<ResultType>, t1: spec_fn(ResultType) -> int, t2: spec_fn(ResultType) -> int, r: ResultType, d: int)
    requires
        forall|i: int, j: int| 0 <= i < ks.len() && 0 <= j < ks.len() && i != j ==> ks[i] != ks[j],
        forall|k: ResultType| #[trigger] t2(k) == t1(k) + (if k == r { d } else { 0 }),
    ensures
        grade_sum(ks, t2) == grade_sum(ks, t1) + (if ks.contains(r) { d } else { 0 }),
    decreases ks.len(),
{
    if ks.len() > 0 {
        let p = ks.drop_last();
        assert forall|i: int, j: int| 0 <= i < p.len() && 0 <= j < p.len() && i != j implies p[i] != p[j] by {
            assert(p[i] == ks[i]);
            assert(p[j] == ks[j]);
        }
        lemma_grade_sum_bump(p, t1, t2, r, d);
        assert(ks.last() == ks[ks.len() - 1]);
        assert(t2(ks.last()) == t1(ks.last()) + (if ks.last() == r { d } else { 0 }));
        if ks.contains(r) {
            let j = choose|j: int| 0 <= j < ks.len() && ks[j] == r;
            if j < p.len() {
                assert(p[j] == ks[j]);
                assert(p.contains(r));
                assert(ks.last() != r);
            } else {
                assert(!p.contains(r)) by {
                    if p.contains(r) {
                        let q = choose|q: int| 0 <= q < p.len() && p[q] == r;
                        assert(p[q] == ks[q]);
                    }
                }
            }
        } else {
            assert(!p.contains(r)) by {
                if p.contains(r) {
                    let q = choose|q: int| 0 <= q < p.len() && p[q] == r;
                    assert(p[q] == ks[q]);
                }
            }
            assert(ks.last() != r);
        }
    }
}

/// Grades that are 0 at `done` sum up alike without it.
proof fn lemma_grade_sum_filter(ks: Seq<ResultType>, t: spec_fn(ResultType) -> int, done: ResultType)
    requires
        t(done) == 0,
    ensures
        grade_sum(ks, t) == grade_sum(key_filter(ks, done), t),
    decreases ks.len(),
{
    if ks.len() > 0 {
        lemma_grade_sum_filter(ks.drop_last(), t, done);
        let p = key_filter(ks.drop_last(), done);
        if ks.last() != done {
            assert(p.push(ks.last()).drop_last() =~= p);
        }
    }
}

/// Grades of the handlers of a map, summed by their counts, give the sum of the counts.
proof fn lemma_grade_sum_handlers(kf: Seq<ResultType>, v: Seq<(ResultType, CandidateHandlerType)>, e: spec_fn(ResultType) -> int)
    requires
        kf.len() == v.len(),
        forall|i: int| 0 <= i < kf.len() ==> e(#[trigger] kf[i]) == estimate(v[i].1.counter_stored),
    ensures
        grade_sum(kf, e) == handler_sum(v),
    decreases kf.len(),
{
    if kf.len() > 0 {
        let kp = kf.drop_last();
        let vp = v.drop_last();
        assert forall|i: int| 0 <= i < kp.len() implies e(#[trigger] kp[i]) == estimate(vp[i].1.counter_stored) by {
            assert(kp[i] == kf[i]);
            assert(vp[i] == v[i]);
        }
        lemma_grade_sum_handlers(kp, vp, e);
        assert(kf.last() == kf[kf.len() - 1]);
        assert(v.last() == v[v.len() - 1]);
    }
}

/// The grades of `grade_keys` are distinct and are exactly the grades that occur.
proof fn lemma_grade_keys(cs: Seq<Seq<u8>>, g: Seq<u8>)
    ensures
        forall|i: int, j: int|
            0 <= i < grade_keys(cs, g).len() && 0 <= j < grade_keys(cs, g).len() && i != j
                ==> grade_keys(cs, g)[i] != grade_keys(cs, g)[j],
        forall|k: int| 0 <= k < cs.len() ==> grade_keys(cs, g).contains(spec_grade(#[trigger] cs[k], g)),
        forall|r: ResultType| !grade_keys(cs, g).contains(r) ==> #[trigger] with_grade(cs, g, r).len() == 0,
    decreases cs.len(),
{
    if cs.len() > 0 {
        let p = cs.drop_last();
        lemma_grade_keys(p, g);
        let kp = grade_keys(p, g);
        let ks = grade_keys(cs, g);
        let x = cs.last();
        let rx = spec_grade(x, g);
        assert forall|k: int| 0 <= k < cs.len() implies ks.contains(spec_grade(#[trigger] cs[k], g)) by {
            if k < p.len() {
                assert(cs[k] == p[k]);
                let q = choose|q: int| 0 <= q < kp.len() && kp[q] == spec_grade(p[k], g);
                if kp.contains(rx) {
                    assert(ks[q] == kp[q]);
                } else {
                    assert(ks[q] == kp[q]);
                }
            } else {
                assert(cs[k] == x);
                if kp.contains(rx) {
                } else {
                    assert(ks[kp.len() as int] == rx);
                }
            }
        }
        assert forall|r: ResultType| !ks.contains(r) implies #[trigger] with_grade(cs, g, r).len() == 0 by {
            assert(!kp.contains(r)) by {
                if kp.contains(r) {
                    let q = choose|q: int| 0 <= q < kp.len() && kp[q] == r;
                    if kp.contains(rx) {
                        assert(ks == kp);
                    } else {
                        assert(ks[q] == kp[q]);
                    }
                }
            }
            assert(with_grade(p, g, r).len() == 0);
            assert(rx != r) by {
                if rx == r {
                    if kp.contains(rx) {
                        assert(ks == kp);
                    } else {
                        assert(ks[kp.len() as int] == rx);
                    }
                }
            }
        }
        if !kp.contains(rx) {
            assert forall|i: int, j: int| 0 <= i < ks.len() && 0 <= j < ks.len() && i != j implies ks[i] != ks[j] by {
                if i < kp.len() && j < kp.len() {
                } else if i < kp.len() {
                    assert(ks[i] == kp[i]);
                    assert(kp.contains(ks[i]));
                } else if j < kp.len() {
                    assert(ks[j] == kp[j]);
                    assert(kp.contains(ks[j]));
                }
            }
        }
    }
}

/// Every code of `with_grade(cs, g, r)` has grade `r`, and every code of
/// `cs` with grade `r` is one of them.
proof fn lemma_with_grade_members(cs: Seq<Seq<u8>>, g: Seq<u8>, r: ResultType)
    ensures
        forall|j: int| 0 <= j < with_grade(cs, g, r).len() ==> spec_grade(#[trigger] with_grade(cs, g, r)[j], g) == r,
        forall|k: int| 0 <= k < cs.len() && spec_grade(cs[k], g) == r ==> with_grade(cs, g, r).contains(#[trigger] cs[k]),
    decreases cs.len(),
{
    if cs.len() > 0 {
        let p = cs.drop_last();
        lemma_with_grade_members(p, g, r);
        let w = with_grade(cs, g, r);
        let wp = with_grade(p, g, r);
        assert forall|j: int| 0 <= j < w.len() implies spec_grade(#[trigger] w[j], g) == r by {
            if j < wp.len() {
                assert(w[j] == wp[j]);
            }
        }
        assert forall|k: int| 0 <= k < cs.len() && spec_grade(cs[k], g) == r implies w.contains(#[trigger] cs[k]) by {
            if k < p.len() {
                assert(cs[k] == p[k]);
                let q = choose|q: int| 0 <= q < wp.len() && wp[q] == p[k];
                assert(w[q] == wp[q]);
            } else {
                assert(cs[k] == cs.last());
                assert(w[wp.len() as int] == cs.last());
            }
        }
    }
}

/// Summing over the codes is summing over the grades of the sums over the
/// codes of each grade.
proof fn lemma_partition(cs: Seq<Seq<u8>>, g: Seq<u8>, f: spec_fn(Seq<u8>) -> int)
    ensures
        code_sum(cs, f) == grade_sum(grade_keys(cs, g), |k: ResultType| code_sum(with_grade(cs, g, k), f)),
    decreases cs.len(),
{
    if cs.len() > 0 {
        let p = cs.drop_last();
        let x = cs.last();
        let rx = spec_grade(x, g);
        lemma_partition(p, g, f);
        lemma_grade_keys(p, g);
        let t1 = |k: ResultType| code_sum(with_grade(p, g, k), f);
        let t2 = |k: ResultType| code_sum(with_grade(cs, g, k), f);
        assert forall|k: ResultType| #[trigger] t2(k) == t1(k) + (if k == rx { f(x) } else { 0 }) by {
            assert(p.push(x) =~= cs);
            lemma_with_grade_push(p, x, g, k);
            if k == rx {
                assert(with_grade(p, g, k).push(x).drop_last() =~= with_grade(p, g, k));
            }
        }
        let kp = grade_keys(p, g);
        lemma_grade_sum_bump(kp, t1, t2, rx, f(x));
        if kp.contains(rx) {
            assert(grade_keys(cs, g) == kp);
        } else {
            assert(grade_keys(cs, g) == kp.push(rx));
            assert(kp.push(rx).drop_last() =~= kp);
            assert(with_grade(p, g, rx).len() == 0);
            assert(code_sum(with_grade(p, g, rx), f) == 0);
        }
    }
}

proof fn lemma_list_height_elem(s: Seq<CandidateResultType>, i: int)
    requires
        0 <= i < s.len(),
    ensures
        result_height(s[i]) <= list_height(s),
    decreases s.len(),
{
    if i < s.len() - 1 {
        lemma_list_height_elem(s.subrange(0, s.len() - 1), i);
    }
}

proof fn lemma_pairs_height_elem(v: Seq<(ResultType, CandidateHandlerType)>, i: int)
    requires
        0 <= i < v.len(),
    ensures
        handler_height(v[i].1) <= pairs_height(v),
    decreases v.len(),
{
    if i < v.len() - 1 {
        lemma_pairs_height_elem(v.subrange(0, v.len() - 1), i);
    }
}

/// When every code can be followed, the total is the sum of the guesses.
proof fn lemma_guesses_total_sum(h: CandidateHandlerType, cs: Seq<Seq<u8>>, columns: nat, fuel: nat)
    ensures
        (forall|k: int| 0 <= k < cs.len() ==> (#[trigger] handler_guesses(h, cs[k], columns, fuel)) is Some)
            ==> guesses_total(h, cs, columns, fuel) == Some(code_sum(cs, |s: Seq<u8>| guess_value(h, s, columns, fuel)) as nat),
        guesses_total(h, cs, columns, fuel) is Some ==> forall|k: int|
            0 <= k < cs.len() ==> (#[trigger] handler_guesses(h, cs[k], columns, fuel)) is Some,
        0 <= code_sum(cs, |s: Seq<u8>| guess_value(h, s, columns, fuel)),
    decreases cs.len(),
{
    if cs.len() > 0 {
        let p = cs.drop_last();
        lemma_guesses_total_sum(h, p, columns, fuel);
        assert forall|k: int| 0 <= k < p.len() implies #[trigger] p[k] == cs[k] by {}
        assert(cs.last() == cs[cs.len() - 1]);
        if guesses_total(h, cs, columns, fuel) is Some {
            assert(guesses_total(h, p, columns, fuel) is Some);
            assert forall|k: int| 0 <= k < cs.len() implies (#[trigger] handler_guesses(h, cs[k], columns, fuel)) is Some by {
                if k < p.len() {
                    assert(p[k] == cs[k]);
                    assert(handler_guesses(h, p[k], columns, fuel) is Some);
                }
            }
        }
        if forall|k: int| 0 <= k < cs.len() ==> (#[trigger] handler_guesses(h, cs[k], columns, fuel)) is Some {
            assert forall|k: int| 0 <= k < p.len() implies (#[trigger] handler_guesses(h, p[k], columns, fuel)) is Some by {
                assert(p[k] == cs[k]);
                assert(handler_guesses(h, cs[k], columns, fuel) is Some);
            }
            assert(handler_guesses(h, cs[cs.len() - 1], columns, fuel) is Some);
        }
    }
}

/// The grades kept by `key_filter` are grades of `ks` other than `done`, and
/// every such grade is kept.
proof fn lemma_key_filter(ks: Seq<ResultType>, done: ResultType)
    ensures
        forall|i: int|
            0 <= i < key_filter(ks, done).len() ==> #[trigger] key_filter(ks, done)[i] != done && ks.contains(
                key_filter(ks, done)[i],
            ),
        forall|k: ResultType| ks.contains(k) && k != done ==> #[trigger] key_filter(ks, done).contains(k),
    decreases ks.len(),
{
    if ks.len() > 0 {
        let p = ks.drop_last();
        lemma_key_filter(p, done);
        let kf = key_filter(ks, done);
        let kp = key_filter(p, done);
        assert forall|i: int| 0 <= i < kf.len() implies #[trigger] kf[i] != done && ks.contains(kf[i]) by {
            if i < kp.len() {
                assert(kf[i] == kp[i]);
                let q = choose|q: int| 0 <= q < p.len() && p[q] == kp[i];
                assert(ks[q] == p[q]);
            } else {
                assert(kf[i] == ks.last());
                assert(ks[ks.len() - 1] == ks.last());
            }
        }
        assert forall|k: ResultType| ks.contains(k) && k != done implies #[trigger] kf.contains(k) by {
            let q = choose|q: int| 0 <= q < ks.len() && ks[q] == k;
            if q < p.len() {
                assert(p[q] == ks[q]);
                assert(kp.contains(k));
                let j = choose|j: int| 0 <= j < kp.len() && kp[j] == k;
                assert(kf[j] == kp[j]);
            } else {
                assert(ks.last() == k);
                assert(kf[kf.len() - 1] == k);
            }
        }
    }
}

/// For codes of `columns <= 255` columns, a grade solves the game exactly
/// when it is the solving grade.
proof fn lemma_done_grade(g: Seq<u8>, s: Seq<u8>, columns: nat)
    requires
        g.len() == columns,
        s.len() == columns,
        columns <= 255,
    ensures
        (spec_grade(g, s).positions == columns) == (spec_grade(g, s) == done_of(columns)),
{
    crate::mastermind_mechanics::lemma_grade_total(g, s);
}

/// A finished strategy built for the codes `cs`, played against every code
/// of `cs` with at least as many guesses allowed as the tree is deep, makes
/// exactly as many guesses in all as its count.
pub proof fn lemma_strategy_total(h: CandidateHandlerType, cs: Seq<Seq<u8>>, columns: nat, fuel: nat)
    requires
        h.counter_stored is FINISHED,
        handler_built(h, cs, columns),
        handler_ok(h, columns),
        handler_sums(h),
        handler_height(h) <= fuel,
        columns <= 255,
        forall|k: int| 0 <= k < cs.len() ==> (#[trigger] cs[k]).len() == columns,
    ensures
        guesses_total(h, cs, columns, fuel) == Some(estimate(h.counter_stored) as nat),
    decreases fuel,
{
    let c = h.candidate_list@[0];
    assert(result_built(c, cs, columns));
    assert(result_ok(c, columns));
    assert(result_sums(c));
    assert(c.counter_stored is FINISHED);
    assert(estimate(c.counter_stored) == estimate(h.counter_stored));
    let g = c.candidate@;
    lemma_list_height_elem(h.candidate_list@, 0);
    let f = |s: Seq<u8>| guess_value(h, s, columns, fuel);
    match c.result_hashmap {
        CandidateResultHashMap::NEW(groups) => {
            assert(cs.len() == 1);
            let s0 = cs[0];
            crate::mastermind_mechanics::lemma_grade_self(g);
            assert(handler_guesses(h, s0, columns, fuel) == Some(1nat));
            assert(cs.drop_last().len() == 0);
            assert(cs.last() == s0);
            assert(guesses_total(h, cs.drop_last(), columns, fuel) == Some(0nat));
            assert(guesses_total(h, cs, columns, fuel) == Some(1nat));
            assert(estimate(c.counter_stored) == 1);
        },
        CandidateResultHashMap::PROPAGATED(v) => {
            let done = done_of(columns);
            let keys = grade_keys(cs, g);
            let kf = key_filter(keys, done);
            lemma_grade_keys(cs, g);
            lemma_key_filter(keys, done);
            assert(distinct_keys(v@));
            // the handlers below stand for the codes of their grades
            assert forall|i: int| 0 <= i < v@.len() implies {
                &&& (#[trigger] v@[i]).0 == kf[i]
                &&& guesses_total(v@[i].1, with_grade(cs, g, kf[i]), columns, (fuel - 1) as nat) == Some(
                    estimate(v@[i].1.counter_stored) as nat,
                )
            } by {
                lemma_pairs_height_elem(v@, i);
                lemma_with_grade_props(cs, g, kf[i], columns);
                assert(handler_ok(v@[i].1, columns));
                assert(handler_sums(v@[i].1));
                assert(handler_built(v@[i].1, with_grade(cs, g, kf[i]), columns));
                lemma_strategy_total(v@[i].1, with_grade(cs, g, kf[i]), columns, (fuel - 1) as nat);
            }
            // the guesses against the codes of one grade
            let e = |k: ResultType| if has_result(v@, k) {
                estimate(v@[index_of(v@, k)].1.counter_stored) as int
            } else {
                0
            };
            let one = |s: Seq<u8>| 1int;
            let t = |k: ResultType| code_sum(with_grade(cs, g, k), f);
            let t_split = |k: ResultType| with_grade(cs, g, k).len() as int + (if k != done { e(k) } else { 0 });
            assert forall|j: int| 0 <= j < keys.len() implies t(#[trigger] keys[j]) == t_split(keys[j]) && forall|q: int|
                0 <= q < with_grade(cs, g, keys[j]).len() ==> (#[trigger] handler_guesses(
                    h,
                    with_grade(cs, g, keys[j])[q],
                    columns,
                    fuel,
                )) is Some by {
                let k = keys[j];
                let w = with_grade(cs, g, k);
                lemma_with_grade_members(cs, g, k);
                lemma_with_grade_props(cs, g, k, columns);
                if k == done {
                    assert forall|q: int| 0 <= q < w.len() implies f(#[trigger] w[q]) == 1 && handler_guesses(h, w[q], columns, fuel) is Some by {
                        crate::mastermind_mechanics::lemma_grade_symmetric(w[q], g);
                        lemma_done_grade(g, w[q], columns);
                    }
                    lemma_code_sum_one(w, f);
                } else {
                    assert(kf.contains(k));
                    let i = choose|i: int| 0 <= i < kf.len() && kf[i] == k;
                    assert(v@[i].0 == k);
                    assert(has_result(v@, k));
                    assert(index_of(v@, k) == i);
                    let child = v@[i].1;
                    lemma_pairs_height_elem(v@, i);
                    let gc = |s: Seq<u8>| guess_value(child, s, columns, (fuel - 1) as nat);
                    lemma_guesses_total_sum(child, w, columns, (fuel - 1) as nat);
                    assert forall|q: int| 0 <= q < w.len() implies f(#[trigger] w[q]) == one(w[q]) + gc(w[q]) && handler_guesses(h, w[q], columns, fuel) is Some by {
                        crate::mastermind_mechanics::lemma_grade_symmetric(w[q], g);
                        lemma_done_grade(g, w[q], columns);
                        assert(handler_guesses(child, w[q], columns, (fuel - 1) as nat) is Some);
                    }
                    lemma_code_sum_add(w, f, one, gc);
                    lemma_code_sum_one(w, one);
                }
            }
            // every code can be followed
            assert forall|k: int| 0 <= k < cs.len() implies (#[trigger] handler_guesses(h, cs[k], columns, fuel)) is Some by {
                let r = spec_grade(cs[k], g);
                assert(keys.contains(r));
                let j = choose|j: int| 0 <= j < keys.len() && keys[j] == r;
                lemma_with_grade_members(cs, g, r);
                assert(with_grade(cs, g, r).contains(cs[k]));
                let q = choose|q: int| 0 <= q < with_grade(cs, g, r).len() && with_grade(cs, g, r)[q] == cs[k];
                assert(handler_guesses(h, with_grade(cs, g, keys[j])[q], columns, fuel) is Some);
            }
            lemma_guesses_total_sum(h, cs, columns, fuel);
            // add up
            lemma_partition(cs, g, f);
            lemma_grade_sum_congr(keys, t, t_split);
            let size = |k: ResultType| with_grade(cs, g, k).len() as int;
            let extra = |k: ResultType| if k != done { e(k) } else { 0 };
            lemma_grade_sum_add(keys, t_split, size, extra);
            lemma_partition(cs, g, one);
            assert forall|j: int| 0 <= j < keys.len() implies size(#[trigger] keys[j]) == code_sum(with_grade(cs, g, keys[j]), one) by {
                lemma_code_sum_one(with_grade(cs, g, keys[j]), one);
            }
            lemma_grade_sum_congr(keys, size, |k: ResultType| code_sum(with_grade(cs, g, k), one));
            lemma_code_sum_one(cs, one);
            lemma_grade_sum_filter(keys, extra, done);
            assert forall|i: int| 0 <= i < kf.len() implies extra(#[trigger] kf[i]) == estimate(v@[i].1.counter_stored) by {
                assert(v@[i].0 == kf[i]);
                assert(has_result(v@, kf[i]));
                assert(index_of(v@, kf[i]) == i);
            }
            lemma_grade_sum_handlers(kf, v@, extra);
            assert(guesses_total(h, cs, columns, fuel) == Some(code_sum(cs, f) as nat));
            assert(code_sum(cs, f) == grade_sum(keys, t));
            assert(grade_sum(keys, t) == grade_sum(keys, t_split));
            assert(grade_sum(keys, t_split) == grade_sum(keys, size) + grade_sum(keys, extra));
            assert(grade_sum(keys, size) == cs.len());
            assert(grade_sum(keys, extra) == handler_sum(v@));
            assert(estimate(c.counter_stored) == c.number_of_candidates + handler_sum(v@));
        },
    }
}

// ---------------------------------------------------------------------------
// A finished count stays
// ---------------------------------------------------------------------------

/// The counters of `ks` that stay against `best`, in order.
pub open spec fn kept_counters(ks: Seq<StrategyCounter>, best: Option<u16>) -> Seq<StrategyCounter>
    decreases ks.len(),
{
    if ks.len() == 0 {
        ks
    } else {
        let p = kept_counters(ks.drop_last(), best);
        if kept(ks.last(), best) {
            p.push(ks.last())
        } else {
            p
        }
    }
}

proof fn lemma_kept_counters(ks: Seq<StrategyCounter>, best: Option<u16>)
    ensures
        forall|j: int|
            0 <= j < kept_counters(ks, best).len() ==> kept(#[trigger] kept_counters(ks, best)[j], best)
                && ks.contains(kept_counters(ks, best)[j]),
        forall|i: int| 0 <= i < ks.len() && kept(ks[i], best) ==> kept_counters(ks, best).contains(#[trigger] ks[i]),
        best is None ==> kept_counters(ks, best) == ks,
    decreases ks.len(),
{
    if ks.len() > 0 {
        let p = ks.drop_last();
        lemma_kept_counters(p, best);
        let kk = kept_counters(ks, best);
        let kp = kept_counters(p, best);
        assert forall|j: int| 0 <= j < kk.len() implies kept(#[trigger] kk[j], best) && ks.contains(kk[j]) by {
            if j < kp.len() {
                assert(kk[j] == kp[j]);
                let q = choose|q: int| 0 <= q < p.len() && p[q] == kp[j];
                assert(ks[q] == p[q]);
            } else {
                assert(kk[j] == ks.last());
                assert(ks[ks.len() - 1] == ks.last());
            }
        }
        assert forall|i: int| 0 <= i < ks.len() && kept(ks[i], best) implies kk.contains(#[trigger] ks[i]) by {
            if i < p.len() {
                assert(p[i] == ks[i]);
                assert(kp.contains(p[i]));
                let q = choose|q: int| 0 <= q < kp.len() && kp[q] == p[i];
                assert(kk[q] == kp[q]);
            } else {
                assert(ks[i] == ks.last());
                assert(kk[kk.len() - 1] == ks.last());
            }
        }
        if best is None {
            assert(kk =~= ks);
        }
    }
}

/// The best finished count is the one a (partially) finished counter has
/// and no (partially) finished counter is below.
proof fn lemma_min_finished_char(ks: Seq<StrategyCounter>, m: u16)
    requires
        exists|i: int| 0 <= i < ks.len() && !(ks[i] is PENDING) && estimate(#[trigger] ks[i]) == m,
        forall|i: int| 0 <= i < ks.len() && !(ks[i] is PENDING) ==> m <= #[trigger] estimate(ks[i]),
    ensures
        min_finished(ks) == Some(m),
    decreases ks.len(),
{
    let p = ks.drop_last();
    let x = ks.last();
    assert(x == ks[ks.len() - 1]);
    assert forall|i: int| 0 <= i < p.len() && !(p[i] is PENDING) implies m <= #[trigger] estimate(p[i]) by {
        assert(p[i] == ks[i]);
    }
    let i0 = choose|i: int| 0 <= i < ks.len() && !(ks[i] is PENDING) && estimate(#[trigger] ks[i]) == m;
    if i0 < p.len() {
        assert(p[i0] == ks[i0]);
        lemma_min_finished_char(p, m);
    } else {
        lemma_min_finished_lower(p);
        if let Some(mp) = min_finished(p) {
            lemma_min_finished_witness(p);
            let j = choose|j: int| 0 <= j < p.len() && estimate(#[trigger] p[j]) == mp;
            assert(p[j] == ks[j]);
            lemma_min_finished_nonpending(p);
        }
    }
}

/// The best finished count belongs to a (partially) finished counter.
proof fn lemma_min_finished_nonpending(ks: Seq<StrategyCounter>)
    ensures
        min_finished(ks) matches Some(b) ==> exists|i: int|
            0 <= i < ks.len() && !(ks[i] is PENDING) && estimate(#[trigger] ks[i]) == b,
    decreases ks.len(),
{
    if ks.len() > 0 {
        let p = ks.drop_last();
        lemma_min_finished_nonpending(p);
        if let Some(mp) = min_finished(p) {
            let i = choose|i: int| 0 <= i < p.len() && !(p[i] is PENDING) && estimate(#[trigger] p[i]) == mp;
            assert(ks[i] == p[i]);
        }
        assert(ks.last() == ks[ks.len() - 1]);
    }
}

/// The best count is the count of one counter and no counter is below it.
proof fn lemma_min_estimate_char(ks: Seq<StrategyCounter>, m: u16)
    requires
        exists|i: int| 0 <= i < ks.len() && estimate(#[trigger] ks[i]) == m,
        forall|i: int| 0 <= i < ks.len() ==> m <= #[trigger] estimate(ks[i]),
    ensures
        min_estimate(ks) == Some(m),
    decreases ks.len(),
{
    let p = ks.drop_last();
    let x = ks.last();
    assert(x == ks[ks.len() - 1]);
    assert forall|i: int| 0 <= i < p.len() implies m <= #[trigger] estimate(p[i]) by {
        assert(p[i] == ks[i]);
    }
    let i0 = choose|i: int| 0 <= i < ks.len() && estimate(#[trigger] ks[i]) == m;
    if i0 < p.len() {
        assert(p[i0] == ks[i0]);
        lemma_min_estimate_char(p, m);
    } else {
        if let Some(mp) = min_estimate(p) {
            lemma_min_estimate_witness(p);
            let j = choose|j: int| 0 <= j < p.len() && estimate(#[trigger] p[j]) == mp;
            assert(p[j] == ks[j]);
        }
    }
}

/// The best count is no more than any count.
proof fn lemma_min_estimate_lower(ks: Seq<StrategyCounter>)
    ensures
        min_estimate(ks) matches Some(m) ==> forall|i: int| 0 <= i < ks.len() ==> m <= #[trigger] estimate(ks[i]),
    decreases ks.len(),
{
    if ks.len() > 0 {
        let p = ks.drop_last();
        lemma_min_estimate_lower(p);
        assert forall|i: int| 0 <= i < ks.len() implies min_estimate(ks).unwrap() <= #[trigger] estimate(ks[i]) by {
            if i < p.len() {
                assert(ks[i] == p[i]);
            }
        }
    }
}

/// Counting the counted guesses that stay gives the same handler counter.
proof fn lemma_handler_value_kept(c: StrategyCounter, ks: Seq<StrategyCounter>)
    requires
        handler_value(c, ks) == c,
    ensures
        handler_value(c, kept_counters(ks, min_finished(ks))) == c,
{
    let best = min_finished(ks);
    let kk = kept_counters(ks, best);
    lemma_kept_counters(ks, best);
    if let Some(b) = best {
        lemma_min_finished_nonpending(ks);
        lemma_min_finished_lower(ks);
        let i0 = choose|i: int| 0 <= i < ks.len() && !(ks[i] is PENDING) && estimate(#[trigger] ks[i]) == b;
        assert(kept(ks[i0], best));
        assert(kk.contains(ks[i0]));
        let j0 = choose|j: int| 0 <= j < kk.len() && kk[j] == ks[i0];
        assert forall|j: int| 0 <= j < kk.len() && !(kk[j] is PENDING) implies b <= #[trigger] estimate(kk[j]) by {
            let q = choose|q: int| 0 <= q < ks.len() && ks[q] == kk[j];
        }
        assert(!(kk[j0] is PENDING) && estimate(kk[j0]) == b);
        lemma_min_finished_char(kk, b);
        let all_ks = forall|i: int| 0 <= i < ks.len() && #[trigger] estimate(ks[i]) <= b ==> ks[i] is FINISHED;
        let all_kk = forall|j: int| 0 <= j < kk.len() && #[trigger] estimate(kk[j]) <= b ==> kk[j] is FINISHED;
        if all_ks {
            assert forall|j: int| 0 <= j < kk.len() && #[trigger] estimate(kk[j]) <= b implies kk[j] is FINISHED by {
                let q = choose|q: int| 0 <= q < ks.len() && ks[q] == kk[j];
            }
        }
        if all_kk {
            assert forall|i: int| 0 <= i < ks.len() && #[trigger] estimate(ks[i]) <= b implies ks[i] is FINISHED by {
                assert(kept(ks[i], best));
                assert(kk.contains(ks[i]));
                let q = choose|q: int| 0 <= q < kk.len() && kk[q] == ks[i];
            }
        }
        // the best count of all counters stays, as it is not above `b`
        lemma_min_estimate_witness(ks);
        lemma_min_estimate_lower(ks);
        let m = min_estimate(ks).unwrap();
        let im = choose|i: int| 0 <= i < ks.len() && estimate(#[trigger] ks[i]) == m;
        assert(m <= estimate(ks[i0]));
        assert(kept(ks[im], best));
        assert(kk.contains(ks[im]));
        let jm = choose|j: int| 0 <= j < kk.len() && kk[j] == ks[im];
        assert(estimate(kk[jm]) == m);
        assert forall|j: int| 0 <= j < kk.len() implies m <= #[trigger] estimate(kk[j]) by {
            let q = choose|q: int| 0 <= q < ks.len() && ks[q] == kk[j];
        }
        lemma_min_estimate_char(kk, m);
    }
}

/// Counting a counted handler again gives its counter (and likewise for a
/// guess): counting is idempotent.
proof fn lemma_handler_recount(old: CandidateHandlerType, new: CandidateHandlerType)
    requires
        handler_count_post(old, new),
    ensures
        handler_counted(new) == new.counter_stored,
        new.counter_stored == handler_counted(old),
    decreases old,
{
    let v = old.candidate_list@;
    let ks = list_counted(v);
    let best = min_finished(ks);
    lemma_list_recount(v, new.candidate_list@, best);
    assert(handler_value(old.counter_stored, ks) == new.counter_stored);
    // the counter of the counted handler does not depend on the counter it had
    if let Some(b) = best {
        lemma_handler_value_kept(new.counter_stored, ks);
    } else {
        lemma_kept_counters(ks, best);
        if min_estimate(ks) is None {
            assert(ks.len() == 0) by {
                if ks.len() > 0 {
                    assert(min_estimate(ks) is Some);
                }
            }
            lemma_list_counted(v);
            assert(new.candidate_list@.len() == 0) by {
                lemma_list_count_origin(v, new.candidate_list@, best);
                if new.candidate_list@.len() > 0 {
                    assert(new.candidate_list@[0] == new.candidate_list@[0]);
                }
            }
            assert(list_counted(new.candidate_list@) =~= ks);
        }
    }
}

/// The counted guesses that stay count as they are.
proof fn lemma_list_recount(v: Seq<CandidateResultType>, w: Seq<CandidateResultType>, best: Option<u16>)
    requires
        list_count_post(v, w, best),
    ensures
        list_counted(w) == kept_counters(list_counted(v), best),
    decreases v,
{
    if v.len() == 0 {
        assert(w.len() == 0);
        assert(list_counted(w) =~= kept_counters(list_counted(v), best));
    } else {
        let vp = v.subrange(0, v.len() - 1);
        let x = v[v.len() - 1];
        assert(list_counted(v) == list_counted(vp).push(result_counted(x)));
        assert(list_counted(vp).push(result_counted(x)).drop_last() =~= list_counted(vp));
        let ks = list_counted(v);
        let kp = list_counted(vp);
        assert(ks.drop_last() == kp);
        assert(ks.last() == result_counted(x));
        if kept(result_counted(x), best) {
            assert(w.len() > 0);
            let wp = w.subrange(0, w.len() - 1);
            lemma_list_recount(vp, wp, best);
            lemma_result_recount(x, w[w.len() - 1]);
            assert(list_counted(w) == list_counted(wp).push(result_counted(w[w.len() - 1])));
            assert(kept_counters(ks, best) == kept_counters(kp, best).push(result_counted(x)));
            assert(result_count_post(x, w[w.len() - 1]));
            assert(result_counted(w[w.len() - 1]) == result_counted(x));
            assert(list_counted(wp) == kept_counters(kp, best));
            assert(list_counted(w) == kept_counters(ks, best));
        } else {
            lemma_list_recount(vp, w, best);
            assert(kept_counters(ks, best) == kept_counters(kp, best));
            assert(list_counted(w) == kept_counters(ks, best));
        }
    }
}

proof fn lemma_result_recount(old: CandidateResultType, new: CandidateResultType)
    requires
        result_count_post(old, new),
    ensures
        result_counted(new) == new.counter_stored,
    decreases old,
{
    if let CandidateResultHashMap::PROPAGATED(v) = old.result_hashmap {
        if let CandidateResultHashMap::PROPAGATED(w) = new.result_hashmap {
            lemma_pairs_counted(v@);
            lemma_pairs_counted(w@);
            assert forall|i: int| 0 <= i < w@.len() implies #[trigger] pairs_counted(w@)[i] == pairs_counted(v@)[i] by {
                lemma_handler_recount(v@[i].1, w@[i].1);
            }
            assert(pairs_counted(w@) =~= pairs_counted(v@));
        }
    }
}

/// Once a counted handler is finished, one more round (propagating, then
/// counting) leaves its counter as it is.
pub proof fn lemma_finished_stays(
    h0: CandidateHandlerType,
    h1: CandidateHandlerType,
    h2: CandidateHandlerType,
    h3: CandidateHandlerType,
    colors: nat,
    columns: nat,
)
    requires
        handler_count_post(h0, h1),
        handler_ok(h1, columns),
        h1.counter_stored is FINISHED,
        handler_propagate_post(h1, h2, colors, columns),
        handler_count_post(h2, h3),
    ensures
        h3.counter_stored == h1.counter_stored,
{
    lemma_handler_recount(h0, h1);
    assert forall|i: int| 0 <= i < h1.candidate_list@.len() implies #[trigger] h2.candidate_list@[i] == h1.candidate_list@[i] by {
        assert(result_propagate_post(h1.candidate_list@[i], h2.candidate_list@[i], colors, columns));
    }
    assert(h2.candidate_list@ =~= h1.candidate_list@);
}

// ---------------------------------------------------------------------------
// Counts never beat the best case
// ---------------------------------------------------------------------------

/// No code occurs twice.
pub open spec fn distinct_codes(cs: Seq<Seq<u8>>) -> bool {
    forall|i: int, j: int| 0 <= i < cs.len() && 0 <= j < cs.len() && i != j ==> cs[i] != cs[j]
}

/// Every handler of the tree has a count of at least the best case `2n - 1`
/// for the `n` codes it stands for.
pub open spec fn handler_bounded(h: CandidateHandlerType, cs: Seq<Seq<u8>>) -> bool
    decreases h,
{
    &&& estimate(h.counter_stored) >= 2 * cs.len() - 1
    &&& forall|i: int| 0 <= i < h.candidate_list@.len() ==> result_bounded(#[trigger] h.candidate_list@[i], cs)
}

pub open spec fn result_bounded(c: CandidateResultType, cs: Seq<Seq<u8>>) -> bool
    decreases c,
{
    match c.result_hashmap {
        CandidateResultHashMap::NEW(_) => true,
        CandidateResultHashMap::PROPAGATED(v) => forall|i: int|
            0 <= i < v@.len() ==> handler_bounded((#[trigger] v@[i]).1, with_grade(cs, c.candidate@, v@[i].0)),
    }
}

/// The codes of one grade of distinct codes are distinct; every grade of
/// `grade_keys` has a code.
proof fn lemma_with_grade_distinct(cs: Seq<Seq<u8>>, g: Seq<u8>, r: ResultType)
    requires
        distinct_codes(cs),
    ensures
        distinct_codes(with_grade(cs, g, r)),
    decreases cs.len(),
{
    if cs.len() > 0 {
        let p = cs.drop_last();
        assert forall|i: int, j: int| 0 <= i < p.len() && 0 <= j < p.len() && i != j implies p[i] != p[j] by {
            assert(p[i] == cs[i]);
            assert(p[j] == cs[j]);
        }
        lemma_with_grade_distinct(p, g, r);
        let w = with_grade(cs, g, r);
        let wp = with_grade(p, g, r);
        if spec_grade(cs.last(), g) == r {
            lemma_with_grade_members(p, g, r);
            assert forall|i: int, j: int| 0 <= i < w.len() && 0 <= j < w.len() && i != j implies w[i] != w[j] by {
                if i < wp.len() && j < wp.len() {
                    assert(w[i] == wp[i]);
                    assert(w[j] == wp[j]);
                } else if i < wp.len() {
                    assert(w[i] == wp[i]);
                    lemma_with_grade_in(p, g, r, i);
                    let k = choose|k: int| 0 <= k < p.len() && p[k] == wp[i];
                    assert(cs[k] == p[k]);
                    assert(w[j] == cs[cs.len() - 1]);
                } else if j < wp.len() {
                    assert(w[j] == wp[j]);
                    lemma_with_grade_in(p, g, r, j);
                    let k = choose|k: int| 0 <= k < p.len() && p[k] == wp[j];
                    assert(cs[k] == p[k]);
                    assert(w[i] == cs[cs.len() - 1]);
                }
            }
        }
    }
}

/// Every code of `with_grade` is a code of `cs`.
proof fn lemma_with_grade_in(cs: Seq<Seq<u8>>, g: Seq<u8>, r: ResultType, j: int)
    requires
        0 <= j < with_grade(cs, g, r).len(),
    ensures
        exists|k: int| 0 <= k < cs.len() && cs[k] == with_grade(cs, g, r)[j],
    decreases cs.len(),
{
    let p = cs.drop_last();
    let wp = with_grade(p, g, r);
    if j < wp.len() {
        lemma_with_grade_in(p, g, r, j);
        let k = choose|k: int| 0 <= k < p.len() && p[k] == wp[j];
        assert(cs[k] == p[k]);
    } else {
        assert(cs[cs.len() - 1] == cs.last());
    }
}

/// Every grade of `grade_keys` is the grade of a code.
proof fn lemma_grade_keys_witness(cs: Seq<Seq<u8>>, g: Seq<u8>, j: int)
    requires
        0 <= j < grade_keys(cs, g).len(),
    ensures
        with_grade(cs, g, grade_keys(cs, g)[j]).len() >= 1,
    decreases cs.len(),
{
    let p = cs.drop_last();
    let kp = grade_keys(p, g);
    let r = grade_keys(cs, g)[j];
    lemma_with_grade_push(p, cs.last(), g, r);
    assert(p.push(cs.last()) =~= cs);
    if j < kp.len() {
        if kp.contains(spec_grade(cs.last(), g)) {
        } else {
            assert(grade_keys(cs, g)[j] == kp[j]);
        }
        lemma_grade_keys_witness(p, g, j);
    }
}

/// Distinct codes have at most one code of the solving grade.
proof fn lemma_done_group(cs: Seq<Seq<u8>>, g: Seq<u8>, columns: nat)
    requires
        distinct_codes(cs),
        g.len() == columns,
        columns <= 255,
        forall|k: int| 0 <= k < cs.len() ==> (#[trigger] cs[k]).len() == columns,
    ensures
        with_grade(cs, g, done_of(columns)).len() <= 1,
{
    let w = with_grade(cs, g, done_of(columns));
    lemma_with_grade_distinct(cs, g, done_of(columns));
    lemma_with_grade_members(cs, g, done_of(columns));
    lemma_with_grade_props(cs, g, done_of(columns), columns);
    if w.len() > 1 {
        crate::mastermind_mechanics::lemma_grade_total(w[0], g);
        crate::mastermind_mechanics::lemma_grade_total(w[1], g);
        crate::mastermind_mechanics::lemma_grade_exact_iff_equal(w[0], g);
        crate::mastermind_mechanics::lemma_grade_exact_iff_equal(w[1], g);
        assert(spec_grade(w[0], g) == done_of(columns));
        assert(spec_grade(w[1], g) == done_of(columns));
        assert(w[0] == g);
        assert(w[1] == g);
    }
}

/// The smallest count is the count of one of the counters.
proof fn lemma_min_estimate_witness(ks: Seq<StrategyCounter>)
    ensures
        min_estimate(ks) matches Some(b) ==> exists|i: int| 0 <= i < ks.len() && estimate(#[trigger] ks[i]) == b,
        ks.len() > 0 ==> min_estimate(ks) is Some,
    decreases ks.len(),
{
    if ks.len() > 0 {
        let p = ks.drop_last();
        lemma_min_estimate_witness(p);
        if let Some(m) = min_estimate(p) {
            let i = choose|i: int| 0 <= i < p.len() && estimate(#[trigger] p[i]) == m;
            assert(ks[i] == p[i]);
        }
        assert(ks.last() == ks[ks.len() - 1]);
    }
}

/// A lower bound for each count gives a lower bound for the sum.
proof fn lemma_sum_lower(ks: Seq<StrategyCounter>, kf: Seq<ResultType>, t: spec_fn(ResultType) -> int)
    requires
        ks.len() == kf.len(),
        forall|i: int| 0 <= i < ks.len() ==> estimate(#[trigger] ks[i]) >= t(kf[i]),
    ensures
        sum_estimates(ks) >= grade_sum(kf, t),
    decreases ks.len(),
{
    if ks.len() > 0 {
        let kp = ks.drop_last();
        let fp = kf.drop_last();
        assert forall|i: int| 0 <= i < kp.len() implies estimate(#[trigger] kp[i]) >= t(fp[i]) by {
            assert(kp[i] == ks[i]);
            assert(fp[i] == kf[i]);
        }
        lemma_sum_lower(kp, fp, t);
        assert(ks.last() == ks[ks.len() - 1]);
        assert(kf.last() == kf[kf.len() - 1]);
    }
}

/// Grades with at least one code each count at least one each.
proof fn lemma_grade_sum_at_least_len(kf: Seq<ResultType>, t: spec_fn(ResultType) -> int)
    requires
        forall|i: int| 0 <= i < kf.len() ==> t(#[trigger] kf[i]) >= 1,
    ensures
        grade_sum(kf, t) >= kf.len(),
    decreases kf.len(),
{
    if kf.len() > 0 {
        let fp = kf.drop_last();
        assert forall|i: int| 0 <= i < fp.len() implies t(#[trigger] fp[i]) >= 1 by {
            assert(fp[i] == kf[i]);
        }
        lemma_grade_sum_at_least_len(fp, t);
        assert(kf.last() == kf[kf.len() - 1]);
    }
}

/// Counting a handler gives at least the best case of its codes.
proof fn lemma_handler_counted_bound(h: CandidateHandlerType, cs: Seq<Seq<u8>>, columns: nat)
    requires
        handler_built(h, cs, columns),
        handler_bounded(h, cs),
        handler_fits(h),
        handler_ok(h, columns),
        distinct_codes(cs),
        cs.len() >= 1,
        columns <= 255,
        forall|k: int| 0 <= k < cs.len() ==> (#[trigger] cs[k]).len() == columns,
    ensures
        estimate(handler_counted(h)) >= 2 * cs.len() - 1,
    decreases h,
{
    let v = h.candidate_list@;
    let ks = list_counted(v);
    lemma_list_counted(v);
    assert forall|i: int| 0 <= i < ks.len() implies estimate(#[trigger] ks[i]) >= 2 * cs.len() - 1 by {
        lemma_result_counted_bound(v[i], cs, columns);
    }
    lemma_min_finished_witness(ks);
    lemma_min_estimate_witness(ks);
}

/// Counting a guess gives at least the best case of its codes.
proof fn lemma_result_counted_bound(c: CandidateResultType, cs: Seq<Seq<u8>>, columns: nat)
    requires
        result_built(c, cs, columns),
        result_bounded(c, cs),
        result_fits(c),
        result_ok(c, columns),
        distinct_codes(cs),
        cs.len() >= 1,
        columns <= 255,
        forall|k: int| 0 <= k < cs.len() ==> (#[trigger] cs[k]).len() == columns,
    ensures
        estimate(result_counted(c)) >= 2 * cs.len() - 1,
    decreases c,
{
    let n = cs.len();
    let g = c.candidate@;
    if let CandidateResultHashMap::PROPAGATED(v) = c.result_hashmap {
        let done = done_of(columns);
        let keys = grade_keys(cs, g);
        let kf = key_filter(keys, done);
        let ks = pairs_counted(v@);
        lemma_pairs_counted(v@);
        lemma_grade_keys(cs, g);
        lemma_key_filter(keys, done);
        let size = |k: ResultType| with_grade(cs, g, k).len() as int;
        let bound = |k: ResultType| 2 * with_grade(cs, g, k).len() - 1;
        // every handler below counts at least the best case of its codes
        assert forall|i: int| 0 <= i < ks.len() implies estimate(#[trigger] ks[i]) >= bound(kf[i]) && size(kf[i]) >= 1 by {
            let w = with_grade(cs, g, kf[i]);
            assert(v@[i].0 == kf[i]);
            let j = choose|j: int| 0 <= j < keys.len() && keys[j] == kf[i];
            lemma_grade_keys_witness(cs, g, j);
            lemma_with_grade_distinct(cs, g, kf[i]);
            lemma_with_grade_props(cs, g, kf[i], columns);
            assert(handler_built(v@[i].1, w, columns));
            assert(handler_bounded(v@[i].1, w));
            assert(handler_fits(v@[i].1));
            assert(handler_ok(v@[i].1, columns));
            lemma_handler_counted_bound(v@[i].1, w, columns);
        }
        lemma_sum_lower(ks, kf, bound);
        // the groups of the handlers hold all codes but the solving one
        let one = |s: Seq<u8>| 1int;
        lemma_partition(cs, g, one);
        assert forall|j: int| 0 <= j < keys.len() implies size(#[trigger] keys[j]) == code_sum(with_grade(cs, g, keys[j]), one) by {
            lemma_code_sum_one(with_grade(cs, g, keys[j]), one);
        }
        lemma_grade_sum_congr(keys, size, |k: ResultType| code_sum(with_grade(cs, g, k), one));
        lemma_code_sum_one(cs, one);
        let d = with_grade(cs, g, done).len() as int;
        let size_u = |k: ResultType| if k != done { with_grade(cs, g, k).len() as int } else { 0 };
        lemma_grade_sum_bump(keys, size_u, size, done, d);
        lemma_grade_sum_filter(keys, size_u, done);
        assert forall|i: int| 0 <= i < kf.len() implies size_u(#[trigger] kf[i]) == size(kf[i]) by {}
        lemma_grade_sum_congr(kf, size_u, size);
        lemma_done_group(cs, g, columns);
        if !keys.contains(done) {
            assert(d == 0);
        }
        // sum of the best cases below
        let two_size = |k: ResultType| 2 * with_grade(cs, g, k).len() as int;
        let minus_one = |k: ResultType| -1int;
        assert forall|i: int| 0 <= i < kf.len() implies bound(#[trigger] kf[i]) == two_size(kf[i]) + minus_one(kf[i]) by {}
        lemma_grade_sum_add(kf, bound, two_size, minus_one);
        lemma_grade_sum_scale(kf, size, two_size, 2);
        lemma_grade_sum_const(kf, minus_one, -1);
        assert forall|i: int| 0 <= i < kf.len() implies size(#[trigger] kf[i]) >= 1 by {
            let j = choose|j: int| 0 <= j < keys.len() && keys[j] == kf[i];
            lemma_grade_keys_witness(cs, g, j);
        }
        lemma_grade_sum_at_least_len(kf, size);
        lemma_sum_nonneg(ks);
        assert(grade_sum(kf, size) == n - d);
        assert(sum_estimates(ks) >= 2 * (n - d) - kf.len());
        assert(kf.len() <= n - d);
    }
}

proof fn lemma_grade_sum_scale(ks: Seq<ResultType>, t: spec_fn(ResultType) -> int, t2: spec_fn(ResultType) -> int, a: int)
    requires
        forall|i: int| 0 <= i < ks.len() ==> t2(#[trigger] ks[i]) == a * t(ks[i]),
    ensures
        grade_sum(ks, t2) == a * grade_sum(ks, t),
    decreases ks.len(),
{
    if ks.len() > 0 {
        let p = ks.drop_last();
        assert forall|i: int| 0 <= i < p.len() implies t2(#[trigger] p[i]) == a * t(p[i]) by {
            assert(p[i] == ks[i]);
        }
        lemma_grade_sum_scale(p, t, t2, a);
        assert(ks.last() == ks[ks.len() - 1]);
        assert(a * grade_sum(p, t) + a * t(ks.last()) == a * (grade_sum(p, t) + t(ks.last()))) by (nonlinear_arith);
    }
}

proof fn lemma_grade_sum_const(ks: Seq<ResultType>, t: spec_fn(ResultType) -> int, a: int)
    requires
        forall|i: int| 0 <= i < ks.len() ==> t(#[trigger] ks[i]) == a,
    ensures
        grade_sum(ks, t) == a * ks.len(),
    decreases ks.len(),
{
    if ks.len() > 0 {
        let p = ks.drop_last();
        assert forall|i: int| 0 <= i < p.len() implies t(#[trigger] p[i]) == a by {
            assert(p[i] == ks[i]);
        }
        lemma_grade_sum_const(p, t, a);
        assert(ks.last() == ks[ks.len() - 1]);
        assert(a * p.len() + a == a * ks.len()) by (nonlinear_arith)
            requires
                ks.len() == p.len() + 1,
        ;
    }
}

pub(crate) proof fn lemma_created_bounded(h: CandidateHandlerType, gs: Seq<Seq<u8>>, colors: nat, columns: nat)
    requires
        created(h, gs, colors, columns),
        1 <= gs.len() <= 32767,
    ensures
        handler_bounded(h, gs),
{
    let sel = selection(gs, all_codes(colors, columns), code_count(colors, columns) as int);
    assert forall|i: int| 0 <= i < h.candidate_list@.len() implies result_bounded(#[trigger] h.candidate_list@[i], gs) by {
        if gs.len() > 2 {
            assert(fresh_result(h.candidate_list@[i], gs, sel[i]));
        }
    }
}

proof fn lemma_handler_propagate_bounded(old: CandidateHandlerType, new: CandidateHandlerType, cs: Seq<Seq<u8>>, colors: nat, columns: nat)
    requires
        handler_propagate_post(old, new, colors, columns),
        handler_bounded(old, cs),
        handler_built(old, cs, columns),
        handler_ok(old, columns),
    ensures
        handler_bounded(new, cs),
    decreases old,
{
    assert forall|i: int| 0 <= i < new.candidate_list@.len() implies result_bounded(#[trigger] new.candidate_list@[i], cs) by {
        lemma_result_propagate_bounded(old.candidate_list@[i], new.candidate_list@[i], cs, colors, columns);
    }
}

proof fn lemma_result_propagate_bounded(old: CandidateResultType, new: CandidateResultType, cs: Seq<Seq<u8>>, colors: nat, columns: nat)
    requires
        result_propagate_post(old, new, colors, columns),
        result_bounded(old, cs),
        result_built(old, cs, columns),
        result_ok(old, columns),
    ensures
        result_bounded(new, cs),
    decreases old,
{
    if !(old.counter_stored is FINISHED) {
        let g = old.candidate@;
        match old.result_hashmap {
            CandidateResultHashMap::NEW(groups) => {
                if groups@.len() > 1 {
                    if let CandidateResultHashMap::PROPAGATED(w) = new.result_hashmap {
                        let done = done_of(columns);
                        let u = unsolved(groups@, done);
                        lemma_unsolved_filter(groups@, grade_keys(cs, g), done);
                        assert forall|i: int| 0 <= i < w@.len() implies handler_bounded((#[trigger] w@[i]).1, with_grade(cs, g, w@[i].0)) by {
                            let k = choose|k: int| 0 <= k < groups@.len() && u[i] == groups@[k];
                            assert(views(groups@[k].1@) == with_grade(cs, g, groups@[k].0));
                            assert(views(groups@[k].1@).len() == groups@[k].1@.len());
                            assert(created(w@[i].1, views(u[i].1@), colors, columns));
                            lemma_created_bounded(w@[i].1, views(u[i].1@), colors, columns);
                        }
                    }
                }
            },
            CandidateResultHashMap::PROPAGATED(v) => {
                if let CandidateResultHashMap::PROPAGATED(w) = new.result_hashmap {
                    let ks = key_filter(grade_keys(cs, g), done_of(columns));
                    assert forall|i: int| 0 <= i < w@.len() implies handler_bounded((#[trigger] w@[i]).1, with_grade(cs, g, w@[i].0)) by {
                        assert(handler_bounded(v@[i].1, with_grade(cs, g, v@[i].0)));
                        if !(v@[i].1.counter_stored is FINISHED) {
                            assert(handler_built(v@[i].1, with_grade(cs, g, ks[i]), columns));
                            lemma_handler_propagate_bounded(v@[i].1, w@[i].1, with_grade(cs, g, v@[i].0), colors, columns);
                        }
                    }
                }
            },
        }
    }
}

proof fn lemma_handler_count_bounded(old: CandidateHandlerType, new: CandidateHandlerType, cs: Seq<Seq<u8>>, columns: nat)
    requires
        handler_count_post(old, new),
        handler_built(old, cs, columns),
        handler_bounded(old, cs),
        handler_fits(old),
        handler_ok(old, columns),
        distinct_codes(cs),
        cs.len() >= 1,
        columns <= 255,
        forall|k: int| 0 <= k < cs.len() ==> (#[trigger] cs[k]).len() == columns,
    ensures
        handler_bounded(new, cs),
    decreases old,
{
    lemma_handler_counted_bound(old, cs, columns);
    let best = min_finished(list_counted(old.candidate_list@));
    lemma_list_count_origin(old.candidate_list@, new.candidate_list@, best);
    assert forall|m: int| 0 <= m < new.candidate_list@.len() implies result_bounded(#[trigger] new.candidate_list@[m], cs) by {
        let i = choose|i: int|
            0 <= i < old.candidate_list@.len() && result_count_post(old.candidate_list@[i], #[trigger] new.candidate_list@[m])
                && kept(result_counted(old.candidate_list@[i]), best);
        lemma_result_count_bounded(old.candidate_list@[i], new.candidate_list@[m], cs, columns);
    }
}

proof fn lemma_result_count_bounded(old: CandidateResultType, new: CandidateResultType, cs: Seq<Seq<u8>>, columns: nat)
    requires
        result_count_post(old, new),
        result_built(old, cs, columns),
        result_bounded(old, cs),
        result_fits(old),
        result_ok(old, columns),
        distinct_codes(cs),
        cs.len() >= 1,
        columns <= 255,
        forall|k: int| 0 <= k < cs.len() ==> (#[trigger] cs[k]).len() == columns,
    ensures
        result_bounded(new, cs),
    decreases old,
{
    let g = old.candidate@;
    if let CandidateResultHashMap::PROPAGATED(v) = old.result_hashmap {
        if let CandidateResultHashMap::PROPAGATED(w) = new.result_hashmap {
            let keys = grade_keys(cs, g);
            let ks = key_filter(keys, done_of(columns));
            lemma_key_filter(keys, done_of(columns));
            assert forall|i: int| 0 <= i < w@.len() implies handler_bounded((#[trigger] w@[i]).1, with_grade(cs, g, w@[i].0)) by {
                let wg = with_grade(cs, g, ks[i]);
                let j = choose|j: int| 0 <= j < keys.len() && keys[j] == ks[i];
                lemma_grade_keys_witness(cs, g, j);
                lemma_with_grade_distinct(cs, g, ks[i]);
                lemma_with_grade_props(cs, g, ks[i], columns);
                assert(handler_built(v@[i].1, wg, columns));
                assert(handler_bounded(v@[i].1, wg));
                assert(handler_fits(v@[i].1));
                assert(handler_ok(v@[i].1, columns));
                lemma_handler_count_bounded(v@[i].1, w@[i].1, wg, columns);
            }
        }
    }
}

proof fn lemma_handler_prune_bounded(old: CandidateHandlerType, new: CandidateHandlerType, cs: Seq<Seq<u8>>)
    requires
        handler_prune_post(old, new),
        handler_bounded(old, cs),
    ensures
        handler_bounded(new, cs),
    decreases old,
{
    if old.candidate_list@.len() > 0 {
        lemma_result_prune_bounded(old.candidate_list@[0], new.candidate_list@[0], cs);
    }
}

proof fn lemma_result_prune_bounded(old: CandidateResultType, new: CandidateResultType, cs: Seq<Seq<u8>>)
    requires
        result_prune_post(old, new),
        result_bounded(old, cs),
    ensures
        result_bounded(new, cs),
    decreases old,
{
    let g = old.candidate@;
    if let CandidateResultHashMap::PROPAGATED(v) = old.result_hashmap {
        if let CandidateResultHashMap::PROPAGATED(w) = new.result_hashmap {
            assert forall|i: int| 0 <= i < w@.len() implies handler_bounded((#[trigger] w@[i]).1, with_grade(cs, g, w@[i].0)) by {
                assert(handler_bounded(v@[i].1, with_grade(cs, g, v@[i].0)));
                lemma_handler_prune_bounded(v@[i].1, w@[i].1, with_grade(cs, g, v@[i].0));
            }
        }
    }
}

// ---------------------------------------------------------------------------
// The search tree of a configuration
// ---------------------------------------------------------------------------

/// The search tree `h` stands for all codes of the configuration: it is
/// built for them, its finished counts add up, and no count is below the
/// best case.
pub open spec fn tree_consistent(h: CandidateHandlerType, colors: nat, columns: nat) -> bool {
    &&& handler_built(h, all_codes(colors, columns), columns)
    &&& handler_sums(h)
    &&& handler_bounded(h, all_codes(colors, columns))
}

/// All codes of a configuration are different, one per column each.
pub(crate) proof fn lemma_all_codes(colors: nat, columns: nat)
    requires
        colors > 0 || columns == 0,
        colors <= 255,
    ensures
        distinct_codes(all_codes(colors, columns)),
        all_codes(colors, columns).len() >= 1,
        forall|k: int| 0 <= k < all_codes(colors, columns).len() ==> (#[trigger] all_codes(colors, columns)[k]).len() == columns,
{
    let all = all_codes(colors, columns);
    if columns == 0 {
        reveal(vstd::arithmetic::power::pow);
    } else {
        vstd::arithmetic::power::lemma_pow_positive(colors as int, columns);
    }
    assert forall|k: int| 0 <= k < all.len() implies (#[trigger] all[k]).len() == columns by {
        lemma_nth_code_len(k as nat, colors, columns);
    }
    assert forall|i: int, j: int| 0 <= i < all.len() && 0 <= j < all.len() && i != j implies all[i] != all[j] by {
        if columns == 0 {
            assert(all.len() == 1);
        } else {
            crate::mastermind_mechanics::lemma_nth_code_injective(i as nat, j as nat, colors, columns);
        }
    }
}

pub(crate) proof fn lemma_propagate_consistent(old: CandidateHandlerType, new: CandidateHandlerType, colors: nat, columns: nat)
    requires
        handler_propagate_post(old, new, colors, columns),
        tree_consistent(old, colors, columns),
        handler_ok(old, columns),
    ensures
        tree_consistent(new, colors, columns),
{
    let all = all_codes(colors, columns);
    lemma_handler_propagate_built(old, new, all, colors, columns);
    lemma_handler_propagate_sums(old, new, colors, columns);
    lemma_handler_propagate_bounded(old, new, all, colors, columns);
}

pub(crate) proof fn lemma_count_consistent(old: CandidateHandlerType, new: CandidateHandlerType, colors: nat, columns: nat)
    requires
        handler_count_post(old, new),
        tree_consistent(old, colors, columns),
        handler_fits(old),
        handler_ok(old, columns),
        colors > 0 || columns == 0,
        colors <= 255,
        columns <= 255,
    ensures
        tree_consistent(new, colors, columns),
{
    let all = all_codes(colors, columns);
    lemma_all_codes(colors, columns);
    lemma_handler_count_built(old, new, all, columns);
    lemma_handler_count_sums(old, new, columns);
    lemma_handler_count_bounded(old, new, all, columns);
}

pub(crate) proof fn lemma_prune_consistent(old: CandidateHandlerType, new: CandidateHandlerType, colors: nat, columns: nat)
    requires
        handler_prune_post(old, new),
        tree_consistent(old, colors, columns),
    ensures
        tree_consistent(new, colors, columns),
{
    let all = all_codes(colors, columns);
    lemma_handler_prune_built(old, new, all, columns);
    lemma_handler_prune_sums(old, new);
    lemma_handler_prune_bounded(old, new, all);
}

/// No strategy for a configuration needs fewer guesses than the best case:
/// the count of a search tree that stands for all `n` codes is at least
/// `2n - 1`.
pub proof fn lemma_best_case(h: CandidateHandlerType, colors: nat, columns: nat)
    requires
        tree_consistent(h, colors, columns),
    ensures
        estimate(h.counter_stored) >= 2 * code_count(colors, columns) - 1,
{
}

// ---------------------------------------------------------------------------
// The guesses kept for a set of codes
// ---------------------------------------------------------------------------

/// Every guess kept for the possible codes `gs` among the first `k` codes of
/// `all` splits `gs` into more than one group; no kept guess splits `gs` like
/// a guess kept before it; and every code that splits `gs` into more than one
/// group is kept or splits `gs` like a guess kept before it.
pub proof fn lemma_selection(gs: Seq<Seq<u8>>, all: Seq<Seq<u8>>, k: int)
    requires
        0 <= k <= all.len(),
    ensures
        forall|j: int|
            0 <= j < selection(gs, all, k).len() ==> grade_keys(gs, #[trigger] selection(gs, all, k)[j]).len() != 1,
        forall|i: int, j: int|
            0 <= i < j < selection(gs, all, k).len() ==> !similar(
                gs,
                #[trigger] selection(gs, all, k)[i],
                #[trigger] selection(gs, all, k)[j],
            ),
        forall|q: int|
            0 <= q < k && grade_keys(gs, #[trigger] all[q]).len() != 1 ==> exists|j: int|
                0 <= j < selection(gs, all, k).len() && (selection(gs, all, k)[j] == all[q] || similar(
                    gs,
                    selection(gs, all, k)[j],
                    all[q],
                )),
    decreases k,
{
    if k > 0 {
        lemma_selection(gs, all, k - 1);
        let p = selection(gs, all, k - 1);
        let sel = selection(gs, all, k);
        let c = all[k - 1];
        assert forall|j: int| 0 <= j < sel.len() implies grade_keys(gs, #[trigger] sel[j]).len() != 1 by {
            if j < p.len() {
                assert(sel[j] == p[j]);
            }
        }
        assert forall|i: int, j: int| 0 <= i < j < sel.len() implies !similar(gs, #[trigger] sel[i], #[trigger] sel[j]) by {
            assert(sel[i] == p[i]);
            if j < p.len() {
                assert(sel[j] == p[j]);
            } else {
                assert(sel[j] == c);
                assert(!similar(gs, p[i], c));
            }
        }
        assert forall|q: int| 0 <= q < k && grade_keys(gs, #[trigger] all[q]).len() != 1 implies exists|j: int|
            0 <= j < sel.len() && (sel[j] == all[q] || similar(gs, sel[j], all[q])) by {
            if q < k - 1 {
                let j = choose|j: int| 0 <= j < p.len() && (p[j] == all[q] || similar(gs, p[j], all[q]));
                assert(sel[j] == p[j]);
            } else {
                if exists|j: int| 0 <= j < p.len() && #[trigger] similar(gs, p[j], c) {
                    let j = choose|j: int| 0 <= j < p.len() && #[trigger] similar(gs, p[j], c);
                    assert(sel[j] == p[j]);
                } else {
                    assert(sel[p.len() as int] == c);
                }
            }
        }
    }
}

// ---------------------------------------------------------------------------
// The depth of a search tree
// ---------------------------------------------------------------------------

proof fn lemma_grade_sum_nonneg(ks: Seq<ResultType>, t: spec_fn(ResultType) -> int)
    requires
        forall|i: int| 0 <= i < ks.len() ==> t(#[trigger] ks[i]) >= 0,
    ensures
        grade_sum(ks, t) >= 0,
    decreases ks.len(),
{
    if ks.len() > 0 {
        let p = ks.drop_last();
        assert forall|i: int| 0 <= i < p.len() implies t(#[trigger] p[i]) >= 0 by {
            assert(p[i] == ks[i]);
        }
        lemma_grade_sum_nonneg(p, t);
        assert(ks.last() == ks[ks.len() - 1]);
    }
}

/// Two terms of a sum of non-negative terms are at most the sum.
proof fn lemma_grade_sum_two(ks: Seq<ResultType>, t: spec_fn(ResultType) -> int, j0: int, j1: int)
    requires
        0 <= j0 < ks.len(),
        0 <= j1 < ks.len(),
        j0 != j1,
        forall|i: int| 0 <= i < ks.len() ==> t(#[trigger] ks[i]) >= 0,
    ensures
        t(ks[j0]) + t(ks[j1]) <= grade_sum(ks, t),
    decreases ks.len(),
{
    let p = ks.drop_last();
    let last = ks.len() - 1;
    assert(ks.last() == ks[last]);
    assert forall|i: int| 0 <= i < p.len() implies t(#[trigger] p[i]) >= 0 by {
        assert(p[i] == ks[i]);
    }
    if j0 < last && j1 < last {
        assert(p[j0] == ks[j0]);
        assert(p[j1] == ks[j1]);
        lemma_grade_sum_two(p, t, j0, j1);
    } else if j0 < last {
        assert(p[j0] == ks[j0]);
        lemma_grade_sum_one_term(p, t, j0);
    } else {
        assert(p[j1] == ks[j1]);
        lemma_grade_sum_one_term(p, t, j1);
    }
}

/// One term of a sum of non-negative terms is at most the sum.
proof fn lemma_grade_sum_one_term(ks: Seq<ResultType>, t: spec_fn(ResultType) -> int, j: int)
    requires
        0 <= j < ks.len(),
        forall|i: int| 0 <= i < ks.len() ==> t(#[trigger] ks[i]) >= 0,
    ensures
        t(ks[j]) <= grade_sum(ks, t),
    decreases ks.len(),
{
    let p = ks.drop_last();
    assert(ks.last() == ks[ks.len() - 1]);
    assert forall|i: int| 0 <= i < p.len() implies t(#[trigger] p[i]) >= 0 by {
        assert(p[i] == ks[i]);
    }
    if j < ks.len() - 1 {
        assert(p[j] == ks[j]);
        lemma_grade_sum_one_term(p, t, j);
    } else {
        lemma_grade_sum_nonneg(p, t);
    }
}

/// With more than one grade, the codes of each grade are fewer than all codes.
proof fn lemma_group_smaller(cs: Seq<Seq<u8>>, g: Seq<u8>, j: int)
    requires
        grade_keys(cs, g).len() > 1,
        0 <= j < grade_keys(cs, g).len(),
    ensures
        with_grade(cs, g, grade_keys(cs, g)[j]).len() < cs.len(),
{
    let keys = grade_keys(cs, g);
    let one = |s: Seq<u8>| 1int;
    let size = |k: ResultType| with_grade(cs, g, k).len() as int;
    lemma_partition(cs, g, one);
    assert forall|i: int| 0 <= i < keys.len() implies size(#[trigger] keys[i]) == code_sum(with_grade(cs, g, keys[i]), one) by {
        lemma_code_sum_one(with_grade(cs, g, keys[i]), one);
    }
    lemma_grade_sum_congr(keys, size, |k: ResultType| code_sum(with_grade(cs, g, k), one));
    lemma_code_sum_one(cs, one);
    let j1 = if j == 0 { 1int } else { 0int };
    lemma_grade_keys_witness(cs, g, j1);
    lemma_grade_sum_two(keys, size, j, j1);
}

proof fn lemma_list_height_bound(s: Seq<CandidateResultType>, b: nat)
    requires
        forall|i: int| 0 <= i < s.len() ==> result_height(#[trigger] s[i]) <= b,
    ensures
        list_height(s) <= b,
    decreases s.len(),
{
    if s.len() > 0 {
        let p = s.subrange(0, s.len() - 1);
        assert forall|i: int| 0 <= i < p.len() implies result_height(#[trigger] p[i]) <= b by {
            assert(p[i] == s[i]);
        }
        lemma_list_height_bound(p, b);
    }
}

proof fn lemma_pairs_height_bound(v: Seq<(ResultType, CandidateHandlerType)>, b: nat)
    requires
        forall|i: int| 0 <= i < v.len() ==> handler_height((#[trigger] v[i]).1) <= b,
    ensures
        pairs_height(v) <= b,
    decreases v.len(),
{
    if v.len() > 0 {
        let p = v.subrange(0, v.len() - 1);
        assert forall|i: int| 0 <= i < p.len() implies handler_height((#[trigger] p[i]).1) <= b by {
            assert(p[i] == v[i]);
        }
        lemma_pairs_height_bound(p, b);
    }
}

/// A strategy for `n` codes makes at most `n` guesses against any of them:
/// every level splits the codes into smaller groups.
pub proof fn lemma_handler_height(h: CandidateHandlerType, cs: Seq<Seq<u8>>, columns: nat)
    requires
        handler_built(h, cs, columns),
        cs.len() >= 1,
    ensures
        handler_height(h) <= cs.len(),
    decreases h,
{
    assert forall|i: int| 0 <= i < h.candidate_list@.len() implies result_height(#[trigger] h.candidate_list@[i]) <= (cs.len() - 1) as nat by {
        lemma_result_height(h.candidate_list@[i], cs, columns);
    }
    lemma_list_height_bound(h.candidate_list@, (cs.len() - 1) as nat);
}

proof fn lemma_result_height(c: CandidateResultType, cs: Seq<Seq<u8>>, columns: nat)
    requires
        result_built(c, cs, columns),
        cs.len() >= 1,
    ensures
        result_height(c) <= cs.len() - 1,
    decreases c,
{
    let g = c.candidate@;
    if let CandidateResultHashMap::PROPAGATED(v) = c.result_hashmap {
        let keys = grade_keys(cs, g);
        let kf = key_filter(keys, done_of(columns));
        lemma_key_filter(keys, done_of(columns));
        assert forall|i: int| 0 <= i < v@.len() implies handler_height((#[trigger] v@[i]).1) <= (cs.len() - 1) as nat by {
            let j = choose|j: int| 0 <= j < keys.len() && keys[j] == kf[i];
            lemma_grade_keys_witness(cs, g, j);
            lemma_group_smaller(cs, g, j);
            assert(handler_built(v@[i].1, with_grade(cs, g, kf[i]), columns));
            lemma_handler_height(v@[i].1, with_grade(cs, g, kf[i]), columns);
        }
        lemma_pairs_height_bound(v@, (cs.len() - 1) as nat);
    }
}

// ---------------------------------------------------------------------------
// No strategy beats the count of the search
// ---------------------------------------------------------------------------

/// The total number of guesses, over all codes of `cs`, that the strategy
/// `f` makes (`f` gives, for every set of codes still possible, the code to
/// guess next): one or two codes need `2n - 1` guesses (the first code, then
/// the second); otherwise one guess per code, then what every group of codes
/// sharing an unsolved grade needs.
pub open spec fn strategy_total(f: spec_fn(Seq<Seq<u8>>) -> Seq<u8>, cs: Seq<Seq<u8>>, columns: nat) -> int
    decreases cs.len(), 1nat, 0nat,
{
    if cs.len() == 0 {
        0
    } else if cs.len() <= 2 {
        2 * cs.len() - 1
    } else {
        cs.len() + groups_total(f, cs, f(cs), key_filter(grade_keys(cs, f(cs)), done_of(columns)), columns)
    }
}

/// What the groups of the grades `ks` of `cs` against `g` need under `f`.
pub open spec fn groups_total(
    f: spec_fn(Seq<Seq<u8>>) -> Seq<u8>,
    cs: Seq<Seq<u8>>,
    g: Seq<u8>,
    ks: Seq<ResultType>,
    columns: nat,
) -> int
    decreases cs.len(), 0nat, ks.len(),
{
    if ks.len() == 0 {
        0
    } else {
        groups_total(f, cs, g, ks.drop_last(), columns) + if with_grade(cs, g, ks.last()).len() < cs.len() {
            strategy_total(f, with_grade(cs, g, ks.last()), columns)
        } else {
            0
        }
    }
}

/// `f` guesses as the search may: with three or more codes possible, one of
/// the guesses `selection` keeps (one per way of splitting the codes), and
/// so on within every group it leads to.
pub open spec fn strategy_valid(
    f: spec_fn(Seq<Seq<u8>>) -> Seq<u8>,
    cs: Seq<Seq<u8>>,
    all: Seq<Seq<u8>>,
    columns: nat,
) -> bool
    decreases cs.len(),
{
    cs.len() <= 2 || {
        &&& selection(cs, all, all.len() as int).contains(f(cs))
        &&& forall|k: ResultType|
            key_filter(grade_keys(cs, f(cs)), done_of(columns)).contains(k) && with_grade(cs, f(cs), k).len()
                < cs.len() ==> strategy_valid(f, #[trigger] with_grade(cs, f(cs), k), all, columns)
    }
}

/// Every guess of `selection` is one of the codes considered.
proof fn lemma_selection_from(gs: Seq<Seq<u8>>, all: Seq<Seq<u8>>, k: int)
    requires
        0 <= k <= all.len(),
    ensures
        forall|j: int| 0 <= j < selection(gs, all, k).len() ==> all.contains(#[trigger] selection(gs, all, k)[j]),
    decreases k,
{
    if k > 0 {
        lemma_selection_from(gs, all, k - 1);
        let p = selection(gs, all, k - 1);
        let sel = selection(gs, all, k);
        assert forall|j: int| 0 <= j < sel.len() implies all.contains(#[trigger] sel[j]) by {
            if j < p.len() {
                assert(sel[j] == p[j]);
            } else {
                assert(sel[j] == all[k - 1]);
            }
        }
    }
}

/// The groups of the unsolved grades: each holds at least one code, and
/// together they hold all codes but at most one (the solving one).
proof fn lemma_unsolved_sizes(cs: Seq<Seq<u8>>, g: Seq<u8>, columns: nat)
    requires
        distinct_codes(cs),
        g.len() == columns,
        columns <= 255,
        forall|k: int| 0 <= k < cs.len() ==> (#[trigger] cs[k]).len() == columns,
    ensures
        ({
            let keys = grade_keys(cs, g);
            let kf = key_filter(keys, done_of(columns));
            let d = with_grade(cs, g, done_of(columns)).len() as int;
            &&& d <= 1
            &&& keys.len() <= cs.len()
            &&& kf.len() <= cs.len() - d
            &&& grade_sum(kf, |k: ResultType| with_grade(cs, g, k).len() as int) == cs.len() - d
            &&& forall|i: int| 0 <= i < kf.len() ==> with_grade(cs, g, #[trigger] kf[i]).len() >= 1
            &&& forall|i: int| 0 <= i < kf.len() ==> keys.contains(#[trigger] kf[i]) && kf[i] != done_of(columns)
            &&& !keys.contains(done_of(columns)) ==> d == 0
            &&& keys.contains(done_of(columns)) ==> d == 1
            &&& grade_sum(keys, |k: ResultType| with_grade(cs, g, k).len() as int) == cs.len()
            &&& forall|j: int| 0 <= j < keys.len() ==> with_grade(cs, g, #[trigger] keys[j]).len() >= 1
        }),
{
    let n = cs.len();
    let done = done_of(columns);
    let keys = grade_keys(cs, g);
    let kf = key_filter(keys, done);
    lemma_grade_keys(cs, g);
    lemma_key_filter(keys, done);
    let size = |k: ResultType| with_grade(cs, g, k).len() as int;
    let one = |s: Seq<u8>| 1int;
    lemma_partition(cs, g, one);
    assert forall|j: int| 0 <= j < keys.len() implies size(#[trigger] keys[j]) == code_sum(with_grade(cs, g, keys[j]), one) by {
        lemma_code_sum_one(with_grade(cs, g, keys[j]), one);
    }
    lemma_grade_sum_congr(keys, size, |k: ResultType| code_sum(with_grade(cs, g, k), one));
    lemma_code_sum_one(cs, one);
    let d = with_grade(cs, g, done).len() as int;
    let size_u = |k: ResultType| if k != done { with_grade(cs, g, k).len() as int } else { 0 };
    lemma_grade_sum_bump(keys, size_u, size, done, d);
    lemma_grade_sum_filter(keys, size_u, done);
    assert forall|i: int| 0 <= i < kf.len() implies size_u(#[trigger] kf[i]) == size(kf[i]) by {}
    lemma_grade_sum_congr(kf, size_u, size);
    lemma_done_group(cs, g, columns);
    if !keys.contains(done) {
        assert(d == 0);
    }
    assert forall|i: int| 0 <= i < kf.len() implies size(#[trigger] kf[i]) >= 1 by {
        let j = choose|j: int| 0 <= j < keys.len() && keys[j] == kf[i];
        lemma_grade_keys_witness(cs, g, j);
    }
    lemma_grade_sum_at_least_len(kf, size);
    assert forall|j: int| 0 <= j < keys.len() implies size(#[trigger] keys[j]) >= 1 by {
        lemma_grade_keys_witness(cs, g, j);
    }
    lemma_grade_sum_at_least_len(keys, size);
    if keys.contains(done) {
        let j = choose|j: int| 0 <= j < keys.len() && keys[j] == done;
        lemma_grade_keys_witness(cs, g, j);
    }
}

/// The groups together need at least what `t` gives each of them.
proof fn lemma_groups_total_at_least(
    f: spec_fn(Seq<Seq<u8>>) -> Seq<u8>,
    cs: Seq<Seq<u8>>,
    g: Seq<u8>,
    ks: Seq<ResultType>,
    columns: nat,
    t: spec_fn(ResultType) -> int,
)
    requires
        forall|i: int|
            0 <= i < ks.len() ==> with_grade(cs, g, #[trigger] ks[i]).len() < cs.len() && strategy_total(
                f,
                with_grade(cs, g, ks[i]),
                columns,
            ) >= t(ks[i]),
    ensures
        groups_total(f, cs, g, ks, columns) >= grade_sum(ks, t),
    decreases ks.len(),
{
    if ks.len() > 0 {
        let p = ks.drop_last();
        assert forall|i: int| 0 <= i < p.len() implies with_grade(cs, g, #[trigger] p[i]).len() < cs.len()
            && strategy_total(f, with_grade(cs, g, p[i]), columns) >= t(p[i]) by {
            assert(p[i] == ks[i]);
        }
        lemma_groups_total_at_least(f, cs, g, p, columns, t);
        assert(ks.last() == ks[ks.len() - 1]);
    }
}

/// The groups of a guess with more than one grade are smaller than the codes.
proof fn lemma_unsolved_smaller(cs: Seq<Seq<u8>>, g: Seq<u8>, columns: nat)
    requires
        grade_keys(cs, g).len() > 1,
    ensures
        forall|k: ResultType|
            key_filter(grade_keys(cs, g), done_of(columns)).contains(k) ==> #[trigger] with_grade(cs, g, k).len()
                < cs.len(),
{
    let keys = grade_keys(cs, g);
    lemma_key_filter(keys, done_of(columns));
    assert forall|k: ResultType| key_filter(keys, done_of(columns)).contains(k) implies #[trigger] with_grade(cs, g, k).len()
        < cs.len() by {
        let q = choose|q: int| 0 <= q < key_filter(keys, done_of(columns)).len() && key_filter(keys, done_of(columns))[q] == k;
        let j = choose|j: int| 0 <= j < keys.len() && keys[j] == k;
        lemma_group_smaller(cs, g, j);
    }
}

/// Every strategy needs at least the best case `2n - 1` for `n` codes.
proof fn lemma_strategy_lower(f: spec_fn(Seq<Seq<u8>>) -> Seq<u8>, cs: Seq<Seq<u8>>, all: Seq<Seq<u8>>, columns: nat)
    requires
        strategy_valid(f, cs, all, columns),
        distinct_codes(cs),
        cs.len() >= 1,
        columns <= 255,
        forall|k: int| 0 <= k < cs.len() ==> (#[trigger] cs[k]).len() == columns,
        forall|k: int| 0 <= k < all.len() ==> (#[trigger] all[k]).len() == columns,
    ensures
        strategy_total(f, cs, columns) >= 2 * cs.len() - 1,
    decreases cs.len(),
{
    if cs.len() > 2 {
        let n = cs.len();
        let g = f(cs);
        let keys = grade_keys(cs, g);
        let kf = key_filter(keys, done_of(columns));
        let sel = selection(cs, all, all.len() as int);
        lemma_selection(cs, all, all.len() as int);
        lemma_selection_from(cs, all, all.len() as int);
        let j = choose|j: int| 0 <= j < sel.len() && sel[j] == g;
        let q = choose|q: int| 0 <= q < all.len() && all[q] == sel[j];
        assert(g.len() == columns);
        lemma_unsolved_sizes(cs, g, columns);
        lemma_grade_keys(cs, g);
        assert(keys.len() > 1) by {
            assert(keys.len() != 1);
            assert(keys.contains(spec_grade(cs[0], g)));
        }
        lemma_unsolved_smaller(cs, g, columns);
        let size = |k: ResultType| with_grade(cs, g, k).len() as int;
        assert forall|i: int| 0 <= i < kf.len() implies with_grade(cs, g, #[trigger] kf[i]).len() < cs.len()
            && strategy_total(f, with_grade(cs, g, kf[i]), columns) >= size(kf[i]) by {
            let w = with_grade(cs, g, kf[i]);
            assert(kf.contains(kf[i]));
            lemma_with_grade_distinct(cs, g, kf[i]);
            lemma_with_grade_props(cs, g, kf[i], columns);
            lemma_strategy_lower(f, w, all, columns);
        }
        lemma_groups_total_at_least(f, cs, g, kf, columns, size);
    }
}

/// The handler `h` has a guess `g`.
pub open spec fn guess_present(h: CandidateHandlerType, g: Seq<u8>) -> bool {
    exists|i: int| 0 <= i < h.candidate_list@.len() && (#[trigger] h.candidate_list@[i]).candidate@ == g
}

/// The guess `c` for the codes `cs` shows that `t` guesses are no better
/// than what the search keeps: `c` is finished with a count of at most `t`,
/// or `c` tells all codes apart (then it needs at most `2n` guesses) and
/// `t` is at least `2n`.
pub open spec fn vouches(c: CandidateResultType, cs: Seq<Seq<u8>>, t: int) -> bool {
    ||| c.counter_stored is FINISHED && estimate(c.counter_stored) <= t
    ||| grade_keys(cs, c.candidate@).len() == cs.len() && 2 * cs.len() <= t
}

/// No strategy beats the counts of the tree below `h`, built for the codes
/// `cs`: no valid strategy needs fewer guesses than the count of `h`; a
/// strategy whose first guess the handler no longer has is vouched for by a
/// guess it keeps; and likewise for every guess of `h`.
pub open spec fn handler_lower(h: CandidateHandlerType, cs: Seq<Seq<u8>>, all: Seq<Seq<u8>>, columns: nat) -> bool
    decreases h,
{
    &&& forall|f: spec_fn(Seq<Seq<u8>>) -> Seq<u8>|
        #[trigger] strategy_valid(f, cs, all, columns) ==> estimate(h.counter_stored) <= strategy_total(f, cs, columns)
    &&& forall|f: spec_fn(Seq<Seq<u8>>) -> Seq<u8>|
        #[trigger] strategy_valid(f, cs, all, columns) && cs.len() > 2 && !guess_present(h, f(cs)) ==> exists|i: int|
            0 <= i < h.candidate_list@.len() && vouches(
                #[trigger] h.candidate_list@[i],
                cs,
                strategy_total(f, cs, columns),
            )
    &&& forall|i: int|
        0 <= i < h.candidate_list@.len() ==> result_lower(#[trigger] h.candidate_list@[i], cs, all, columns)
}

/// No strategy starting with the guess `c` beats its count (with one or
/// two codes, no strategy at all); a finished count is what counting gives;
/// and no strategy beats the counts of the handlers below.
pub open spec fn result_lower(c: CandidateResultType, cs: Seq<Seq<u8>>, all: Seq<Seq<u8>>, columns: nat) -> bool
    decreases c,
{
    &&& forall|f: spec_fn(Seq<Seq<u8>>) -> Seq<u8>|
        #[trigger] strategy_valid(f, cs, all, columns) && (cs.len() > 2 ==> f(cs) == c.candidate@) ==> estimate(
            c.counter_stored,
        ) <= strategy_total(f, cs, columns)
    &&& c.counter_stored is FINISHED ==> result_counted(c) == c.counter_stored
    &&& match c.result_hashmap {
        CandidateResultHashMap::NEW(_) => true,
        CandidateResultHashMap::PROPAGATED(v) => forall|i: int|
            0 <= i < v@.len() ==> handler_lower((#[trigger] v@[i]).1, with_grade(cs, c.candidate@, v@[i].0), all, columns),
    }
}

/// A handler counts at most `x` when one of its counted guesses does (or,
/// without guesses, when its counter does).
proof fn lemma_handler_value_at_most(old: StrategyCounter, ks: Seq<StrategyCounter>, x: int)
    requires
        (exists|i: int| 0 <= i < ks.len() && estimate(#[trigger] ks[i]) <= x) || (ks.len() == 0 && estimate(old)
            <= x),
    ensures
        estimate(handler_value(old, ks)) <= x,
{
    lemma_min_estimate_witness(ks);
    lemma_min_estimate_lower(ks);
    lemma_min_finished_lower(ks);
    lemma_min_finished_nonpending(ks);
    if ks.len() > 0 {
        let i = choose|i: int| 0 <= i < ks.len() && estimate(#[trigger] ks[i]) <= x;
        if let Some(b) = min_finished(ks) {
            if !(ks[i] is PENDING) {
                assert(b <= estimate(ks[i]));
            } else if estimate(ks[i]) <= b {
                // then the handler is not finished; its count is the least count
                assert(!(forall|j: int| 0 <= j < ks.len() && #[trigger] estimate(ks[j]) <= b ==> ks[j] is FINISHED));
            }
        }
    }
}

/// A handler just created has counts that no strategy beats.
proof fn lemma_created_lower(h: CandidateHandlerType, gs: Seq<Seq<u8>>, colors: nat, columns: nat)
    requires
        created(h, gs, colors, columns),
        distinct_codes(gs),
        gs.len() >= 1,
        gs.len() <= 32767,
        columns <= 255,
        forall|k: int| 0 <= k < gs.len() ==> (#[trigger] gs[k]).len() == columns,
        forall|k: int| 0 <= k < all_codes(colors, columns).len() ==> (#[trigger] all_codes(colors, columns)[k]).len() == columns,
    ensures
        handler_lower(h, gs, all_codes(colors, columns), columns),
{
    let all = all_codes(colors, columns);
    assert forall|f: spec_fn(Seq<Seq<u8>>) -> Seq<u8>| #[trigger] strategy_valid(f, gs, all, columns) implies estimate(
        h.counter_stored,
    ) <= strategy_total(f, gs, columns) by {
        lemma_strategy_lower(f, gs, all, columns);
    }
    assert forall|i: int| 0 <= i < h.candidate_list@.len() implies result_lower(#[trigger] h.candidate_list@[i], gs, all, columns) by {
        let c = h.candidate_list@[i];
        assert(c.counter_stored == counter_new(gs.len() as usize)) by {
            if gs.len() > 2 {
                let sel = selection(gs, all, code_count(colors, columns) as int);
                assert(fresh_result(c, gs, sel[i]));
            }
        }
        assert forall|f: spec_fn(Seq<Seq<u8>>) -> Seq<u8>|
            #[trigger] strategy_valid(f, gs, all, columns) && (gs.len() > 2 ==> f(gs) == c.candidate@) implies estimate(
            c.counter_stored,
        ) <= strategy_total(f, gs, columns) by {
            lemma_strategy_lower(f, gs, all, columns);
        }
    }
    assert forall|f: spec_fn(Seq<Seq<u8>>) -> Seq<u8>|
        #[trigger] strategy_valid(f, gs, all, columns) && gs.len() > 2 && !guess_present(h, f(gs)) implies exists|i: int|
        0 <= i < h.candidate_list@.len() && vouches(
            #[trigger] h.candidate_list@[i],
            gs,
            strategy_total(f, gs, columns),
        ) by {
        let sel = selection(gs, all, code_count(colors, columns) as int);
        assert(all.len() == code_count(colors, columns));
        let j = choose|j: int| 0 <= j < sel.len() && sel[j] == f(gs);
        assert(fresh_result(h.candidate_list@[j], gs, sel[j]));
        assert(h.candidate_list@[j].candidate@ == f(gs));
    }
}

/// The codes of an unsolved grade of a guess with more than one grade form
/// a smaller, non-empty set of distinct codes of the same length.
proof fn lemma_group_props(cs: Seq<Seq<u8>>, g: Seq<u8>, k: ResultType, columns: nat)
    requires
        distinct_codes(cs),
        forall|q: int| 0 <= q < cs.len() ==> (#[trigger] cs[q]).len() == columns,
        grade_keys(cs, g).contains(k),
    ensures
        distinct_codes(with_grade(cs, g, k)),
        with_grade(cs, g, k).len() >= 1,
        with_grade(cs, g, k).len() <= cs.len(),
        forall|q: int| 0 <= q < with_grade(cs, g, k).len() ==> (#[trigger] with_grade(cs, g, k)[q]).len() == columns,
{
    lemma_with_grade_distinct(cs, g, k);
    lemma_with_grade_props(cs, g, k, columns);
    let j = choose|j: int| 0 <= j < grade_keys(cs, g).len() && grade_keys(cs, g)[j] == k;
    lemma_grade_keys_witness(cs, g, j);
}

proof fn lemma_handler_propagate_lower(
    old: CandidateHandlerType,
    new: CandidateHandlerType,
    cs: Seq<Seq<u8>>,
    colors: nat,
    columns: nat,
)
    requires
        handler_propagate_post(old, new, colors, columns),
        handler_built(old, cs, columns),
        handler_lower(old, cs, all_codes(colors, columns), columns),
        distinct_codes(cs),
        1 <= cs.len() <= 32767,
        columns <= 255,
        forall|k: int| 0 <= k < cs.len() ==> (#[trigger] cs[k]).len() == columns,
        forall|k: int| 0 <= k < all_codes(colors, columns).len() ==> (#[trigger] all_codes(colors, columns)[k]).len() == columns,
    ensures
        handler_lower(new, cs, all_codes(colors, columns), columns),
    decreases old,
{
    let all = all_codes(colors, columns);
    let v = old.candidate_list@;
    let w = new.candidate_list@;
    assert forall|i: int| 0 <= i < w.len() implies #[trigger] w[i].candidate == v[i].candidate && w[i].counter_stored
        == v[i].counter_stored by {
        assert(result_propagate_post(v[i], w[i], colors, columns));
    }
    assert forall|g: Seq<u8>| guess_present(new, g) == guess_present(old, g) by {
        if guess_present(old, g) {
            let i = choose|i: int| 0 <= i < v.len() && (#[trigger] v[i]).candidate@ == g;
            assert(w[i].candidate == v[i].candidate);
        }
        if guess_present(new, g) {
            let i = choose|i: int| 0 <= i < w.len() && (#[trigger] w[i]).candidate@ == g;
            assert(w[i].candidate == v[i].candidate);
        }
    }
    assert forall|f: spec_fn(Seq<Seq<u8>>) -> Seq<u8>|
        #[trigger] strategy_valid(f, cs, all, columns) && cs.len() > 2 && !guess_present(new, f(cs)) implies exists|i: int|
        0 <= i < w.len() && vouches(#[trigger] w[i], cs, strategy_total(f, cs, columns)) by {
        assert(!guess_present(old, f(cs)));
        let i = choose|i: int| 0 <= i < v.len() && vouches(#[trigger] v[i], cs, strategy_total(f, cs, columns));
        assert(w[i].candidate == v[i].candidate);
        assert(vouches(w[i], cs, strategy_total(f, cs, columns)));
    }
    assert forall|i: int| 0 <= i < w.len() implies result_lower(#[trigger] w[i], cs, all, columns) by {
        assert(result_lower(v[i], cs, all, columns));
        lemma_result_propagate_lower(v[i], w[i], cs, colors, columns);
    }
}

proof fn lemma_result_propagate_lower(
    old: CandidateResultType,
    new: CandidateResultType,
    cs: Seq<Seq<u8>>,
    colors: nat,
    columns: nat,
)
    requires
        result_propagate_post(old, new, colors, columns),
        result_built(old, cs, columns),
        result_lower(old, cs, all_codes(colors, columns), columns),
        distinct_codes(cs),
        1 <= cs.len() <= 32767,
        columns <= 255,
        forall|k: int| 0 <= k < cs.len() ==> (#[trigger] cs[k]).len() == columns,
        forall|k: int| 0 <= k < all_codes(colors, columns).len() ==> (#[trigger] all_codes(colors, columns)[k]).len() == columns,
    ensures
        result_lower(new, cs, all_codes(colors, columns), columns),
    decreases old,
{
    let all = all_codes(colors, columns);
    let g = old.candidate@;
    assert forall|f: spec_fn(Seq<Seq<u8>>) -> Seq<u8>|
        #[trigger] strategy_valid(f, cs, all, columns) && (cs.len() > 2 ==> f(cs) == new.candidate@) implies estimate(
        new.counter_stored,
    ) <= strategy_total(f, cs, columns) by {}
    if !(old.counter_stored is FINISHED) {
        match old.result_hashmap {
            CandidateResultHashMap::NEW(groups) => {
                if groups@.len() > 1 {
                    if let CandidateResultHashMap::PROPAGATED(w) = new.result_hashmap {
                        let done = done_of(columns);
                        let ks = grade_keys(cs, g);
                        let u = unsolved(groups@, done);
                        lemma_unsolved_filter(groups@, ks, done);
                        lemma_key_filter(ks, done);
                        assert forall|i: int| 0 <= i < w@.len() implies handler_lower(
                            (#[trigger] w@[i]).1,
                            with_grade(cs, g, w@[i].0),
                            all,
                            columns,
                        ) by {
                            let k = choose|k: int| 0 <= k < groups@.len() && u[i] == groups@[k];
                            assert(views(groups@[k].1@) == with_grade(cs, g, groups@[k].0));
                            assert(created(w@[i].1, views(u[i].1@), colors, columns));
                            assert(w@[i].0 == key_filter(ks, done)[i]);
                            assert(ks.contains(w@[i].0));
                            lemma_group_props(cs, g, w@[i].0, columns);
                            lemma_created_lower(w@[i].1, with_grade(cs, g, w@[i].0), colors, columns);
                        }
                    }
                }
            },
            CandidateResultHashMap::PROPAGATED(v) => {
                if let CandidateResultHashMap::PROPAGATED(w) = new.result_hashmap {
                    let ks = key_filter(grade_keys(cs, g), done_of(columns));
                    lemma_key_filter(grade_keys(cs, g), done_of(columns));
                    assert forall|i: int| 0 <= i < w@.len() implies handler_lower(
                        (#[trigger] w@[i]).1,
                        with_grade(cs, g, w@[i].0),
                        all,
                        columns,
                    ) by {
                        assert(handler_built(v@[i].1, with_grade(cs, g, ks[i]), columns));
                        assert(handler_lower(v@[i].1, with_grade(cs, g, v@[i].0), all, columns));
                        if !(v@[i].1.counter_stored is FINISHED) {
                            assert(grade_keys(cs, g).contains(ks[i]));
                            lemma_group_props(cs, g, ks[i], columns);
                            lemma_handler_propagate_lower(v@[i].1, w@[i].1, with_grade(cs, g, ks[i]), colors, columns);
                        }
                    }
                }
            },
        }
    }
}

/// Counts of at least one each that add up to their number are all one.
proof fn lemma_all_ones(ks: Seq<ResultType>, t: spec_fn(ResultType) -> int)
    requires
        forall|i: int| 0 <= i < ks.len() ==> t(#[trigger] ks[i]) >= 1,
        grade_sum(ks, t) <= ks.len(),
    ensures
        forall|i: int| 0 <= i < ks.len() ==> t(#[trigger] ks[i]) == 1,
    decreases ks.len(),
{
    if ks.len() > 0 {
        let p = ks.drop_last();
        assert forall|i: int| 0 <= i < p.len() implies t(#[trigger] p[i]) >= 1 by {
            assert(p[i] == ks[i]);
        }
        lemma_grade_sum_at_least_len(p, t);
        assert(ks.last() == ks[ks.len() - 1]);
        lemma_all_ones(p, t);
        assert forall|i: int| 0 <= i < ks.len() implies t(#[trigger] ks[i]) == 1 by {
            if i < p.len() {
                assert(p[i] == ks[i]);
            }
        }
    }
}

proof fn lemma_key_filter_len(ks: Seq<ResultType>, done: ResultType)
    ensures
        key_filter(ks, done).len() <= ks.len(),
    decreases ks.len(),
{
    if ks.len() > 0 {
        lemma_key_filter_len(ks.drop_last(), done);
    }
}

/// The counts of the handlers of the groups add up to at most what the
/// groups need, when each does.
proof fn lemma_sum_at_most(
    ks: Seq<StrategyCounter>,
    f: spec_fn(Seq<Seq<u8>>) -> Seq<u8>,
    cs: Seq<Seq<u8>>,
    g: Seq<u8>,
    kf: Seq<ResultType>,
    columns: nat,
)
    requires
        ks.len() == kf.len(),
        forall|i: int|
            0 <= i < ks.len() ==> with_grade(cs, g, #[trigger] kf[i]).len() < cs.len() && estimate(ks[i])
                <= strategy_total(f, with_grade(cs, g, kf[i]), columns),
    ensures
        sum_estimates(ks) <= groups_total(f, cs, g, kf, columns),
    decreases ks.len(),
{
    if ks.len() > 0 {
        let kp = ks.drop_last();
        let fp = kf.drop_last();
        assert forall|i: int| 0 <= i < kp.len() implies with_grade(cs, g, #[trigger] fp[i]).len() < cs.len()
            && estimate(kp[i]) <= strategy_total(f, with_grade(cs, g, fp[i]), columns) by {
            assert(kp[i] == ks[i]);
            assert(fp[i] == kf[i]);
        }
        lemma_sum_at_most(kp, f, cs, g, fp, columns);
        assert(ks.last() == ks[ks.len() - 1]);
        assert(kf.last() == kf[kf.len() - 1]);
    }
}

/// The counts of the handlers add up to at most their number, when each
/// count is at most one.
proof fn lemma_sum_at_most_ones(ks: Seq<StrategyCounter>)
    requires
        forall|i: int| 0 <= i < ks.len() ==> estimate(#[trigger] ks[i]) <= 1,
    ensures
        sum_estimates(ks) <= ks.len(),
    decreases ks.len(),
{
    if ks.len() > 0 {
        let kp = ks.drop_last();
        assert forall|i: int| 0 <= i < kp.len() implies estimate(#[trigger] kp[i]) <= 1 by {
            assert(kp[i] == ks[i]);
        }
        lemma_sum_at_most_ones(kp);
        assert(ks.last() == ks[ks.len() - 1]);
    }
}

/// The guesses that stay after counting are there, counted.
proof fn lemma_list_count_kept(v: Seq<CandidateResultType>, w: Seq<CandidateResultType>, best: Option<u16>)
    requires
        list_count_post(v, w, best),
    ensures
        forall|i: int|
            0 <= i < v.len() && kept(result_counted(v[i]), best) ==> exists|m: int|
                0 <= m < w.len() && result_count_post(#[trigger] v[i], w[m]),
    decreases v.len(),
{
    if v.len() > 0 {
        let vp = v.subrange(0, v.len() - 1);
        if kept(result_counted(v[v.len() - 1]), best) {
            let wp = w.subrange(0, w.len() - 1);
            lemma_list_count_kept(vp, wp, best);
            assert forall|i: int| 0 <= i < v.len() && kept(result_counted(v[i]), best) implies exists|m: int|
                0 <= m < w.len() && result_count_post(#[trigger] v[i], w[m]) by {
                if i < vp.len() {
                    assert(v[i] == vp[i]);
                    let m = choose|m: int| 0 <= m < wp.len() && result_count_post(#[trigger] vp[i], wp[m]);
                    assert(w[m] == wp[m]);
                } else {
                    assert(result_count_post(v[i], w[w.len() - 1]));
                }
            }
        } else {
            lemma_list_count_kept(vp, w, best);
            assert forall|i: int| 0 <= i < v.len() && kept(result_counted(v[i]), best) implies exists|m: int|
                0 <= m < w.len() && result_count_post(#[trigger] v[i], w[m]) by {
                assert(i < vp.len());
                assert(v[i] == vp[i]);
            }
        }
    }
}

/// Counting a handler gives a count that no valid strategy beats.
proof fn lemma_handler_counted_lower(h: CandidateHandlerType, cs: Seq<Seq<u8>>, colors: nat, columns: nat)
    requires
        handler_built(h, cs, columns),
        handler_lower(h, cs, all_codes(colors, columns), columns),
        handler_fits(h),
        handler_ok(h, columns),
        distinct_codes(cs),
        1 <= cs.len() <= 32767,
        columns <= 255,
        forall|k: int| 0 <= k < cs.len() ==> (#[trigger] cs[k]).len() == columns,
        forall|k: int| 0 <= k < all_codes(colors, columns).len() ==> (#[trigger] all_codes(colors, columns)[k]).len() == columns,
    ensures
        forall|f: spec_fn(Seq<Seq<u8>>) -> Seq<u8>|
            #[trigger] strategy_valid(f, cs, all_codes(colors, columns), columns) ==> estimate(handler_counted(h))
                <= strategy_total(f, cs, columns),
    decreases h,
{
    let all = all_codes(colors, columns);
    let v = h.candidate_list@;
    let ks = list_counted(v);
    lemma_list_counted(v);
    assert forall|f: spec_fn(Seq<Seq<u8>>) -> Seq<u8>| #[trigger] strategy_valid(f, cs, all, columns) implies estimate(
        handler_counted(h),
    ) <= strategy_total(f, cs, columns) by {
        let x = strategy_total(f, cs, columns);
        if v.len() > 0 {
            let i: int = if cs.len() <= 2 {
                0
            } else if guess_present(h, f(cs)) {
                choose|i: int| 0 <= i < v.len() && (#[trigger] v[i]).candidate@ == f(cs)
            } else {
                choose|i: int| 0 <= i < v.len() && vouches(#[trigger] v[i], cs, x)
            };
            assert(result_built(v[i], cs, columns));
            assert(result_lower(v[i], cs, all, columns));
            assert(result_fits(v[i]));
            assert(result_ok(v[i], columns));
            lemma_result_counted_lower(v[i], cs, colors, columns);
            assert(ks[i] == result_counted(v[i]));
            assert(estimate(ks[i]) <= x);
        }
        lemma_handler_value_at_most(h.counter_stored, ks, x);
    }
}

/// Counting a guess gives a count that no valid strategy starting with it
/// beats; a guess telling all codes apart counts at most `2n`; and a
/// partially finished count is the best case of a guess telling all codes
/// apart.
proof fn lemma_result_counted_lower(c: CandidateResultType, cs: Seq<Seq<u8>>, colors: nat, columns: nat)
    requires
        result_built(c, cs, columns),
        result_lower(c, cs, all_codes(colors, columns), columns),
        result_fits(c),
        result_ok(c, columns),
        distinct_codes(cs),
        1 <= cs.len() <= 32767,
        columns <= 255,
        forall|k: int| 0 <= k < cs.len() ==> (#[trigger] cs[k]).len() == columns,
        forall|k: int| 0 <= k < all_codes(colors, columns).len() ==> (#[trigger] all_codes(colors, columns)[k]).len() == columns,
    ensures
        forall|f: spec_fn(Seq<Seq<u8>>) -> Seq<u8>|
            #[trigger] strategy_valid(f, cs, all_codes(colors, columns), columns) && (cs.len() > 2 ==> f(cs)
                == c.candidate@) ==> estimate(result_counted(c)) <= strategy_total(f, cs, columns),
        grade_keys(cs, c.candidate@).len() == cs.len() ==> estimate(result_counted(c)) <= 2 * cs.len(),
        result_counted(c) is PARTIALLY_FINISHED ==> grade_keys(cs, c.candidate@).len() == cs.len() && estimate(
            result_counted(c),
        ) == 2 * cs.len() - 1,
    decreases c,
{
    let all = all_codes(colors, columns);
    let n = cs.len();
    let g = c.candidate@;
    let keys = grade_keys(cs, g);
    let kf = key_filter(keys, done_of(columns));
    let size = |k: ResultType| with_grade(cs, g, k).len() as int;
    lemma_unsolved_sizes(cs, g, columns);
    lemma_key_filter_len(keys, done_of(columns));
    let r = result_counted(c);
    match c.result_hashmap {
        CandidateResultHashMap::NEW(groups) => {
            assert(groups@.len() == keys.len());
            assert(estimate(r) == 2 * n - 1);
            assert forall|f: spec_fn(Seq<Seq<u8>>) -> Seq<u8>|
                #[trigger] strategy_valid(f, cs, all, columns) && (cs.len() > 2 ==> f(cs) == c.candidate@) implies estimate(
                r,
            ) <= strategy_total(f, cs, columns) by {
                lemma_strategy_lower(f, cs, all, columns);
            }
        },
        CandidateResultHashMap::PROPAGATED(v) => {
            let pk = pairs_counted(v@);
            lemma_pairs_counted(v@);
            lemma_sum_nonneg(pk);
            lemma_unsolved_smaller(cs, g, columns);
            // every handler below counts no more than any valid strategy for its group
            assert forall|i: int| 0 <= i < v@.len() implies {
                &&& with_grade(cs, g, #[trigger] kf[i]).len() < n
                &&& distinct_codes(with_grade(cs, g, kf[i]))
                &&& with_grade(cs, g, kf[i]).len() >= 1
                &&& forall|f: spec_fn(Seq<Seq<u8>>) -> Seq<u8>|
                    #[trigger] strategy_valid(f, with_grade(cs, g, kf[i]), all, columns) ==> estimate(pk[i])
                        <= strategy_total(f, with_grade(cs, g, kf[i]), columns)
            } by {
                assert(v@[i].0 == kf[i]);
                assert(kf.contains(kf[i]));
                assert(keys.contains(kf[i]));
                lemma_group_props(cs, g, kf[i], columns);
                assert(handler_built(v@[i].1, with_grade(cs, g, kf[i]), columns));
                assert(handler_lower(v@[i].1, with_grade(cs, g, kf[i]), all, columns));
                assert(handler_fits(v@[i].1));
                assert(handler_ok(v@[i].1, columns));
                lemma_handler_counted_lower(v@[i].1, with_grade(cs, g, kf[i]), colors, columns);
            }
            let total = sum_estimates(pk) + n;
            let other = if all_finished(pk) {
                StrategyCounter::FINISHED { count: total as u16 }
            } else {
                StrategyCounter::PENDING { count: total as u16 }
            };
            assert(r == check_finished(v@.len(), n, other));
            assert(estimate(other) == total);
            // with all codes told apart, every group has one code and needs one guess
            if keys.len() == n {
                lemma_all_ones(keys, size);
                let f0 = |s: Seq<Seq<u8>>| s[0];
                assert forall|i: int| 0 <= i < pk.len() implies estimate(#[trigger] pk[i]) <= 1 by {
                    let j = choose|j: int| 0 <= j < keys.len() && keys[j] == kf[i];
                    assert(size(keys[j]) == 1);
                    assert(strategy_valid(f0, with_grade(cs, g, kf[i]), all, columns));
                }
                lemma_sum_at_most_ones(pk);
            }
            assert forall|f: spec_fn(Seq<Seq<u8>>) -> Seq<u8>|
                #[trigger] strategy_valid(f, cs, all, columns) && (cs.len() > 2 ==> f(cs) == c.candidate@) implies estimate(
                r,
            ) <= strategy_total(f, cs, columns) by {
                lemma_strategy_lower(f, cs, all, columns);
                if r == other {
                    if n > 2 {
                        assert forall|i: int| 0 <= i < pk.len() implies with_grade(cs, g, #[trigger] kf[i]).len() < n
                            && estimate(pk[i]) <= strategy_total(f, with_grade(cs, g, kf[i]), columns) by {
                            assert(kf.contains(kf[i]));
                            assert(with_grade(cs, g, kf[i]).len() < n);
                            assert(strategy_valid(f, with_grade(cs, f(cs), kf[i]), all, columns));
                        }
                        lemma_sum_at_most(pk, f, cs, g, kf, columns);
                    } else {
                        // two codes, the first one guessed: one group of one code is left
                        assert(g == cs[0]);
                        crate::mastermind_mechanics::lemma_grade_self(cs[0]);
                        lemma_grade_keys(cs, g);
                        assert(spec_grade(cs[0], g) == done_of(columns));
                        assert(keys.contains(done_of(columns)));
                        assert(grade_sum(kf, size) == 1);
                        lemma_all_ones(kf, size);
                        assert forall|i: int| 0 <= i < pk.len() implies estimate(#[trigger] pk[i]) <= 1 by {
                            assert(size(kf[i]) == 1);
                            assert(strategy_valid(f, with_grade(cs, g, kf[i]), all, columns));
                        }
                        lemma_sum_at_most_ones(pk);
                    }
                }
            }
        },
    }
}

/// A guess dropped by counting, whose count `x` is at least, leaves a
/// guess behind that vouches for `x`: the best (partially) finished one.
proof fn lemma_dropped_vouched(
    v: Seq<CandidateResultType>,
    w: Seq<CandidateResultType>,
    cs: Seq<Seq<u8>>,
    i: int,
    x: int,
)
    requires
        list_count_post(v, w, min_finished(list_counted(v))),
        list_counted(v).len() == v.len(),
        forall|j: int| 0 <= j < v.len() ==> (#[trigger] list_counted(v)[j]) == result_counted(v[j]),
        forall|j: int|
            0 <= j < v.len() && (#[trigger] result_counted(v[j])) is PARTIALLY_FINISHED ==> grade_keys(
                cs,
                v[j].candidate@,
            ).len() == cs.len() && estimate(result_counted(v[j])) == 2 * cs.len() - 1,
        0 <= i < v.len(),
        !kept(result_counted(v[i]), min_finished(list_counted(v))),
        estimate(result_counted(v[i])) <= x,
    ensures
        exists|m: int| 0 <= m < w.len() && vouches(#[trigger] w[m], cs, x),
{
    let ks = list_counted(v);
    let best = min_finished(ks);
    lemma_list_count_kept(v, w, best);
    let b = best.unwrap();
    assert(ks[i] == result_counted(v[i]));
    lemma_min_finished_nonpending(ks);
    let p = choose|p: int| 0 <= p < ks.len() && !(ks[p] is PENDING) && estimate(#[trigger] ks[p]) == b;
    assert(ks[p] == result_counted(v[p]));
    assert(kept(result_counted(v[p]), best));
    let m = choose|m: int| 0 <= m < w.len() && result_count_post(#[trigger] v[p], w[m]);
    assert(w[m].counter_stored == ks[p]);
    assert(w[m].candidate == v[p].candidate);
    assert(vouches(w[m], cs, x));
}

/// Counting keeps the counts of the tree unbeaten by any valid strategy.
proof fn lemma_handler_count_lower(old: CandidateHandlerType, new: CandidateHandlerType, cs: Seq<Seq<u8>>, colors: nat, columns: nat)
    requires
        handler_count_post(old, new),
        handler_built(old, cs, columns),
        handler_lower(old, cs, all_codes(colors, columns), columns),
        handler_fits(old),
        handler_ok(old, columns),
        distinct_codes(cs),
        1 <= cs.len() <= 32767,
        columns <= 255,
        forall|k: int| 0 <= k < cs.len() ==> (#[trigger] cs[k]).len() == columns,
        forall|k: int| 0 <= k < all_codes(colors, columns).len() ==> (#[trigger] all_codes(colors, columns)[k]).len() == columns,
    ensures
        handler_lower(new, cs, all_codes(colors, columns), columns),
    decreases old,
{
    let all = all_codes(colors, columns);
    let v = old.candidate_list@;
    let w = new.candidate_list@;
    let ks = list_counted(v);
    let best = min_finished(ks);
    lemma_list_counted(v);
    lemma_handler_counted_lower(old, cs, colors, columns);
    lemma_list_count_origin(v, w, best);
    assert forall|m: int| 0 <= m < w.len() implies result_lower(#[trigger] w[m], cs, all, columns) by {
        let i = choose|i: int| 0 <= i < v.len() && result_count_post(v[i], #[trigger] w[m]) && kept(result_counted(v[i]), best);
        lemma_result_count_lower(v[i], w[m], cs, colors, columns);
    }
    assert forall|j: int|
        0 <= j < v.len() implies (estimate(#[trigger] result_counted(v[j])) <= 2 * cs.len() || grade_keys(cs, v[j].candidate@).len() != cs.len())
        && (result_counted(v[j]) is PARTIALLY_FINISHED ==> grade_keys(cs, v[j].candidate@).len() == cs.len()
        && estimate(result_counted(v[j])) == 2 * cs.len() - 1) && (forall|f: spec_fn(Seq<Seq<u8>>) -> Seq<u8>|
        #[trigger] strategy_valid(f, cs, all, columns) && (cs.len() > 2 ==> f(cs) == v[j].candidate@) ==> estimate(
            result_counted(v[j]),
        ) <= strategy_total(f, cs, columns)) by {
        assert(result_built(v[j], cs, columns));
        assert(result_lower(v[j], cs, all, columns));
        assert(result_fits(v[j]));
        assert(result_ok(v[j], columns));
        lemma_result_counted_lower(v[j], cs, colors, columns);
    }
    assert forall|f: spec_fn(Seq<Seq<u8>>) -> Seq<u8>|
        #[trigger] strategy_valid(f, cs, all, columns) && cs.len() > 2 && !guess_present(new, f(cs)) implies exists|m: int|
        0 <= m < w.len() && vouches(#[trigger] w[m], cs, strategy_total(f, cs, columns)) by {
        lemma_count_vouch(old, new, cs, colors, columns, f);
    }
}

/// The vouching part of counting a handler, for one strategy.
#[verifier::spinoff_prover]
proof fn lemma_count_vouch(
    old: CandidateHandlerType,
    new: CandidateHandlerType,
    cs: Seq<Seq<u8>>,
    colors: nat,
    columns: nat,
    f: spec_fn(Seq<Seq<u8>>) -> Seq<u8>,
)
    requires
        handler_count_post(old, new),
        handler_lower(old, cs, all_codes(colors, columns), columns),
        list_counted(old.candidate_list@).len() == old.candidate_list@.len(),
        forall|j: int|
            0 <= j < old.candidate_list@.len() ==> (#[trigger] list_counted(old.candidate_list@)[j]) == result_counted(
                old.candidate_list@[j],
            ),
        forall|j: int|
            0 <= j < old.candidate_list@.len() ==> (estimate(#[trigger] result_counted(old.candidate_list@[j])) <= 2
                * cs.len() || grade_keys(cs, old.candidate_list@[j].candidate@).len() != cs.len()) && (result_counted(
                old.candidate_list@[j],
            ) is PARTIALLY_FINISHED ==> grade_keys(cs, old.candidate_list@[j].candidate@).len() == cs.len()
                && estimate(result_counted(old.candidate_list@[j])) == 2 * cs.len() - 1) && (forall|
                g: spec_fn(Seq<Seq<u8>>) -> Seq<u8>,
            |
                #[trigger] strategy_valid(g, cs, all_codes(colors, columns), columns) && (cs.len() > 2 ==> g(cs)
                    == old.candidate_list@[j].candidate@) ==> estimate(result_counted(old.candidate_list@[j]))
                    <= strategy_total(g, cs, columns)),
        strategy_valid(f, cs, all_codes(colors, columns), columns),
        cs.len() > 2,
        !guess_present(new, f(cs)),
    ensures
        exists|m: int|
            0 <= m < new.candidate_list@.len() && vouches(
                #[trigger] new.candidate_list@[m],
                cs,
                strategy_total(f, cs, columns),
            ),
{
    let all = all_codes(colors, columns);
    let v = old.candidate_list@;
    let w = new.candidate_list@;
    let ks = list_counted(v);
    let best = min_finished(ks);
    let x = strategy_total(f, cs, columns);
    lemma_list_count_kept(v, w, best);
    let i: int = if guess_present(old, f(cs)) {
        choose|i: int| 0 <= i < v.len() && (#[trigger] v[i]).candidate@ == f(cs)
    } else {
        choose|i: int| 0 <= i < v.len() && vouches(#[trigger] v[i], cs, x)
    };
    assert(result_lower(v[i], cs, all, columns));
    if kept(result_counted(v[i]), best) {
        let m = choose|m: int| 0 <= m < w.len() && result_count_post(#[trigger] v[i], w[m]);
        assert(w[m].candidate == v[i].candidate);
        assert(!guess_present(old, f(cs))) by {
            if guess_present(old, f(cs)) {
                assert(w[m].candidate@ == f(cs));
            }
        }
        assert(vouches(w[m], cs, x));
    } else {
        assert(estimate(result_counted(v[i])) <= x);
        lemma_dropped_vouched(v, w, cs, i, x);
    }
}

proof fn lemma_result_count_lower(old: CandidateResultType, new: CandidateResultType, cs: Seq<Seq<u8>>, colors: nat, columns: nat)
    requires
        result_count_post(old, new),
        result_built(old, cs, columns),
        result_lower(old, cs, all_codes(colors, columns), columns),
        result_fits(old),
        result_ok(old, columns),
        distinct_codes(cs),
        1 <= cs.len() <= 32767,
        columns <= 255,
        forall|k: int| 0 <= k < cs.len() ==> (#[trigger] cs[k]).len() == columns,
        forall|k: int| 0 <= k < all_codes(colors, columns).len() ==> (#[trigger] all_codes(colors, columns)[k]).len() == columns,
    ensures
        result_lower(new, cs, all_codes(colors, columns), columns),
    decreases old,
{
    let all = all_codes(colors, columns);
    let g = old.candidate@;
    lemma_result_counted_lower(old, cs, colors, columns);
    lemma_result_recount(old, new);
    if let CandidateResultHashMap::PROPAGATED(v) = old.result_hashmap {
        if let CandidateResultHashMap::PROPAGATED(w) = new.result_hashmap {
            let kf = key_filter(grade_keys(cs, g), done_of(columns));
            lemma_key_filter(grade_keys(cs, g), done_of(columns));
            assert forall|i: int| 0 <= i < w@.len() implies handler_lower(
                (#[trigger] w@[i]).1,
                with_grade(cs, new.candidate@, w@[i].0),
                all,
                columns,
            ) by {
                assert(v@[i].0 == kf[i]);
                assert(grade_keys(cs, g).contains(kf[i]));
                lemma_group_props(cs, g, kf[i], columns);
                assert(handler_count_post(v@[i].1, w@[i].1));
                assert(handler_built(v@[i].1, with_grade(cs, g, kf[i]), columns));
                assert(handler_lower(v@[i].1, with_grade(cs, g, kf[i]), all, columns));
                assert(handler_fits(v@[i].1));
                assert(handler_ok(v@[i].1, columns));
                lemma_handler_count_lower(v@[i].1, w@[i].1, with_grade(cs, g, kf[i]), colors, columns);
            }
        }
    }
}

/// The search `h` for all codes of a configuration (at most 32767 of them)
/// has counts that no valid strategy beats.
pub open spec fn search_unbeaten(h: CandidateHandlerType, colors: nat, columns: nat) -> bool {
    &&& all_codes(colors, columns).len() <= 32767
    &&& handler_lower(h, all_codes(colors, columns), all_codes(colors, columns), columns)
}

/// A search just created for all codes has counts that no strategy beats.
pub(crate) proof fn lemma_created_unbeaten(h: CandidateHandlerType, colors: nat, columns: nat)
    requires
        created(h, all_codes(colors, columns), colors, columns),
        all_codes(colors, columns).len() <= 32767,
        colors > 0 || columns == 0,
        colors <= 255,
        columns <= 255,
    ensures
        search_unbeaten(h, colors, columns),
{
    lemma_all_codes(colors, columns);
    lemma_created_lower(h, all_codes(colors, columns), colors, columns);
}

/// Propagating keeps the counts of a search unbeaten.
pub(crate) proof fn lemma_propagate_unbeaten(old: CandidateHandlerType, new: CandidateHandlerType, colors: nat, columns: nat)
    requires
        handler_propagate_post(old, new, colors, columns),
        tree_consistent(old, colors, columns),
        search_unbeaten(old, colors, columns),
        colors > 0 || columns == 0,
        colors <= 255,
        columns <= 255,
    ensures
        search_unbeaten(new, colors, columns),
{
    lemma_all_codes(colors, columns);
    lemma_handler_propagate_lower(old, new, all_codes(colors, columns), colors, columns);
}

/// Counting keeps the counts of a search unbeaten.
pub(crate) proof fn lemma_count_unbeaten(old: CandidateHandlerType, new: CandidateHandlerType, colors: nat, columns: nat)
    requires
        handler_count_post(old, new),
        tree_consistent(old, colors, columns),
        search_unbeaten(old, colors, columns),
        handler_fits(old),
        handler_ok(old, columns),
        colors > 0 || columns == 0,
        colors <= 255,
        columns <= 255,
    ensures
        search_unbeaten(new, colors, columns),
{
    lemma_all_codes(colors, columns);
    lemma_handler_count_lower(old, new, all_codes(colors, columns), colors, columns);
}

/// The strategy that always takes the first guess `selection` keeps.
pub open spec fn first_selected(all: Seq<Seq<u8>>) -> spec_fn(Seq<Seq<u8>>) -> Seq<u8> {
    |cs: Seq<Seq<u8>>| selection(cs, all, all.len() as int)[0]
}

/// Taking the first guess `selection` keeps is a valid strategy for any
/// distinct codes among those considered: there is always such a guess.
proof fn lemma_first_selected_valid(cs: Seq<Seq<u8>>, all: Seq<Seq<u8>>, columns: nat)
    requires
        distinct_codes(cs),
        columns <= 255,
        forall|k: int| 0 <= k < cs.len() ==> all.contains(#[trigger] cs[k]),
        forall|k: int| 0 <= k < all.len() ==> (#[trigger] all[k]).len() == columns,
    ensures
        strategy_valid(first_selected(all), cs, all, columns),
    decreases cs.len(),
{
    if cs.len() > 2 {
        let f = first_selected(all);
        let sel = selection(cs, all, all.len() as int);
        // the first code tells itself apart from the second one
        let q = choose|q: int| 0 <= q < all.len() && all[q] == cs[0];
        let keys = grade_keys(cs, cs[0]);
        lemma_grade_keys(cs, cs[0]);
        crate::mastermind_mechanics::lemma_grade_self(cs[0]);
        crate::mastermind_mechanics::lemma_grade_exact_iff_equal(cs[1], cs[0]);
        crate::mastermind_mechanics::lemma_grade_total(cs[1], cs[0]);
        let q1 = choose|q1: int| 0 <= q1 < all.len() && all[q1] == cs[1];
        assert(cs[0] != cs[1]);
        assert(spec_grade(cs[0], cs[0]) != spec_grade(cs[1], cs[0]));
        assert(keys.len() != 1) by {
            if keys.len() == 1 {
                let a = choose|a: int| 0 <= a < keys.len() && keys[a] == spec_grade(cs[0], cs[0]);
                let b = choose|b: int| 0 <= b < keys.len() && keys[b] == spec_grade(cs[1], cs[0]);
            }
        }
        lemma_selection(cs, all, all.len() as int);
        assert(grade_keys(cs, all[q]).len() != 1);
        assert(sel.len() > 0);
        assert(sel.contains(f(cs)));
        let g = f(cs);
        assert forall|k: ResultType|
            key_filter(grade_keys(cs, g), done_of(columns)).contains(k) && with_grade(cs, g, k).len() < cs.len()
            implies strategy_valid(f, #[trigger] with_grade(cs, g, k), all, columns) by {
            let w = with_grade(cs, g, k);
            lemma_with_grade_distinct(cs, g, k);
            assert forall|j: int| 0 <= j < w.len() implies all.contains(#[trigger] w[j]) by {
                lemma_with_grade_in(cs, g, k, j);
                let m = choose|m: int| 0 <= m < cs.len() && cs[m] == w[j];
            }
            lemma_first_selected_valid(w, all, columns);
        }
    }
}

/// For every configuration there is a strategy that guesses as the search
/// may, so the laws about valid strategies are about at least one.
pub proof fn lemma_valid_strategy_exists(colors: nat, columns: nat)
    requires
        colors > 0 || columns == 0,
        colors <= 255,
        columns <= 255,
    ensures
        strategy_valid(
            first_selected(all_codes(colors, columns)),
            all_codes(colors, columns),
            all_codes(colors, columns),
            columns,
        ),
{
    let all = all_codes(colors, columns);
    lemma_all_codes(colors, columns);
    assert forall|k: int| 0 <= k < all.len() implies all.contains(#[trigger] all[k]) by {}
    lemma_first_selected_valid(all, all, columns);
}

} // verus!
