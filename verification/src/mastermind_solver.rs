//! Brute-force search for an optimal guessing strategy.
//!
//! A `CandidateHandlerType` holds, for a set of codes that are still possible,
//! every informative next guess (`CandidateResultType`). Each guess splits the
//! possible codes by their grade (`CandidateResultHashMap`); propagating turns
//! every group into a handler of its own, one level deeper. Counting sums up
//! the guesses a strategy needs and marks finished branches.
pub mod consistency;

use vstd::prelude::*;
use rayon::iter::{IntoParallelRefMutIterator, ParallelIterator};
use self::consistency::{
    handler_height, lemma_all_codes, lemma_handler_height, lemma_count_consistent, lemma_created_bounded, lemma_created_built,
    lemma_count_unbeaten, lemma_created_sums, lemma_created_unbeaten, lemma_propagate_consistent,
    lemma_propagate_unbeaten, lemma_prune_consistent, lemma_strategy_total, search_unbeaten, strategy_total,
    strategy_valid, tree_consistent,
};
use crate::mastermind_mechanics::{
    get_all_codes, grade, gradable, lemma_gradable_short, lemma_nth_code_len, nth_code, code_count,
    spec_grade, CodeType, ConfigType, ResultType,
};

verus! {

// ---------------------------------------------------------------------------
// Strategy counter
// ---------------------------------------------------------------------------

/// Number of guesses of a strategy, with its state of completion.
#[allow(non_camel_case_types)]
#[derive(Clone, PartialEq, Eq, Structural, Debug, Copy)]
pub enum StrategyCounter {
    /// counting not yet done: a best-case estimate
    PENDING { count: u16 },
    /// a first count is available
    PARTIALLY_FINISHED { count: u16 },
    /// this strategy path is finished
    FINISHED { count: u16 },
}

/// `StrategyCounter::new` can be called with `n` candidates.
pub open spec fn counter_new_ok(n: usize) -> bool {
    n == 1 || (1 <= (n as u16) && (n as u16) <= 32767)
}

/// The best case for `n` candidates: one guess finishes a single candidate;
/// otherwise a first guess that splits all candidates apart and one more
/// guess for each but one of them.
pub open spec fn counter_new(n: usize) -> StrategyCounter {
    if n == 1 {
        StrategyCounter::FINISHED { count: 1 }
    } else {
        StrategyCounter::PENDING { count: (2 * (n as u16) - 1) as u16 }
    }
}

pub open spec fn estimate(c: StrategyCounter) -> u16 {
    match c {
        StrategyCounter::PENDING { count } => count,
        StrategyCounter::PARTIALLY_FINISHED { count } => count,
        StrategyCounter::FINISHED { count } => count,
    }
}

pub open spec fn keep_counter(c: StrategyCounter, count_reference: int) -> bool {
    estimate(c) <= count_reference
}

impl StrategyCounter {
    /// The best case for `n_candidates` candidates (see `counter_new`).
    pub fn new(n_candidates: usize) -> (r: Self)
        requires
            counter_new_ok(n_candidates),
        ensures
            r == counter_new(n_candidates),
    {
        match n_candidates {
            1 => Self::FINISHED { count: n_candidates as u16 },
            _ => Self::PENDING { count: 2 * n_candidates as u16 - 1 },
        }
    }

    /// The count of a (partially) finished counter.
    pub fn get_count_finished(&self) -> (r: Option<u16>)
        ensures
            r == match *self {
                StrategyCounter::PARTIALLY_FINISHED { count } => Some(count),
                StrategyCounter::FINISHED { count } => Some(count),
                _ => None::<u16>,
            },
    {
        match self {
            Self::PARTIALLY_FINISHED { count } => Some(*count),
            Self::FINISHED { count } => Some(*count),
            _ => None,
        }
    }

    /// The count, whatever the state.
    pub fn get_count_estimate(&self) -> (r: u16)
        ensures
            r == estimate(*self),
    {
        match *self {
            Self::PENDING { count } => count,
            Self::PARTIALLY_FINISHED { count } => count,
            Self::FINISHED { count } => count,
        }
    }

    /// Whether the counter is finished.
    pub fn is_finished(&self) -> (r: bool)
        ensures
            r == (*self is FINISHED),
    {
        match self {
            Self::FINISHED { count: _ } => true,
            _ => false,
        }
    }

    /// Whether to keep the branch behind this counter against a reference count.
    pub fn keep(&self, count_reference: u16) -> (r: bool)
        ensures
            r == keep_counter(*self, count_reference as int),
    {
        match *self {
            Self::PENDING { count } => count <= count_reference,
            Self::PARTIALLY_FINISHED { count } => count <= count_reference,
            Self::FINISHED { count } => count <= count_reference,
        }
    }
}

// ---------------------------------------------------------------------------
// The search tree
// ---------------------------------------------------------------------------

/// The codes behind each grade of one guess: first grouped codes, later one
/// handler for the next guess per group. Every grade occurs at most once.
#[allow(non_camel_case_types)]
pub enum CandidateResultHashMap {
    NEW(Vec<(ResultType, Vec<CodeType>)>),
    PROPAGATED(Vec<(ResultType, CandidateHandlerType)>),
}

/// One possible guess (`candidate`) for `number_of_candidates` possible codes.
pub struct CandidateResultType {
    pub result_hashmap: CandidateResultHashMap,
    pub candidate: CodeType,
    pub counter_stored: StrategyCounter,
    pub number_of_candidates: usize,
}

/// All informative next guesses for a set of possible codes.
pub struct CandidateHandlerType {
    pub candidate_list: Vec<CandidateResultType>,
    pub counter_stored: StrategyCounter,
}

// ---------------------------------------------------------------------------
// Grouping codes by their grade
// ---------------------------------------------------------------------------

/// The views of a list of codes.
pub open spec fn views(cs: Seq<CodeType>) -> Seq<Seq<u8>> {
    cs.map_values(|c: CodeType| c@)
}

/// The codes of `gs` (in order) whose grade against `solution` is `r`.
pub open spec fn with_grade(gs: Seq<Seq<u8>>, solution: Seq<u8>, r: ResultType) -> Seq<Seq<u8>>
    decreases gs.len(),
{
    if gs.len() == 0 {
        Seq::empty()
    } else {
        let p = with_grade(gs.drop_last(), solution, r);
        if spec_grade(gs.last(), solution) == r {
            p.push(gs.last())
        } else {
            p
        }
    }
}

/// The grades of the codes of `gs` against `solution`, each once, in the
/// order in which they first occur.
pub open spec fn grade_keys(gs: Seq<Seq<u8>>, solution: Seq<u8>) -> Seq<ResultType>
    decreases gs.len(),
{
    if gs.len() == 0 {
        Seq::empty()
    } else {
        let p = grade_keys(gs.drop_last(), solution);
        let r = spec_grade(gs.last(), solution);
        if p.contains(r) {
            p
        } else {
            p.push(r)
        }
    }
}

/// `groups` splits `gs` by grade against `solution`: one group per grade
/// that occurs, in the order of first occurrence, holding the codes of that
/// grade in their order in `gs`.
pub open spec fn grouped(groups: Seq<(ResultType, Vec<CodeType>)>, gs: Seq<Seq<u8>>, solution: Seq<u8>) -> bool {
    &&& groups.len() == grade_keys(gs, solution).len()
    &&& forall|i: int| 0 <= i < groups.len() ==> #[trigger] groups[i].0 == grade_keys(gs, solution)[i]
    &&& forall|i: int, j: int|
        0 <= i < groups.len() && 0 <= j < groups.len() && i != j ==> #[trigger] groups[i].0
            != #[trigger] groups[j].0
    &&& forall|i: int|
        0 <= i < groups.len() ==> views(#[trigger] groups[i].1@) == with_grade(gs, solution, groups[i].0)
    &&& forall|i: int| 0 <= i < groups.len() ==> (#[trigger] groups[i].1@).len() > 0
    &&& forall|k: int|
        0 <= k < gs.len() ==> exists|i: int|
            0 <= i < groups.len() && #[trigger] groups[i].0 == spec_grade(#[trigger] gs[k], solution)
}

/// All codes of `gs` can be graded against `solution`.
pub open spec fn all_gradable(gs: Seq<Seq<u8>>, solution: Seq<u8>) -> bool {
    forall|k: int| 0 <= k < gs.len() ==> gradable(#[trigger] gs[k], solution)
}

proof fn lemma_with_grade_witness(gs: Seq<Seq<u8>>, solution: Seq<u8>, r: ResultType)
    requires
        with_grade(gs, solution, r).len() > 0,
    ensures
        exists|k: int| 0 <= k < gs.len() && spec_grade(#[trigger] gs[k], solution) == r,
    decreases gs.len(),
{
    let p = gs.drop_last();
    if spec_grade(gs.last(), solution) == r {
        assert(spec_grade(gs[gs.len() - 1], solution) == r);
    } else {
        lemma_with_grade_witness(p, solution, r);
        let k = choose|k: int| 0 <= k < p.len() && spec_grade(#[trigger] p[k], solution) == r;
        assert(gs[k] == p[k]);
    }
}

/// Every code of `gs` with grade `r` is in `with_grade`; the count of them.
proof fn lemma_with_grade_push(gs: Seq<Seq<u8>>, g: Seq<u8>, solution: Seq<u8>, r: ResultType)
    ensures
        with_grade(gs.push(g), solution, r) == if spec_grade(g, solution) == r {
            with_grade(gs, solution, r).push(g)
        } else {
            with_grade(gs, solution, r)
        },
{
    assert(gs.push(g).drop_last() =~= gs);
}

/// `r` is the guess `guess` for the possible codes `gs`, just created: the
/// codes grouped by their grade, the counter at its best case.
pub open spec fn fresh_result(r: CandidateResultType, gs: Seq<Seq<u8>>, guess: Seq<u8>) -> bool {
    &&& r.candidate@ == guess
    &&& r.number_of_candidates == gs.len()
    &&& r.counter_stored == counter_new(gs.len() as usize)
    &&& r.result_hashmap matches CandidateResultHashMap::NEW(groups) && grouped(groups@, gs, guess)
}

impl CandidateResultType {
    /// Grade every guess against `solution` and group the guesses by grade.
    pub fn new(guesses: &Vec<CodeType>, solution: &CodeType) -> (r: Self)
        requires
            all_gradable(views(guesses@), solution@),
            counter_new_ok(guesses@.len() as usize),
        ensures
            fresh_result(r, views(guesses@), solution@),
    {
        let ghost gs = views(guesses@);
        let ghost sol = solution@;
        let mut map: Vec<(ResultType, Vec<CodeType>)> = Vec::new();
        let mut k: usize = 0;
        while k < guesses.len()
            invariant
                gs == views(guesses@),
                sol == solution@,
                all_gradable(gs, sol),
                k <= guesses@.len(),
                grouped(map@, gs.subrange(0, k as int), sol),
            decreases guesses@.len() - k,
        {
            let ghost pre = gs.subrange(0, k as int);
            let ghost g = gs[k as int];
            assert(gs.subrange(0, k as int + 1) =~= pre.push(g));
            assert(gradable(gs[k as int], sol));
            let result = grade(&guesses[k], solution);
            let mut i: usize = 0;
            let mut found = false;
            while i < map.len()
                invariant_except_break
                    i <= map@.len(),
                    !found,
                    forall|j: int| 0 <= j < i ==> map@[j].0 != result,
                ensures
                    found ==> i < map@.len() && map@[i as int].0 == result,
                    !found ==> forall|j: int| 0 <= j < map@.len() ==> map@[j].0 != result,
                decreases map@.len() - i,
            {
                if map[i].0 == result {
                    found = true;
                    break;
                }
                i = i + 1;
            }
            let ghost old_map = map@;
            proof {
                assert forall|r: ResultType| #[trigger] with_grade(pre.push(g), sol, r) == if spec_grade(g, sol) == r {
                    with_grade(pre, sol, r).push(g)
                } else {
                    with_grade(pre, sol, r)
                } by {
                    lemma_with_grade_push(pre, g, sol, r);
                }
            }
            if found {
                let (key, mut codes) = map.remove(i);
                codes.push(guesses[k].clone());
                map.insert(i, (key, codes));
                proof {
                    assert(map@ =~= old_map.update(i as int, (key, codes)));
                    assert(pre.push(g).drop_last() =~= pre);
                    assert(grade_keys(pre, sol)[i as int] == result);
                    assert(grade_keys(pre.push(g), sol) == grade_keys(pre, sol));
                    assert(views(codes@) =~= views(old_map[i as int].1@).push(g));
                    assert forall|j: int| 0 <= j < map@.len() implies views(#[trigger] map@[j].1@)
                        == with_grade(pre.push(g), sol, map@[j].0) by {
                        assert(with_grade(pre.push(g), sol, map@[j].0) == if spec_grade(g, sol) == map@[j].0 {
                            with_grade(pre, sol, map@[j].0).push(g)
                        } else {
                            with_grade(pre, sol, map@[j].0)
                        });
                    }
                    assert forall|q: int| 0 <= q < pre.push(g).len() implies exists|j: int|
                        0 <= j < map@.len() && #[trigger] map@[j].0 == spec_grade(#[trigger] pre.push(g)[q], sol) by {
                        if q < pre.len() {
                            assert(pre.push(g)[q] == pre[q]);
                            let j = choose|j: int| 0 <= j < old_map.len() && #[trigger] old_map[j].0 == spec_grade(#[trigger] pre[q], sol);
                            assert(map@[j].0 == old_map[j].0);
                        } else {
                            assert(map@[i as int].0 == spec_grade(g, sol));
                        }
                    }
                }
            } else {
                let mut codes: Vec<CodeType> = Vec::new();
                codes.push(guesses[k].clone());
                map.push((result, codes));
                proof {
                    assert(views(codes@) =~= seq![g]);
                    assert(pre.push(g).drop_last() =~= pre);
                    assert(!grade_keys(pre, sol).contains(result)) by {
                        if grade_keys(pre, sol).contains(result) {
                            let j = choose|j: int| 0 <= j < grade_keys(pre, sol).len() && grade_keys(pre, sol)[j] == result;
                            assert(old_map[j].0 == result);
                        }
                    }
                    assert(grade_keys(pre.push(g), sol) == grade_keys(pre, sol).push(result));
                    if with_grade(pre, sol, result).len() > 0 {
                        lemma_with_grade_witness(pre, sol, result);
                        let q = choose|q: int| 0 <= q < pre.len() && spec_grade(#[trigger] pre[q], sol) == result;
                        let j = choose|j: int| 0 <= j < old_map.len() && #[trigger] old_map[j].0 == spec_grade(#[trigger] pre[q], sol);
                        assert(false);
                    }
                    assert(with_grade(pre, sol, result) =~= Seq::<Seq<u8>>::empty());
                    assert(seq![g] =~= Seq::<Seq<u8>>::empty().push(g));
                    assert forall|j: int| 0 <= j < map@.len() implies views(#[trigger] map@[j].1@)
                        == with_grade(pre.push(g), sol, map@[j].0) by {
                        assert(with_grade(pre.push(g), sol, map@[j].0) == if spec_grade(g, sol) == map@[j].0 {
                            with_grade(pre, sol, map@[j].0).push(g)
                        } else {
                            with_grade(pre, sol, map@[j].0)
                        });
                        if j < old_map.len() {
                            assert(map@[j] == old_map[j]);
                        }
                    }
                    assert forall|q: int| 0 <= q < pre.push(g).len() implies exists|j: int|
                        0 <= j < map@.len() && #[trigger] map@[j].0 == spec_grade(#[trigger] pre.push(g)[q], sol) by {
                        if q < pre.len() {
                            assert(pre.push(g)[q] == pre[q]);
                            let j = choose|j: int| 0 <= j < old_map.len() && #[trigger] old_map[j].0 == spec_grade(#[trigger] pre[q], sol);
                            assert(map@[j].0 == old_map[j].0);
                        } else {
                            assert(map@[old_map.len() as int].0 == spec_grade(g, sol));
                        }
                    }
                }
            }
            k = k + 1;
        }
        assert(gs.subrange(0, guesses@.len() as int) =~= gs);
        let n_candidates = guesses.len();
        CandidateResultType {
            result_hashmap: CandidateResultHashMap::NEW(map),
            candidate: solution.clone(),
            counter_stored: StrategyCounter::new(n_candidates),
            number_of_candidates: n_candidates,
        }
    }
}

// ---------------------------------------------------------------------------
// Looking up results
// ---------------------------------------------------------------------------

/// No grade occurs twice among the keys.
pub open spec fn distinct_keys<T>(v: Seq<(ResultType, T)>) -> bool {
    forall|i: int, j: int|
        0 <= i < v.len() && 0 <= j < v.len() && i != j ==> #[trigger] v[i].0 != #[trigger] v[j].0
}

pub open spec fn has_result<T>(v: Seq<(ResultType, T)>, r: ResultType) -> bool {
    exists|i: int| 0 <= i < v.len() && #[trigger] v[i].0 == r
}

/// The index of the entry for grade `r` (meaningful when there is one).
pub open spec fn index_of<T>(v: Seq<(ResultType, T)>, r: ResultType) -> int {
    choose|i: int| 0 <= i < v.len() && #[trigger] v[i].0 == r
}

/// Number of different grades.
pub open spec fn map_len(m: CandidateResultHashMap) -> nat {
    match m {
        CandidateResultHashMap::NEW(v) => v@.len(),
        CandidateResultHashMap::PROPAGATED(v) => v@.len(),
    }
}

pub open spec fn map_has(m: CandidateResultHashMap, r: ResultType) -> bool {
    match m {
        CandidateResultHashMap::NEW(v) => has_result(v@, r),
        CandidateResultHashMap::PROPAGATED(v) => has_result(v@, r),
    }
}

pub open spec fn map_distinct(m: CandidateResultHashMap) -> bool {
    match m {
        CandidateResultHashMap::NEW(v) => distinct_keys(v@),
        CandidateResultHashMap::PROPAGATED(v) => distinct_keys(v@),
    }
}

/// Number of codes with grade `r` in a grouped map, 0 if the grade does not occur.
pub open spec fn group_size(groups: Seq<(ResultType, Vec<CodeType>)>, r: ResultType) -> nat {
    if has_result(groups, r) {
        groups[index_of(groups, r)].1@.len()
    } else {
        0
    }
}

/// Two maps agree: (when `a` is grouped) both have as many grades, and the
/// same number of codes behind each grade of `a`.
pub open spec fn map_eq(a: CandidateResultHashMap, b: CandidateResultHashMap) -> bool {
    match a {
        CandidateResultHashMap::NEW(ga) => {
            &&& map_len(b) == map_len(a)
            &&& forall|i: int|
                0 <= i < ga@.len() ==> (#[trigger] ga@[i]).1@.len() == match b {
                    CandidateResultHashMap::NEW(gb) => group_size(gb@, ga@[i].0),
                    _ => 0,
                }
        },
        CandidateResultHashMap::PROPAGATED(_) => true,
    }
}

/// Comparing `a` with `b` does not look up grades in a propagated `b`.
pub open spec fn map_eq_ok(a: CandidateResultHashMap, b: CandidateResultHashMap) -> bool {
    &&& map_distinct(b)
    &&& (a is NEW && map_len(a) > 0) ==> b is NEW
}

fn find_result<T>(v: &Vec<(ResultType, T)>, r: &ResultType) -> (i: usize)
    ensures
        i <= v@.len(),
        i < v@.len() ==> v@[i as int].0 == *r,
        i == v@.len() <==> !has_result(v@, *r),
        distinct_keys(v@) && i < v@.len() ==> i == index_of(v@, *r),
{
    let mut i: usize = 0;
    while i < v.len()
        invariant
            i <= v@.len(),
            forall|j: int| 0 <= j < i ==> v@[j].0 != *r,
        decreases v@.len() - i,
    {
        if v[i].0 == *r {
            proof {
                if distinct_keys(v@) {
                    let k = index_of(v@, *r);
                    assert(v@[k].0 == *r);
                }
            }
            return i;
        }
        i = i + 1;
    }
    i
}

impl CandidateResultHashMap {
    /// Whether the grade `other_result` occurs.
    pub fn contains(&self, other_result: &ResultType) -> (r: bool)
        ensures
            r == map_has(*self, *other_result),
    {
        match self {
            Self::NEW(hm) => find_result(hm, other_result) < hm.len(),
            Self::PROPAGATED(hm) => find_result(hm, other_result) < hm.len(),
        }
    }

    /// The number of different grades.
    pub fn number_of_next_candidates(&self) -> (r: usize)
        ensures
            r == map_len(*self),
    {
        match self {
            Self::NEW(hm) => hm.len(),
            Self::PROPAGATED(hm) => hm.len(),
        }
    }

    /// The number of codes with grade `result` (only while the codes are grouped).
    pub fn number_of_candidates_per_result(&self, result: &ResultType) -> (r: usize)
        requires
            *self is NEW,
            map_distinct(*self),
        ensures
            *self matches Self::NEW(g) && r == group_size(g@, *result),
    {
        match self {
            Self::NEW(hm) => {
                let i = find_result(hm, result);
                if i < hm.len() {
                    return hm[i].1.len();
                }
                0
            },
            Self::PROPAGATED(_) => 0,
        }
    }

    /// The handler for the grade `result` (only once propagated).
    pub fn get_handler(&self, result: &ResultType) -> (r: Option<&CandidateHandlerType>)
        requires
            *self is PROPAGATED,
            map_distinct(*self),
        ensures
            *self matches Self::PROPAGATED(v) && r == if has_result(v@, *result) {
                Some(&v@[index_of(v@, *result)].1)
            } else {
                None::<&CandidateHandlerType>
            },
    {
        match self {
            Self::NEW(_) => None,
            Self::PROPAGATED(hm) => {
                let i = find_result(hm, result);
                if i < hm.len() {
                    Some(&hm[i].1)
                } else {
                    None
                }
            },
        }
    }

    /// Whether both maps have the same number of codes behind each grade of
    /// this map (see `map_eq`).
    pub fn eq(&self, other: &Self) -> (r: bool)
        requires
            map_eq_ok(*self, *other),
        ensures
            r == map_eq(*self, *other),
    {
        if let Self::NEW(hm) = self {
            if other.number_of_next_candidates() != self.number_of_next_candidates() {
                return false;
            }
            let mut i: usize = 0;
            while i < hm.len()
                invariant
                    *self == Self::NEW(*hm),
                    map_eq_ok(*self, *other),
                    i <= hm@.len(),
                    forall|j: int|
                        0 <= j < i ==> (#[trigger] hm@[j]).1@.len() == match *other {
                            CandidateResultHashMap::NEW(gb) => group_size(gb@, hm@[j].0),
                            _ => 0,
                        },
                decreases hm@.len() - i,
            {
                if hm[i].1.len() != other.number_of_candidates_per_result(&hm[i].0) {
                    return false;
                }
                i = i + 1;
            }
        }
        true
    }
}

impl CandidateResultType {
    /// Whether the grade `other_result` occurs for this guess.
    pub fn contains(&self, other_result: &ResultType) -> (r: bool)
        ensures
            r == map_has(self.result_hashmap, *other_result),
    {
        self.result_hashmap.contains(other_result)
    }

    /// The number of different grades for this guess.
    pub fn num_results(&self) -> (r: usize)
        ensures
            r == map_len(self.result_hashmap),
    {
        self.result_hashmap.number_of_next_candidates()
    }

    /// The number of codes with grade `result` (only while grouped).
    pub fn num_entries(&self, result: &ResultType) -> (r: usize)
        requires
            self.result_hashmap is NEW,
            map_distinct(self.result_hashmap),
        ensures
            self.result_hashmap matches CandidateResultHashMap::NEW(g) && r == group_size(
                g@,
                *result,
            ),
    {
        self.result_hashmap.number_of_candidates_per_result(result)
    }

    /// The guess of this candidate.
    pub fn get_guess(&self) -> (r: CodeType)
        ensures
            r@ == self.candidate@,
    {
        self.candidate.clone()
    }

    /// Whether both guesses split the codes alike (see `map_eq`).
    pub fn eq(&self, other: &Self) -> (r: bool)
        requires
            map_eq_ok(self.result_hashmap, other.result_hashmap),
        ensures
            r == map_eq(self.result_hashmap, other.result_hashmap),
    {
        self.result_hashmap.eq(&other.result_hashmap)
    }
}

// ---------------------------------------------------------------------------
// Choosing the next guesses
// ---------------------------------------------------------------------------

/// Guess `b` splits the codes `gs` like guess `a`: as many grades, and as
/// many codes behind each grade of `a`.
pub open spec fn similar(gs: Seq<Seq<u8>>, a: Seq<u8>, b: Seq<u8>) -> bool {
    let ka = grade_keys(gs, a);
    let kb = grade_keys(gs, b);
    &&& kb.len() == ka.len()
    &&& forall|i: int|
        0 <= i < ka.len() ==> (#[trigger] with_grade(gs, a, ka[i])).len() == with_grade(
            gs,
            b,
            ka[i],
        ).len()
}

/// The guesses kept among the first `k` codes of `all` for the possible
/// codes `gs`: every code that splits `gs` into more than one group and is
/// not similar to a guess kept before it.
pub open spec fn selection(gs: Seq<Seq<u8>>, all: Seq<Seq<u8>>, k: int) -> Seq<Seq<u8>>
    decreases k,
{
    if k <= 0 {
        Seq::empty()
    } else {
        let p = selection(gs, all, k - 1);
        let c = all[k - 1];
        if grade_keys(gs, c).len() == 1 || exists|j: int|
            0 <= j < p.len() && #[trigger] similar(gs, p[j], c) {
            p
        } else {
            p.push(c)
        }
    }
}

/// All codes of a configuration, in the order of `get_all_codes`.
pub open spec fn all_codes(colors: nat, columns: nat) -> Seq<Seq<u8>> {
    Seq::new(code_count(colors, columns), |k: int| nth_code(k as nat, colors, columns))
}

/// The number of codes behind a grade of a grouped map is the number of
/// codes with that grade (0 for a grade that does not occur).
proof fn lemma_group_size(groups: Seq<(ResultType, Vec<CodeType>)>, gs: Seq<Seq<u8>>, guess: Seq<u8>, r: ResultType)
    requires
        grouped(groups, gs, guess),
    ensures
        group_size(groups, r) == with_grade(gs, guess, r).len(),
{
    if has_result(groups, r) {
        let i = index_of(groups, r);
        assert(views(groups[i].1@).len() == groups[i].1@.len());
    } else {
        if with_grade(gs, guess, r).len() > 0 {
            lemma_with_grade_witness(gs, guess, r);
            let k = choose|k: int| 0 <= k < gs.len() && spec_grade(#[trigger] gs[k], guess) == r;
            let i = choose|i: int| 0 <= i < groups.len() && #[trigger] groups[i].0 == spec_grade(#[trigger] gs[k], guess);
            assert(groups[i].0 == r);
        }
    }
}

/// Comparing two fresh guesses for the same codes tells whether they are similar.
proof fn lemma_map_eq_similar(a: CandidateResultType, b: CandidateResultType, gs: Seq<Seq<u8>>, ga: Seq<u8>, gb: Seq<u8>)
    requires
        fresh_result(a, gs, ga),
        fresh_result(b, gs, gb),
    ensures
        map_eq_ok(a.result_hashmap, b.result_hashmap),
        map_eq(a.result_hashmap, b.result_hashmap) == similar(gs, ga, gb),
{
    if let CandidateResultHashMap::NEW(va) = a.result_hashmap {
        if let CandidateResultHashMap::NEW(vb) = b.result_hashmap {
            let ka = grade_keys(gs, ga);
            assert forall|i: int| 0 <= i < va@.len() implies (#[trigger] va@[i]).1@.len() == group_size(vb@, va@[i].0)
                <==> with_grade(gs, ga, ka[i]).len() == with_grade(gs, gb, ka[i]).len() by {
                lemma_group_size(vb@, gs, gb, va@[i].0);
                assert(views(va@[i].1@).len() == va@[i].1@.len());
            }
            if map_eq(a.result_hashmap, b.result_hashmap) {
                assert forall|i: int| 0 <= i < ka.len() implies (#[trigger] with_grade(gs, ga, ka[i])).len()
                    == with_grade(gs, gb, ka[i]).len() by {
                    assert(va@[i].1@.len() == group_size(vb@, va@[i].0));
                }
            }
            if similar(gs, ga, gb) {
                assert forall|i: int| 0 <= i < va@.len() implies (#[trigger] va@[i]).1@.len() == match b.result_hashmap {
                    CandidateResultHashMap::NEW(gb) => group_size(gb@, va@[i].0),
                    _ => 0,
                } by {
                    assert(with_grade(gs, ga, ka[i]).len() == with_grade(gs, gb, ka[i]).len());
                }
            }
        }
    }
}

/// `h` was created for the possible codes `gs`: its counter at the best case;
/// with one or two codes, one guess (the first code); otherwise one fresh
/// guess per code of `selection`.
pub open spec fn created(h: CandidateHandlerType, gs: Seq<Seq<u8>>, colors: nat, columns: nat) -> bool {
    &&& h.counter_stored == counter_new(gs.len() as usize)
    &&& gs.len() <= 2 ==> h.candidate_list@.len() == 1 && fresh_result(h.candidate_list@[0], gs, gs[0])
    &&& gs.len() > 2 ==> {
        let sel = selection(gs, all_codes(colors, columns), code_count(colors, columns) as int);
        &&& h.candidate_list@.len() == sel.len()
        &&& forall|j: int|
            0 <= j < sel.len() ==> fresh_result(#[trigger] h.candidate_list@[j], gs, sel[j])
    }
}

impl CandidateHandlerType {
    /// The number of guesses.
    pub fn len(&self) -> (r: usize)
        ensures
            r == self.candidate_list@.len(),
    {
        self.candidate_list.len()
    }

    /// Append a guess.
    pub fn add(&mut self, candidate: CandidateResultType)
        ensures
            final(self).candidate_list@ == old(self).candidate_list@.push(candidate),
            final(self).counter_stored == old(self).counter_stored,
    {
        self.candidate_list.push(candidate)
    }

    /// The guess to make next: the first one.
    pub fn get_candidate(&self) -> (r: &CandidateResultType)
        requires
            self.candidate_list@.len() > 0,
        ensures
            *r == self.candidate_list@[0],
    {
        &self.candidate_list[0]
    }

    /// Whether this path is finished.
    pub fn is_finished(&self) -> (r: bool)
        ensures
            r == (self.counter_stored is FINISHED),
    {
        match self.counter_stored {
            StrategyCounter::FINISHED { count: _ } => true,
            _ => false,
        }
    }

    /// Whether a guess that splits the codes like `other_candidate_result` is
    /// already in the list.
    pub fn contains_similar(&self, other_candidate_result: &CandidateResultType) -> (r: bool)
        requires
            forall|i: int|
                0 <= i < self.candidate_list@.len() ==> map_eq_ok(
                    (#[trigger] self.candidate_list@[i]).result_hashmap,
                    other_candidate_result.result_hashmap,
                ),
        ensures
            r == exists|i: int|
                0 <= i < self.candidate_list@.len() && map_eq(
                    (#[trigger] self.candidate_list@[i]).result_hashmap,
                    other_candidate_result.result_hashmap,
                ),
    {
        let mut i: usize = 0;
        while i < self.candidate_list.len()
            invariant
                i <= self.candidate_list@.len(),
                forall|j: int|
                    0 <= j < self.candidate_list@.len() ==> map_eq_ok(
                        (#[trigger] self.candidate_list@[j]).result_hashmap,
                        other_candidate_result.result_hashmap,
                    ),
                forall|j: int|
                    0 <= j < i ==> !map_eq(
                        (#[trigger] self.candidate_list@[j]).result_hashmap,
                        other_candidate_result.result_hashmap,
                    ),
            decreases self.candidate_list@.len() - i,
        {
            if self.candidate_list[i].eq(other_candidate_result) {
                return true;
            }
            i = i + 1;
        }
        false
    }

    /// The guesses for the possible codes `candidates`. With one or two codes
    /// left, the first of them is the only guess. Otherwise every code of the
    /// configuration that splits the candidates into more than one group is
    /// a guess, unless it splits them like a guess found before.
    pub fn create_next_candidates(candidates: Vec<CodeType>, configuration: &ConfigType) -> (r: Self)
        requires
            counter_new_ok(candidates@.len() as usize),
            configuration.columns <= 255,
            forall|k: int| 0 <= k < candidates@.len() ==> (#[trigger] candidates@[k])@.len() == configuration.columns,
            candidates@.len() > 2 ==> configuration.colors > 0 || configuration.columns == 0,
            candidates@.len() > 2 ==> code_count(configuration.colors as nat, configuration.columns as nat) <= usize::MAX,
        ensures
            created(r, views(candidates@), configuration.colors as nat, configuration.columns as nat),
    {
        let ghost gs = views(candidates@);
        let mut result = CandidateHandlerType {
            candidate_list: Vec::new(),
            counter_stored: StrategyCounter::new(candidates.len()),
        };
        if candidates.len() <= 2 {
            let candidate = candidates[0].clone();
            proof {
                assert forall|k: int| 0 <= k < gs.len() implies gradable(#[trigger] gs[k], candidate@) by {
                    lemma_gradable_short(gs[k], candidate@);
                }
            }
            let new_candidate_result = CandidateResultType::new(&candidates, &candidate);
            result.add(new_candidate_result);
            return result;
        }
        let candidates_all = get_all_codes(configuration);
        let ghost all = all_codes(configuration.colors as nat, configuration.columns as nat);
        assert(candidates_all@.len() == all.len());
        let mut idx: usize = 0;
        while idx < candidates_all.len()
            invariant
                gs == views(candidates@),
                3 <= gs.len(),
                counter_new_ok(candidates@.len() as usize),
                configuration.columns <= 255,
                configuration.colors > 0 || configuration.columns == 0,
                forall|k: int| 0 <= k < candidates@.len() ==> (#[trigger] candidates@[k])@.len() == configuration.columns,
                all == all_codes(configuration.colors as nat, configuration.columns as nat),
                candidates_all@.len() == all.len(),
                forall|k: int| 0 <= k < candidates_all@.len() ==> #[trigger] candidates_all@[k]@ == all[k],
                idx <= candidates_all@.len(),
                result.counter_stored == counter_new(candidates@.len() as usize),
                result.candidate_list@.len() == selection(gs, all, idx as int).len(),
                forall|j: int| 0 <= j < result.candidate_list@.len() ==> fresh_result(
                    #[trigger] result.candidate_list@[j],
                    gs,
                    selection(gs, all, idx as int)[j],
                ),
            decreases candidates_all@.len() - idx,
        {
            let code = &candidates_all[idx];
            proof {
                lemma_nth_code_len(idx as nat, configuration.colors as nat, configuration.columns as nat);
                assert(code@.len() == configuration.columns);
                assert forall|k: int| 0 <= k < gs.len() implies gradable(#[trigger] gs[k], code@) by {
                    assert(gs[k] == candidates@[k]@);
                    lemma_gradable_short(gs[k], code@);
                }
            }
            let new_candidate_result = CandidateResultType::new(&candidates, code);
            let ghost sel = selection(gs, all, idx as int);
            proof {
                assert(selection(gs, all, idx as int + 1) == if grade_keys(gs, code@).len() == 1 || exists|j: int|
                    0 <= j < sel.len() && #[trigger] similar(gs, sel[j], code@) {
                    sel
                } else {
                    sel.push(code@)
                });
            }
            if new_candidate_result.num_results() == 1 {
                idx = idx + 1;
                continue;
            }
            proof {
                assert forall|i: int| 0 <= i < result.candidate_list@.len() implies map_eq_ok(
                    (#[trigger] result.candidate_list@[i]).result_hashmap,
                    new_candidate_result.result_hashmap,
                ) && (map_eq(result.candidate_list@[i].result_hashmap, new_candidate_result.result_hashmap)
                    == similar(gs, sel[i], code@)) by {
                    lemma_map_eq_similar(result.candidate_list@[i], new_candidate_result, gs, sel[i], code@);
                }
            }
            if result.contains_similar(&new_candidate_result) {
                proof {
                    let i = choose|i: int| 0 <= i < result.candidate_list@.len() && map_eq(
                        (#[trigger] result.candidate_list@[i]).result_hashmap,
                        new_candidate_result.result_hashmap,
                    );
                    assert(similar(gs, sel[i], code@));
                }
                idx = idx + 1;
                continue;
            }
            proof {
                if exists|j: int| 0 <= j < sel.len() && #[trigger] similar(gs, sel[j], code@) {
                    let j = choose|j: int| 0 <= j < sel.len() && #[trigger] similar(gs, sel[j], code@);
                    assert(map_eq(result.candidate_list@[j].result_hashmap, new_candidate_result.result_hashmap));
                }
            }
            result.add(new_candidate_result);
            idx = idx + 1;
        }
        result
    }
}

// ---------------------------------------------------------------------------
// Well-formed search trees
// ---------------------------------------------------------------------------

/// A handler of well-formed guesses; when finished, all its guesses are finished.
pub open spec fn handler_ok(h: CandidateHandlerType, columns: nat) -> bool
    decreases h,
{
    &&& (h.counter_stored is FINISHED ==> h.candidate_list@.len() > 0)
    &&& (h.counter_stored is FINISHED ==> forall|i: int|
        0 <= i < h.candidate_list@.len() ==> (#[trigger] h.candidate_list@[i]).counter_stored is FINISHED)
    &&& forall|i: int|
        0 <= i < h.candidate_list@.len() ==> result_ok(#[trigger] h.candidate_list@[i], columns)
}

/// A guess for between 1 and 32767 codes; when finished, it needs no further
/// guess (a single code) or everything below it is finished.
pub open spec fn result_ok(c: CandidateResultType, columns: nat) -> bool
    decreases c,
{
    &&& 1 <= c.number_of_candidates <= 32767
    &&& c.candidate@.len() == columns
    &&& map_distinct(c.result_hashmap)
    &&& (c.counter_stored is FINISHED ==> match c.result_hashmap {
        CandidateResultHashMap::NEW(_) => c.number_of_candidates == 1,
        CandidateResultHashMap::PROPAGATED(v) => forall|i: int|
            0 <= i < v@.len() ==> (#[trigger] v@[i]).1.counter_stored is FINISHED,
    })
    &&& map_ok(c.result_hashmap, c.number_of_candidates as nat, columns)
}

/// Groups of at most `n` codes of `columns` entries each; propagated only
/// for two codes or more.
pub open spec fn map_ok(m: CandidateResultHashMap, n: nat, columns: nat) -> bool
    decreases m,
{
    match m {
        CandidateResultHashMap::NEW(groups) => {
            &&& groups@.len() <= n
            &&& forall|i: int|
                0 <= i < groups@.len() ==> {
                    &&& 1 <= (#[trigger] groups@[i]).1@.len() <= n
                    &&& forall|k: int|
                        0 <= k < groups@[i].1@.len() ==> (#[trigger] groups@[i].1@[k])@.len() == columns
                }
        },
        CandidateResultHashMap::PROPAGATED(v) => {
            &&& n >= 2
            &&& forall|i: int| 0 <= i < v@.len() ==> handler_ok((#[trigger] v@[i]).1, columns)
        },
    }
}

proof fn lemma_with_grade_props(gs: Seq<Seq<u8>>, sol: Seq<u8>, r: ResultType, columns: nat)
    ensures
        with_grade(gs, sol, r).len() <= gs.len(),
        (forall|k: int| 0 <= k < gs.len() ==> (#[trigger] gs[k]).len() == columns) ==> forall|k: int|
            0 <= k < with_grade(gs, sol, r).len() ==> (#[trigger] with_grade(gs, sol, r)[k]).len()
                == columns,
    decreases gs.len(),
{
    if gs.len() > 0 {
        let p = gs.drop_last();
        lemma_with_grade_props(p, sol, r, columns);
        if forall|k: int| 0 <= k < gs.len() ==> (#[trigger] gs[k]).len() == columns {
            assert forall|k: int| 0 <= k < p.len() implies (#[trigger] p[k]).len() == columns by {
                assert(p[k] == gs[k]);
            }
            assert(gs.last() == gs[gs.len() - 1]);
        }
    }
}

proof fn lemma_grade_keys_len(gs: Seq<Seq<u8>>, sol: Seq<u8>)
    ensures
        grade_keys(gs, sol).len() <= gs.len(),
    decreases gs.len(),
{
    if gs.len() > 0 {
        lemma_grade_keys_len(gs.drop_last(), sol);
    }
}

/// A fresh guess for between 1 and 32767 codes of `columns` entries is well formed.
proof fn lemma_fresh_ok(c: CandidateResultType, gs: Seq<Seq<u8>>, g: Seq<u8>, columns: nat)
    requires
        fresh_result(c, gs, g),
        1 <= gs.len() <= 32767,
        g.len() == columns,
        forall|k: int| 0 <= k < gs.len() ==> (#[trigger] gs[k]).len() == columns,
    ensures
        result_ok(c, columns),
{
    if let CandidateResultHashMap::NEW(groups) = c.result_hashmap {
        lemma_grade_keys_len(gs, g);
        assert forall|i: int| 0 <= i < groups@.len() implies {
            &&& 1 <= (#[trigger] groups@[i]).1@.len() <= gs.len()
            &&& forall|k: int|
                0 <= k < groups@[i].1@.len() ==> (#[trigger] groups@[i].1@[k])@.len() == columns
        } by {
            let w = with_grade(gs, g, groups@[i].0);
            lemma_with_grade_props(gs, g, groups@[i].0, columns);
            assert(views(groups@[i].1@) == w);
            assert(views(groups@[i].1@).len() == groups@[i].1@.len());
            assert forall|k: int| 0 <= k < groups@[i].1@.len() implies (#[trigger] groups@[i].1@[k])@.len() == columns by {
                assert(views(groups@[i].1@)[k] == groups@[i].1@[k]@);
            }
        }
    }
}

proof fn lemma_selection_len(gs: Seq<Seq<u8>>, all: Seq<Seq<u8>>, k: int, columns: nat)
    requires
        k <= all.len(),
        forall|q: int| 0 <= q < all.len() ==> (#[trigger] all[q]).len() == columns,
    ensures
        forall|j: int| 0 <= j < selection(gs, all, k).len() ==> (#[trigger] selection(gs, all, k)[j]).len() == columns,
    decreases k,
{
    if k > 0 {
        lemma_selection_len(gs, all, k - 1, columns);
        let p = selection(gs, all, k - 1);
        assert forall|j: int| 0 <= j < selection(gs, all, k).len() implies (#[trigger] selection(gs, all, k)[j]).len() == columns by {
            if j < p.len() {
                assert(selection(gs, all, k)[j] == p[j]);
            } else {
                assert(selection(gs, all, k)[j] == all[k - 1]);
            }
        }
    }
}

/// A handler created for between 1 and 32767 codes of `columns` entries is well formed.
proof fn lemma_created_ok(h: CandidateHandlerType, gs: Seq<Seq<u8>>, colors: nat, columns: nat)
    requires
        created(h, gs, colors, columns),
        colors > 0 || columns == 0,
        1 <= gs.len() <= 32767,
        forall|k: int| 0 <= k < gs.len() ==> (#[trigger] gs[k]).len() == columns,
    ensures
        handler_ok(h, columns),
{
    if gs.len() <= 2 {
        lemma_fresh_ok(h.candidate_list@[0], gs, gs[0], columns);
    } else {
        let all = all_codes(colors, columns);
        let sel = selection(gs, all, code_count(colors, columns) as int);
        assert forall|k: int| 0 <= k < all.len() implies (#[trigger] all[k]).len() == columns by {
            lemma_nth_code_len(k as nat, colors, columns);
        }
        lemma_selection_len(gs, all, code_count(colors, columns) as int, columns);
        assert forall|i: int| 0 <= i < h.candidate_list@.len() implies result_ok(#[trigger] h.candidate_list@[i], columns) by {
            lemma_fresh_ok(h.candidate_list@[i], gs, sel[i], columns);
        }
    }
}

// ---------------------------------------------------------------------------
// Propagation: growing the tree by one level
// ---------------------------------------------------------------------------

/// A configuration the solver can work with: at most 255 columns, some
/// color unless there are no columns, and all codes fit into a `Vec`.
pub open spec fn cfg_ok(c: ConfigType) -> bool {
    &&& c.columns <= 255
    &&& c.colors > 0 || c.columns == 0
    &&& code_count(c.colors as nat, c.columns as nat) <= usize::MAX
}

/// The grade that solves a game with `columns` columns.
pub open spec fn done_of(columns: nat) -> ResultType {
    ResultType { positions: columns as u8, colors: 0 }
}

/// The entries of `v` whose grade is not `done`, in order.
pub open spec fn unsolved<T>(v: Seq<(ResultType, T)>, done: ResultType) -> Seq<(ResultType, T)>
    decreases v.len(),
{
    if v.len() == 0 {
        v
    } else {
        let p = unsolved(v.drop_last(), done);
        if v.last().0 != done {
            p.push(v.last())
        } else {
            p
        }
    }
}

/// `new` is `old` after propagating: counters stay, and every guess that is
/// not finished propagates its map.
pub open spec fn handler_propagate_post(old: CandidateHandlerType, new: CandidateHandlerType, colors: nat, columns: nat) -> bool
    decreases old,
{
    &&& new.counter_stored == old.counter_stored
    &&& new.candidate_list@.len() == old.candidate_list@.len()
    &&& forall|i: int|
        0 <= i < old.candidate_list@.len() ==> result_propagate_post(
            #[trigger] old.candidate_list@[i],
            new.candidate_list@[i],
            colors,
            columns,
        )
}

/// A finished guess stays as it is; otherwise its map propagates.
pub open spec fn result_propagate_post(old: CandidateResultType, new: CandidateResultType, colors: nat, columns: nat) -> bool
    decreases old,
{
    &&& new.candidate == old.candidate
    &&& new.number_of_candidates == old.number_of_candidates
    &&& new.counter_stored == old.counter_stored
    &&& if old.counter_stored is FINISHED {
        new.result_hashmap == old.result_hashmap
    } else {
        map_propagate_post(old.result_hashmap, new.result_hashmap, colors, columns)
    }
}

/// Grouped codes with more than one grade become one new handler per
/// unsolved grade, created for the codes of that grade; a single group
/// stays. A propagated map propagates each handler that is not finished.
pub open spec fn map_propagate_post(old: CandidateResultHashMap, new: CandidateResultHashMap, colors: nat, columns: nat) -> bool
    decreases old,
{
    match old {
        CandidateResultHashMap::NEW(groups) => if groups@.len() > 1 {
            new matches CandidateResultHashMap::PROPAGATED(w) && {
                let u = unsolved(groups@, done_of(columns));
                &&& w@.len() == u.len()
                &&& forall|i: int|
                    0 <= i < u.len() ==> (#[trigger] w@[i]).0 == u[i].0 && created(
                        w@[i].1,
                        views(u[i].1@),
                        colors,
                        columns,
                    )
            }
        } else {
            new == old
        },
        CandidateResultHashMap::PROPAGATED(v) => new matches CandidateResultHashMap::PROPAGATED(w) && {
            &&& w@.len() == v@.len()
            &&& forall|i: int|
                0 <= i < v@.len() ==> (#[trigger] w@[i]).0 == v@[i].0 && if v@[i].1.counter_stored is FINISHED {
                    w@[i].1 == v@[i].1
                } else {
                    handler_propagate_post(v@[i].1, w@[i].1, colors, columns)
                }
        },
    }
}

proof fn lemma_unsolved_push<T>(v: Seq<(ResultType, T)>, x: (ResultType, T), done: ResultType)
    ensures
        unsolved(v.push(x), done) == if x.0 != done {
            unsolved(v, done).push(x)
        } else {
            unsolved(v, done)
        },
{
    assert(v.push(x).drop_last() =~= v);
}

/// The grades of `unsolved(v, done)` are grades of `v`; no grade repeats
/// if none repeats in `v`.
proof fn lemma_unsolved_keys<T>(v: Seq<(ResultType, T)>, done: ResultType)
    ensures
        forall|i: int|
            0 <= i < unsolved(v, done).len() ==> exists|k: int|
                0 <= k < v.len() && #[trigger] v[k].0 == (#[trigger] unsolved(v, done)[i]).0,
        distinct_keys(v) ==> distinct_keys(unsolved(v, done)),
    decreases v.len(),
{
    if v.len() > 0 {
        let p = v.drop_last();
        lemma_unsolved_keys(p, done);
        let u = unsolved(v, done);
        let up = unsolved(p, done);
        assert forall|i: int| 0 <= i < u.len() implies exists|k: int|
            0 <= k < v.len() && #[trigger] v[k].0 == (#[trigger] u[i]).0 by {
            if i < up.len() {
                assert(u[i] == up[i]);
                let k = choose|k: int| 0 <= k < p.len() && #[trigger] p[k].0 == (#[trigger] up[i]).0;
                assert(v[k] == p[k]);
            } else {
                assert(u[i] == v[v.len() - 1]);
            }
        }
        if distinct_keys(v) {
            assert forall|i: int, j: int| 0 <= i < p.len() && 0 <= j < p.len() && i != j implies #[trigger] p[i].0 != #[trigger] p[j].0 by {
                assert(p[i] == v[i]);
                assert(p[j] == v[j]);
            }
            assert forall|i: int, j: int| 0 <= i < u.len() && 0 <= j < u.len() && i != j implies #[trigger] u[i].0 != #[trigger] u[j].0 by {
                if i < up.len() && j < up.len() {
                    assert(u[i] == up[i]);
                    assert(u[j] == up[j]);
                } else if i < up.len() {
                    assert(u[i] == up[i]);
                    let k = choose|k: int| 0 <= k < p.len() && #[trigger] p[k].0 == (#[trigger] up[i]).0;
                    assert(v[k] == p[k]);
                    assert(u[j] == v[v.len() - 1]);
                } else if j < up.len() {
                    assert(u[j] == up[j]);
                    let k = choose|k: int| 0 <= k < p.len() && #[trigger] p[k].0 == (#[trigger] up[j]).0;
                    assert(v[k] == p[k]);
                    assert(u[i] == v[v.len() - 1]);
                }
            }
        }
    }
}

/// Propagate every guess of the list, in parallel.
#[verifier::external_body]
fn propagate_each(vec: &mut Vec<CandidateResultType>, configuration: &ConfigType)
    requires
        cfg_ok(*configuration),
        forall|i: int| 0 <= i < old(vec)@.len() ==> result_ok(#[trigger] old(vec)@[i], configuration.columns as nat),
    ensures
        final(vec)@.len() == old(vec)@.len(),
        forall|i: int|
            0 <= i < old(vec)@.len() ==> result_propagate_post(
                #[trigger] old(vec)@[i],
                final(vec)@[i],
                configuration.colors as nat,
                configuration.columns as nat,
            ) && result_ok(final(vec)@[i], configuration.columns as nat),
{
    vec.par_iter_mut().for_each(|x| x.propagate_next_level(configuration));
}

impl CandidateHandlerType {
    /// Propagate every guess to the next level (in parallel).
    pub fn propagate_next_level(&mut self, configuration: &ConfigType)
        requires
            cfg_ok(*configuration),
            handler_ok(*old(self), configuration.columns as nat),
        ensures
            handler_propagate_post(*old(self), *final(self), configuration.colors as nat, configuration.columns as nat),
            handler_ok(*final(self), configuration.columns as nat),
    {
        let ghost h0 = *self;
        let ghost old_list = self.candidate_list@;
        propagate_each(&mut self.candidate_list, configuration);
        proof {
            assert(self.counter_stored == h0.counter_stored);
            if self.counter_stored is FINISHED {
                assert forall|i: int| 0 <= i < self.candidate_list@.len() implies (#[trigger] self.candidate_list@[i]).counter_stored is FINISHED by {
                    assert(h0.candidate_list@[i].counter_stored is FINISHED);
                    assert(result_propagate_post(old_list[i], self.candidate_list@[i], configuration.colors as nat, configuration.columns as nat));
                }
            }
            assert forall|i: int| 0 <= i < self.candidate_list@.len() implies result_ok(#[trigger] self.candidate_list@[i], configuration.columns as nat) by {
                assert(result_propagate_post(old_list[i], self.candidate_list@[i], configuration.colors as nat, configuration.columns as nat));
            }
        }
    }
}

impl CandidateResultType {
    /// Propagate to the next level, unless this guess is finished.
    pub fn propagate_next_level(&mut self, configuration: &ConfigType)
        requires
            cfg_ok(*configuration),
            result_ok(*old(self), configuration.columns as nat),
        ensures
            result_propagate_post(*old(self), *final(self), configuration.colors as nat, configuration.columns as nat),
            result_ok(*final(self), configuration.columns as nat),
    {
        let ghost m0 = self.result_hashmap;
        if let StrategyCounter::FINISHED { .. } = self.counter_stored {
        } else {
            proof {
                assert(map_ok(m0, self.number_of_candidates as nat, configuration.columns as nat));
            }
            self.result_hashmap.create_next_candidates(configuration);
            proof {
                assert(map_ok(m0, self.number_of_candidates as nat, configuration.columns as nat));
            }
        }
    }
}

impl CandidateResultHashMap {
    /// Create the next level: grouped codes with more than one grade become
    /// one handler per grade (but the grade that solves the game); a
    /// propagated map propagates every handler that is not finished.
    pub fn create_next_candidates(&mut self, configuration: &ConfigType)
        requires
            cfg_ok(*configuration),
            map_ok(*old(self), 32767, configuration.columns as nat),
        ensures
            map_propagate_post(*old(self), *final(self), configuration.colors as nat, configuration.columns as nat),
            map_distinct(*old(self)) ==> map_distinct(*final(self)),
            forall|n: nat| #[trigger] map_ok(*old(self), n, configuration.columns as nat) ==> map_ok(
                *final(self),
                n,
                configuration.columns as nat,
            ),
    {
        let ghost s0 = *self;
        let ghost colors = configuration.colors as nat;
        let ghost columns = configuration.columns as nat;
        let mut taken = CandidateResultHashMap::NEW(Vec::new());
        std::mem::swap(&mut taken, self);
        match taken {
            CandidateResultHashMap::NEW(mut groups) => {
                if groups.len() > 1 {
                    let done = configuration.done();
                    assert(done == done_of(columns));
                    let ghost orig = groups@;
                    let n = groups.len();
                    let mut new_v: Vec<(ResultType, CandidateHandlerType)> = Vec::new();
                    let mut k: usize = 0;
                    assert(orig.subrange(0, 0) =~= Seq::<(ResultType, Vec<CodeType>)>::empty());
                    while k < n
                        invariant
                            s0 == *old(self),
                            s0 matches CandidateResultHashMap::NEW(g0) && g0@ == orig,
                            cfg_ok(*configuration),
                            colors == configuration.colors,
                            columns == configuration.columns,
                            done == done_of(columns),
                            n == orig.len(),
                            k <= n,
                            groups@ == orig.subrange(k as int, n as int),
                            forall|i: int| 0 <= i < orig.len() ==> {
                                &&& 1 <= (#[trigger] orig[i]).1@.len() <= 32767
                                &&& forall|q: int| 0 <= q < orig[i].1@.len() ==> (#[trigger] orig[i].1@[q])@.len() == columns
                            },
                            new_v@.len() == unsolved(orig.subrange(0, k as int), done).len(),
                            forall|i: int|
                                0 <= i < new_v@.len() ==> (#[trigger] new_v@[i]).0 == unsolved(orig.subrange(0, k as int), done)[i].0
                                    && created(
                                    new_v@[i].1,
                                    views(unsolved(orig.subrange(0, k as int), done)[i].1@),
                                    colors,
                                    columns,
                                ) && handler_ok(new_v@[i].1, columns),
                        decreases n - k,
                    {
                        let ghost pre = orig.subrange(0, k as int);
                        let (key, codes) = groups.remove(0);
                        proof {
                            assert((key, codes) == orig[k as int]);
                            assert(orig.subrange(0, k as int + 1) =~= pre.push((key, codes)));
                            lemma_unsolved_push(pre, (key, codes), done);
                        }
                        if key != done {
                            proof {
                                assert forall|q: int| 0 <= q < codes@.len() implies (#[trigger] codes@[q])@.len() == columns by {
                                    assert(codes@[q] == orig[k as int].1@[q]);
                                }
                                assert(views(codes@).len() == codes@.len());
                            }
                            let h = CandidateHandlerType::create_next_candidates(codes, configuration);
                            proof {
                                assert forall|q: int| 0 <= q < views(codes@).len() implies (#[trigger] views(codes@)[q]).len() == columns by {
                                    assert(views(codes@)[q] == codes@[q]@);
                                }
                                lemma_created_ok(h, views(codes@), colors, columns);
                            }
                            new_v.push((key, h));
                        }
                        assert(groups@ =~= orig.subrange(k as int + 1, n as int));
                        k = k + 1;
                    }
                    assert(orig.subrange(0, n as int) =~= orig);
                    proof {
                        lemma_unsolved_keys(orig, done);
                        let u = unsolved(orig, done);
                        if distinct_keys(orig) {
                            assert forall|i: int, j: int| 0 <= i < new_v@.len() && 0 <= j < new_v@.len() && i != j implies #[trigger] new_v@[i].0
                                != #[trigger] new_v@[j].0 by {
                                assert(new_v@[i].0 == u[i].0);
                                assert(new_v@[j].0 == u[j].0);
                            }
                        }
                    }
                    *self = CandidateResultHashMap::PROPAGATED(new_v);
                } else {
                    *self = CandidateResultHashMap::NEW(groups);
                }
            },
            CandidateResultHashMap::PROPAGATED(mut v) => {
                let ghost orig = v@;
                let n = v.len();
                let mut new_v: Vec<(ResultType, CandidateHandlerType)> = Vec::new();
                let mut k: usize = 0;
                while k < n
                    invariant
                        s0 == *old(self),
                        s0 matches CandidateResultHashMap::PROPAGATED(v0) && v0@ == orig,
                        cfg_ok(*configuration),
                        colors == configuration.colors,
                        columns == configuration.columns,
                        forall|i: int| 0 <= i < orig.len() ==> handler_ok((#[trigger] orig[i]).1, columns),
                        n == orig.len(),
                        k <= n,
                        v@ == orig.subrange(k as int, n as int),
                        new_v@.len() == k,
                        forall|i: int|
                            0 <= i < k ==> (#[trigger] new_v@[i]).0 == orig[i].0 && (if orig[i].1.counter_stored is FINISHED {
                                new_v@[i].1 == orig[i].1
                            } else {
                                handler_propagate_post(orig[i].1, new_v@[i].1, colors, columns)
                            }) && handler_ok(new_v@[i].1, columns),
                    decreases n - k,
                {
                    let (key, mut h) = v.remove(0);
                    assert((key, h) == orig[k as int]);
                    if !h.is_finished() {
                        h.propagate_next_level(configuration);
                    }
                    new_v.push((key, h));
                    assert(v@ =~= orig.subrange(k as int + 1, n as int));
                    k = k + 1;
                }
                proof {
                    if distinct_keys(orig) {
                        assert forall|i: int, j: int| 0 <= i < new_v@.len() && 0 <= j < new_v@.len() && i != j implies #[trigger] new_v@[i].0
                            != #[trigger] new_v@[j].0 by {
                            assert(new_v@[i].0 == orig[i].0);
                            assert(new_v@[j].0 == orig[j].0);
                        }
                    }
                }
                *self = CandidateResultHashMap::PROPAGATED(new_v);
            },
        }
    }
}

// ---------------------------------------------------------------------------
// Counting: the number of guesses of the best strategy found so far
// ---------------------------------------------------------------------------

/// The finishing test of a map with `len` grades for `n` codes: a finished
/// count stays; with as many grades as codes, a single code needs one guess
/// and more codes are partially finished with 2n - 1 guesses.
pub open spec fn check_finished(len: nat, n: nat, other: StrategyCounter) -> StrategyCounter {
    if other is FINISHED {
        other
    } else if len == n {
        if len == 1 {
            StrategyCounter::FINISHED { count: 1 }
        } else {
            StrategyCounter::PARTIALLY_FINISHED { count: (2 * n - 1) as u16 }
        }
    } else {
        other
    }
}

/// Sum of the counts.
pub open spec fn sum_estimates(ks: Seq<StrategyCounter>) -> int
    decreases ks.len(),
{
    if ks.len() == 0 {
        0
    } else {
        sum_estimates(ks.drop_last()) + estimate(ks.last())
    }
}

pub open spec fn all_finished(ks: Seq<StrategyCounter>) -> bool {
    forall|i: int| 0 <= i < ks.len() ==> (#[trigger] ks[i]) is FINISHED
}

/// The smallest count of the (partially) finished counters, if any.
pub open spec fn min_finished(ks: Seq<StrategyCounter>) -> Option<u16>
    decreases ks.len(),
{
    if ks.len() == 0 {
        None
    } else {
        let p = min_finished(ks.drop_last());
        match ks.last() {
            StrategyCounter::PENDING { .. } => p,
            _ => match p {
                None => Some(estimate(ks.last())),
                Some(m) => Some(if estimate(ks.last()) < m { estimate(ks.last()) } else { m }),
            },
        }
    }
}

/// The smallest count, if any.
pub open spec fn min_estimate(ks: Seq<StrategyCounter>) -> Option<u16>
    decreases ks.len(),
{
    if ks.len() == 0 {
        None
    } else {
        let p = min_estimate(ks.drop_last());
        match p {
            None => Some(estimate(ks.last())),
            Some(m) => Some(if estimate(ks.last()) < m { estimate(ks.last()) } else { m }),
        }
    }
}

/// Whether a guess with counter `k` stays, against the best finished count.
pub open spec fn kept(k: StrategyCounter, best: Option<u16>) -> bool {
    match best {
        Some(b) => estimate(k) <= b,
        None => true,
    }
}

/// The counter of a handler whose guesses count `ks`: the best (partially)
/// finished count, when every guess that stays against it is finished;
/// otherwise the best count of any guess, as partially finished; without
/// guesses, the counter stays.
pub open spec fn handler_value(old: StrategyCounter, ks: Seq<StrategyCounter>) -> StrategyCounter {
    match min_finished(ks) {
        Some(best) => if forall|i: int| 0 <= i < ks.len() && #[trigger] estimate(ks[i]) <= best ==> ks[i] is FINISHED {
            StrategyCounter::FINISHED { count: best }
        } else {
            StrategyCounter::PARTIALLY_FINISHED {
                count: match min_estimate(ks) {
                    Some(e) => e,
                    None => best,
                },
            }
        },
        None => match min_estimate(ks) {
            Some(e) => StrategyCounter::PARTIALLY_FINISHED { count: e },
            None => old,
        },
    }
}

/// What counting a handler gives.
pub open spec fn handler_counted(h: CandidateHandlerType) -> StrategyCounter
    decreases h,
{
    handler_value(h.counter_stored, list_counted(h.candidate_list@))
}

/// What counting each guess of a list gives.
pub open spec fn list_counted(s: Seq<CandidateResultType>) -> Seq<StrategyCounter>
    decreases s,
{
    if s.len() == 0 {
        Seq::empty()
    } else {
        list_counted(s.subrange(0, s.len() - 1)).push(result_counted(s[s.len() - 1]))
    }
}

/// What counting a guess gives.
pub open spec fn result_counted(c: CandidateResultType) -> StrategyCounter
    decreases c,
{
    map_counted(c.result_hashmap, c.number_of_candidates as nat)
}

/// What counting a map for `n` codes gives: grouped codes give the best
/// case; a propagated map gives one guess per code plus the counts of its
/// handlers, finished when they all are; either way after the finishing test.
pub open spec fn map_counted(m: CandidateResultHashMap, n: nat) -> StrategyCounter
    decreases m,
{
    match m {
        CandidateResultHashMap::NEW(groups) => check_finished(groups@.len(), n, counter_new(n as usize)),
        CandidateResultHashMap::PROPAGATED(v) => {
            let ks = pairs_counted(v@);
            let total = sum_estimates(ks) + n;
            let other = if all_finished(ks) {
                StrategyCounter::FINISHED { count: total as u16 }
            } else {
                StrategyCounter::PENDING { count: total as u16 }
            };
            check_finished(v@.len(), n, other)
        },
    }
}

/// What counting each handler of a propagated map gives.
pub open spec fn pairs_counted(v: Seq<(ResultType, CandidateHandlerType)>) -> Seq<StrategyCounter>
    decreases v,
{
    if v.len() == 0 {
        Seq::empty()
    } else {
        pairs_counted(v.subrange(0, v.len() - 1)).push(handler_counted(v[v.len() - 1].1))
    }
}

/// Counting a handler cannot overflow: every guess for between 1 and 32767
/// codes, and every sum of counts fits into a `u16`.
pub open spec fn handler_fits(h: CandidateHandlerType) -> bool
    decreases h,
{
    forall|i: int| 0 <= i < h.candidate_list@.len() ==> result_fits(#[trigger] h.candidate_list@[i])
}

pub open spec fn result_fits(c: CandidateResultType) -> bool
    decreases c,
{
    &&& 1 <= c.number_of_candidates <= 32767
    &&& map_fits(c.result_hashmap, c.number_of_candidates as nat)
}

pub open spec fn map_fits(m: CandidateResultHashMap, n: nat) -> bool
    decreases m,
{
    match m {
        CandidateResultHashMap::NEW(_) => true,
        CandidateResultHashMap::PROPAGATED(v) => {
            &&& forall|i: int| 0 <= i < v@.len() ==> handler_fits((#[trigger] v@[i]).1)
            &&& sum_estimates(pairs_counted(v@)) + n <= 65535
        },
    }
}

/// `new` is `old` after counting: its counter is the counted one, and its
/// guesses are the counted guesses that stay against the best finished count.
pub open spec fn handler_count_post(old: CandidateHandlerType, new: CandidateHandlerType) -> bool
    decreases old,
{
    &&& new.counter_stored == handler_counted(old)
    &&& list_count_post(
        old.candidate_list@,
        new.candidate_list@,
        min_finished(list_counted(old.candidate_list@)),
    )
}

/// `w` holds, in order, the guesses of `v` after counting that stay against `best`.
pub open spec fn list_count_post(v: Seq<CandidateResultType>, w: Seq<CandidateResultType>, best: Option<u16>) -> bool
    decreases v,
{
    if v.len() == 0 {
        w.len() == 0
    } else if kept(result_counted(v[v.len() - 1]), best) {
        &&& w.len() > 0
        &&& result_count_post(v[v.len() - 1], w[w.len() - 1])
        &&& list_count_post(v.subrange(0, v.len() - 1), w.subrange(0, w.len() - 1), best)
    } else {
        list_count_post(v.subrange(0, v.len() - 1), w, best)
    }
}

pub open spec fn result_count_post(old: CandidateResultType, new: CandidateResultType) -> bool
    decreases old,
{
    &&& new.candidate == old.candidate
    &&& new.number_of_candidates == old.number_of_candidates
    &&& new.counter_stored == result_counted(old)
    &&& map_count_post(old.result_hashmap, new.result_hashmap)
}

pub open spec fn map_count_post(old: CandidateResultHashMap, new: CandidateResultHashMap) -> bool
    decreases old,
{
    match old {
        CandidateResultHashMap::NEW(_) => new == old,
        CandidateResultHashMap::PROPAGATED(v) => new matches CandidateResultHashMap::PROPAGATED(w) && {
            &&& w@.len() == v@.len()
            &&& forall|i: int|
                0 <= i < v@.len() ==> (#[trigger] w@[i]).0 == v@[i].0 && handler_count_post(v@[i].1, w@[i].1)
        },
    }
}

proof fn lemma_list_counted(s: Seq<CandidateResultType>)
    ensures
        list_counted(s).len() == s.len(),
        forall|i: int| 0 <= i < s.len() ==> (#[trigger] list_counted(s)[i]) == result_counted(s[i]),
    decreases s.len(),
{
    if s.len() > 0 {
        lemma_list_counted(s.subrange(0, s.len() - 1));
    }
}

proof fn lemma_pairs_counted(v: Seq<(ResultType, CandidateHandlerType)>)
    ensures
        pairs_counted(v).len() == v.len(),
        forall|i: int| 0 <= i < v.len() ==> (#[trigger] pairs_counted(v)[i]) == handler_counted(v[i].1),
    decreases v.len(),
{
    if v.len() > 0 {
        lemma_pairs_counted(v.subrange(0, v.len() - 1));
    }
}

/// The best finished count is the count of one of the counters.
proof fn lemma_min_finished_witness(ks: Seq<StrategyCounter>)
    ensures
        min_finished(ks) matches Some(b) ==> exists|i: int|
            0 <= i < ks.len() && estimate(#[trigger] ks[i]) == b,
    decreases ks.len(),
{
    if ks.len() > 0 {
        let p = ks.drop_last();
        lemma_min_finished_witness(p);
        if let Some(m) = min_finished(p) {
            let i = choose|i: int| 0 <= i < p.len() && estimate(#[trigger] p[i]) == m;
            assert(ks[i] == p[i]);
        }
        assert(ks[ks.len() - 1] == ks.last());
    }
}

proof fn lemma_sum_prefix(ks: Seq<StrategyCounter>, k: int)
    requires
        0 <= k <= ks.len(),
    ensures
        sum_estimates(ks.subrange(0, k)) <= sum_estimates(ks),
        0 <= sum_estimates(ks.subrange(0, k)),
    decreases ks.len() - k,
{
    if k < ks.len() {
        lemma_sum_prefix(ks, k + 1);
        assert(ks.subrange(0, k + 1).drop_last() =~= ks.subrange(0, k));
        lemma_sum_nonneg(ks.subrange(0, k));
    } else {
        assert(ks.subrange(0, k) =~= ks);
        lemma_sum_nonneg(ks);
    }
}

proof fn lemma_sum_nonneg(ks: Seq<StrategyCounter>)
    ensures
        0 <= sum_estimates(ks),
    decreases ks.len(),
{
    if ks.len() > 0 {
        lemma_sum_nonneg(ks.drop_last());
    }
}

/// Every guess of the list is well formed.
pub open spec fn all_ok(s: Seq<CandidateResultType>, columns: nat) -> bool {
    forall|i: int| 0 <= i < s.len() ==> #[trigger] result_ok(s[i], columns)
}

/// The finishing test of a map with `len` grades for `n` codes (see `check_finished`).
fn check_finished_exec(len: usize, n: usize, other: StrategyCounter) -> (r: StrategyCounter)
    requires
        1 <= n <= 32767,
    ensures
        r == check_finished(len as nat, n as nat, other),
{
    if other.is_finished() {
        return other;
    }
    if len == n {
        if len == 1 {
            return StrategyCounter::FINISHED { count: 1 };
        }
        return StrategyCounter::PARTIALLY_FINISHED { count: 2 * n as u16 - 1 };
    }
    other
}

impl CandidateResultHashMap {
    /// Count the guesses for `number_of_candidates` codes: grouped codes give
    /// their best case; a propagated map counts each handler and adds one
    /// guess per code, finished when all handlers are. A map with as many
    /// grades as codes is finished (one code) or partially finished.
    pub fn count(&mut self, number_of_candidates: usize) -> (r: StrategyCounter)
        requires
            1 <= number_of_candidates <= 32767,
            map_fits(*old(self), number_of_candidates as nat),
        ensures
            r == map_counted(*old(self), number_of_candidates as nat),
            map_count_post(*old(self), *final(self)),
            forall|n: nat, columns: nat| #[trigger] map_ok(*old(self), n, columns) ==> map_ok(*final(self), n, columns),
        decreases *old(self),
    {
        let n = number_of_candidates;
        let ghost s0 = *self;
        let mut taken = CandidateResultHashMap::NEW(Vec::new());
        std::mem::swap(&mut taken, self);
        match taken {
            CandidateResultHashMap::NEW(groups) => {
                let len = groups.len();
                *self = CandidateResultHashMap::NEW(groups);
                assert(*self == s0);
                check_finished_exec(len, n, StrategyCounter::new(n))
            },
            CandidateResultHashMap::PROPAGATED(mut v) => {
                let ghost v0 = v;
                let ghost orig = v@;
                let len = v.len();
                let mut new_v: Vec<(ResultType, CandidateHandlerType)> = Vec::new();
                let mut sum: u16 = 0;
                let mut all_fin = true;
                let mut k: usize = 0;
                proof {
                    lemma_pairs_counted(orig);
                    assert(orig.subrange(0, 0) =~= Seq::<(ResultType, CandidateHandlerType)>::empty());
                }
                while k < len
                    invariant
                        s0 == *old(self),
                        s0 == CandidateResultHashMap::PROPAGATED(v0),
                        v0@ == orig,
                        map_fits(s0, n as nat),
                        1 <= n <= 32767,
                        len == orig.len(),
                        k <= len,
                        pairs_counted(orig).len() == orig.len(),
                        forall|i: int| 0 <= i < orig.len() ==> (#[trigger] pairs_counted(orig)[i]) == handler_counted(orig[i].1),
                        v@ == orig.subrange(k as int, len as int),
                        new_v@.len() == k,
                        forall|i: int|
                            0 <= i < k ==> (#[trigger] new_v@[i]).0 == orig[i].0 && handler_count_post(orig[i].1, new_v@[i].1),
                        forall|i: int, columns: nat|
                            0 <= i < k && #[trigger] handler_ok(orig[i].1, columns) ==> handler_ok(new_v@[i].1, columns),
                        sum == sum_estimates(pairs_counted(orig.subrange(0, k as int))),
                        all_fin == all_finished(pairs_counted(orig.subrange(0, k as int))),
                    decreases len - k,
                {
                    let ghost pre = orig.subrange(0, k as int);
                    let ghost pre1 = orig.subrange(0, k as int + 1);
                    let (key, mut h) = v.remove(0);
                    proof {
                        assert((key, h) == orig[k as int]);
                        vstd::std_specs::vec::axiom_vec_index_decreases(v0, k as int);
                        assert(s0->PROPAGATED_0 == v0);
                        assert(decreases_to!(s0 => s0->PROPAGATED_0));
                        assert(decreases_to!(s0 => v0[k as int]));
                        assert(decreases_to!(v0[k as int] => v0[k as int].1));
                        assert(decreases_to!(s0 => h));
                        assert(handler_fits(orig[k as int].1));
                        assert(pre1.subrange(0, k as int) =~= pre);
                        assert(pairs_counted(pre1) == pairs_counted(pre).push(handler_counted(h)));
                        assert(pairs_counted(pre).push(handler_counted(h)).drop_last() =~= pairs_counted(pre));
                        lemma_pairs_counted(pre1);
                        assert(pairs_counted(orig).subrange(0, k as int + 1) =~= pairs_counted(pre1));
                        lemma_sum_prefix(pairs_counted(orig), k as int + 1);
                    }
                    let e = h.count().get_count_estimate();
                    let fin = h.is_finished();
                    sum = sum + e;
                    all_fin = all_fin && fin;
                    new_v.push((key, h));
                    proof {
                        assert(v@ =~= orig.subrange(k as int + 1, len as int));
                        let ks = pairs_counted(pre);
                        assert(all_finished(ks.push(handler_counted(orig[k as int].1))) == (all_finished(ks)
                            && handler_counted(orig[k as int].1) is FINISHED)) by {
                            if all_finished(ks) && handler_counted(orig[k as int].1) is FINISHED {
                                assert forall|i: int| 0 <= i < ks.len() + 1 implies (#[trigger] ks.push(
                                    handler_counted(orig[k as int].1),
                                )[i]) is FINISHED by {
                                    if i < ks.len() {
                                        assert(ks.push(handler_counted(orig[k as int].1))[i] == ks[i]);
                                    }
                                }
                            }
                            if all_finished(ks.push(handler_counted(orig[k as int].1))) {
                                assert(ks.push(handler_counted(orig[k as int].1))[ks.len() as int] is FINISHED);
                                assert forall|i: int| 0 <= i < ks.len() implies (#[trigger] ks[i]) is FINISHED by {
                                    assert(ks.push(handler_counted(orig[k as int].1))[i] == ks[i]);
                                }
                            }
                        }
                    }
                    k = k + 1;
                }
                proof {
                    assert(orig.subrange(0, len as int) =~= orig);
                    lemma_sum_nonneg(pairs_counted(orig));
                }
                proof {
                    assert forall|nn: nat, columns: nat| #[trigger] map_ok(s0, nn, columns) implies map_ok(
                        CandidateResultHashMap::PROPAGATED(new_v),
                        nn,
                        columns,
                    ) by {
                        assert forall|i: int| 0 <= i < new_v@.len() implies handler_ok((#[trigger] new_v@[i]).1, columns) by {
                            assert(handler_ok(orig[i].1, columns));
                        }
                    }
                }
                let total = sum + n as u16;
                let other = if all_fin {
                    StrategyCounter::FINISHED { count: total }
                } else {
                    StrategyCounter::PENDING { count: total }
                };
                *self = CandidateResultHashMap::PROPAGATED(new_v);
                check_finished_exec(len, n, other)
            },
        }
    }
}

impl CandidateResultType {
    /// Count the guesses of this guess and store the count.
    pub fn count(&mut self) -> (r: &StrategyCounter)
        requires
            result_fits(*old(self)),
        ensures
            result_count_post(*old(self), *final(self)),
            *r == final(self).counter_stored,
            forall|columns: nat| #[trigger] result_ok(*old(self), columns) ==> result_ok(*final(self), columns),
        decreases *old(self),
    {
        let ghost s0 = *self;
        proof {
            assert(decreases_to!(s0 => s0.result_hashmap));
        }
        self.counter_stored = self.result_hashmap.count(self.number_of_candidates);
        proof {
            assert forall|columns: nat| #[trigger] result_ok(s0, columns) implies result_ok(*self, columns) by {
                assert(map_ok(s0.result_hashmap, s0.number_of_candidates as nat, columns));
                if self.counter_stored is FINISHED {
                    if let CandidateResultHashMap::PROPAGATED(v) = s0.result_hashmap {
                        lemma_pairs_counted(v@);
                        if let CandidateResultHashMap::PROPAGATED(w) = self.result_hashmap {
                            assert forall|i: int| 0 <= i < w@.len() implies (#[trigger] w@[i]).1.counter_stored is FINISHED by {
                                assert(handler_count_post(v@[i].1, w@[i].1));
                                assert(pairs_counted(v@)[i] is FINISHED);
                            }
                        }
                    }
                }
            }
        }
        &self.counter_stored
    }
}

impl CandidateHandlerType {
    /// Count every guess (top-down), keep only the guesses that are not worse
    /// than the best (partially) finished one, and store the handler's count:
    /// that best count when all remaining guesses are finished; otherwise the
    /// best count of any guess, as partially finished; without guesses,
    /// unchanged.
    pub fn count(&mut self) -> (r: &StrategyCounter)
        requires
            handler_fits(*old(self)),
        ensures
            handler_count_post(*old(self), *final(self)),
            *r == final(self).counter_stored,
            forall|columns: nat| #[trigger] handler_ok(*old(self), columns) ==> handler_ok(*final(self), columns),
        decreases *old(self),
    {
        let ghost s0 = *self;
        let mut vec: Vec<CandidateResultType> = Vec::new();
        std::mem::swap(&mut vec, &mut self.candidate_list);
        let ghost vec0 = vec;
        let ghost orig = vec@;
        let n = vec.len();
        let mut counted: Vec<CandidateResultType> = Vec::new();
        let mut best: Option<u16> = None;
        let mut best_est: Option<u16> = None;
        let mut k: usize = 0;
        assert(orig.subrange(0, 0) =~= Seq::<CandidateResultType>::empty());
        while k < n
            invariant
                s0 == *old(self),
                s0.candidate_list == vec0,
                vec0@ == orig,
                handler_fits(s0),
                n == orig.len(),
                k <= n,
                vec@ == orig.subrange(k as int, n as int),
                counted@.len() == k,
                forall|i: int| 0 <= i < k ==> result_count_post(#[trigger] orig[i], counted@[i]),
                forall|i: int, columns: nat|
                    0 <= i < k && #[trigger] result_ok(orig[i], columns) ==> result_ok(counted@[i], columns),
                best == min_finished(list_counted(orig.subrange(0, k as int))),
                best_est == min_estimate(list_counted(orig.subrange(0, k as int))),
            decreases n - k,
        {
            let ghost pre = orig.subrange(0, k as int);
            let ghost pre1 = orig.subrange(0, k as int + 1);
            let mut x = vec.remove(0);
            proof {
                assert(x == orig[k as int]);
                assert(pre1.subrange(0, k as int) =~= pre);
                vstd::std_specs::vec::axiom_vec_index_decreases(vec0, k as int);
                assert(decreases_to!(s0 => s0.candidate_list));
                assert(decreases_to!(s0 => x));
                assert(result_fits(orig[k as int]));
                assert(list_counted(pre1) == list_counted(pre).push(result_counted(x)));
                assert(list_counted(pre).push(result_counted(x)).drop_last() =~= list_counted(pre));
            }
            let c = *x.count();
            let e = c.get_count_estimate();
            best = match c.get_count_finished() {
                None => best,
                Some(f) => match best {
                    None => Some(f),
                    Some(m) => Some(if f < m { f } else { m }),
                },
            };
            best_est = match best_est {
                None => Some(e),
                Some(m) => Some(if e < m { e } else { m }),
            };
            counted.push(x);
            assert(vec@ =~= orig.subrange(k as int + 1, n as int));
            k = k + 1;
        }
        proof {
            assert(orig.subrange(0, n as int) =~= orig);
            lemma_list_counted(orig);
        }
        let ghost ks = list_counted(orig);
        let ghost counted0 = counted@;
        let mut kept_list: Vec<CandidateResultType> = Vec::new();
        let mut all_fin = true;
        let mut j: usize = 0;
        while j < n
            invariant
                s0 == *old(self),
                s0.candidate_list@ == orig,
                n == orig.len(),
                j <= n,
                ks == list_counted(orig),
                ks.len() == n,
                forall|i: int| 0 <= i < n ==> (#[trigger] ks[i]) == result_counted(orig[i]),
                counted0.len() == n,
                forall|i: int| 0 <= i < n ==> result_count_post(#[trigger] orig[i], counted0[i]),
                forall|i: int, columns: nat|
                    0 <= i < n && #[trigger] result_ok(orig[i], columns) ==> result_ok(counted0[i], columns),
                best == min_finished(ks),
                best_est == min_estimate(ks),
                counted@ == counted0.subrange(j as int, n as int),
                list_count_post(orig.subrange(0, j as int), kept_list@, best),
                all_fin == forall|i: int| 0 <= i < j && kept(#[trigger] ks[i], best) ==> ks[i] is FINISHED,
                all_fin ==> forall|m: int| 0 <= m < kept_list@.len() ==> (#[trigger] kept_list@[m]).counter_stored is FINISHED,
                (exists|i: int| 0 <= i < j && kept(#[trigger] ks[i], best)) ==> kept_list@.len() > 0,
                forall|columns: nat| #[trigger] all_ok(orig, columns) ==> all_ok(kept_list@, columns),
            decreases n - j,
        {
            let ghost pre = orig.subrange(0, j as int);
            let ghost pre1 = orig.subrange(0, j as int + 1);
            let ghost old_kept = kept_list@;
            let x = counted.remove(0);
            proof {
                assert(x == counted0[j as int]);
                assert(pre1.subrange(0, j as int) =~= pre);
                assert(pre1[j as int] == orig[j as int]);
                assert(x.counter_stored == ks[j as int]);
            }
            let keep = match best {
                Some(b) => x.counter_stored.keep(b),
                None => true,
            };
            if keep {
                all_fin = all_fin && x.counter_stored.is_finished();
                kept_list.push(x);
                proof {
                    assert(kept_list@.subrange(0, kept_list@.len() - 1) =~= old_kept);
                    assert forall|columns: nat| #[trigger] all_ok(orig, columns) implies all_ok(kept_list@, columns) by {
                        assert(result_ok(orig[j as int], columns));
                        assert(all_ok(old_kept, columns));
                        assert forall|m: int| 0 <= m < kept_list@.len() implies #[trigger] result_ok(kept_list@[m], columns) by {
                            if m < old_kept.len() {
                                assert(kept_list@[m] == old_kept[m]);
                            }
                        }
                    }
                }
            }
            proof {
                assert(counted@ =~= counted0.subrange(j as int + 1, n as int));
            }
            j = j + 1;
        }
        proof {
            assert(orig.subrange(0, n as int) =~= orig);
            lemma_min_finished_witness(ks);
            if let Some(b) = best {
                let i = choose|i: int| 0 <= i < ks.len() && estimate(#[trigger] ks[i]) == b;
                assert(kept(ks[i], best));
            }
        }
        self.candidate_list = kept_list;
        match best {
            Some(b) => {
                if all_fin {
                    self.counter_stored = StrategyCounter::FINISHED { count: b };
                } else {
                    let e = match best_est {
                        Some(e) => e,
                        None => b,
                    };
                    self.counter_stored = StrategyCounter::PARTIALLY_FINISHED { count: e };
                }
            },
            None => {
                if let Some(e) = best_est {
                    self.counter_stored = StrategyCounter::PARTIALLY_FINISHED { count: e };
                }
            },
        }
        proof {
            assert forall|columns: nat| #[trigger] handler_ok(s0, columns) implies handler_ok(*self, columns) by {
                assert(all_ok(orig, columns));
                assert(all_ok(self.candidate_list@, columns));
                if best is None && best_est is None {
                    assert(ks.len() == 0);
                    assert(n == 0);
                    assert(self.candidate_list@.len() == 0);
                }
                let h = *self;
                assert(h.counter_stored is FINISHED ==> forall|m: int| 0 <= m < h.candidate_list@.len() ==> (#[trigger] h.candidate_list@[m]).counter_stored is FINISHED);
                assert(forall|m: int| 0 <= m < h.candidate_list@.len() ==> result_ok(#[trigger] h.candidate_list@[m], columns));
                assert(handler_ok(h, columns));
            }
        }
        &self.counter_stored
    }
}

// ---------------------------------------------------------------------------
// Testing ahead whether counting can overflow
// ---------------------------------------------------------------------------

impl CandidateResultHashMap {
    /// The count of this map for `number_of_candidates` codes, if counting
    /// cannot overflow.
    fn checked_count(&self, number_of_candidates: usize) -> (r: Option<StrategyCounter>)
        requires
            1 <= number_of_candidates <= 32767,
        ensures
            r == if map_fits(*self, number_of_candidates as nat) {
                Some(map_counted(*self, number_of_candidates as nat))
            } else {
                None::<StrategyCounter>
            },
        decreases *self,
    {
        let n = number_of_candidates;
        match self {
            CandidateResultHashMap::NEW(groups) => Some(check_finished_exec(groups.len(), n, StrategyCounter::new(n))),
            CandidateResultHashMap::PROPAGATED(v) => {
                let ghost orig = v@;
                let len = v.len();
                let mut sum: u32 = 0;
                let mut all_fin = true;
                let mut k: usize = 0;
                proof {
                    lemma_pairs_counted(orig);
                    assert(orig.subrange(0, 0) =~= Seq::<(ResultType, CandidateHandlerType)>::empty());
                }
                while k < len
                    invariant
                        *self == CandidateResultHashMap::PROPAGATED(*v),
                        v@ == orig,
                        n == number_of_candidates,
                        1 <= n <= 32767,
                        len == orig.len(),
                        k <= len,
                        forall|i: int| 0 <= i < k ==> handler_fits((#[trigger] orig[i]).1),
                        pairs_counted(orig).len() == orig.len(),
                        forall|i: int| 0 <= i < orig.len() ==> (#[trigger] pairs_counted(orig)[i]) == handler_counted(orig[i].1),
                        sum == sum_estimates(pairs_counted(orig.subrange(0, k as int))),
                        sum + n <= 65535,
                        all_fin == all_finished(pairs_counted(orig.subrange(0, k as int))),
                    decreases len - k,
                {
                    let ghost pre = orig.subrange(0, k as int);
                    let ghost pre1 = orig.subrange(0, k as int + 1);
                    proof {
                        vstd::std_specs::vec::axiom_vec_index_decreases(*v, k as int);
                        assert(decreases_to!(*self => *v));
                        assert(decreases_to!(v[k as int] => v[k as int].1));
                        assert(pre1.subrange(0, k as int) =~= pre);
                        assert(pairs_counted(pre1) == pairs_counted(pre).push(handler_counted(orig[k as int].1)));
                        assert(pairs_counted(pre).push(handler_counted(orig[k as int].1)).drop_last() =~= pairs_counted(pre));
                        lemma_pairs_counted(pre1);
                        assert(pairs_counted(orig).subrange(0, k as int + 1) =~= pairs_counted(pre1));
                        lemma_sum_prefix(pairs_counted(orig), k as int + 1);
                    }
                    let c = match v[k].1.checked_count() {
                        Some(c) => c,
                        None => {
                            proof {
                                assert(!handler_fits(orig[k as int].1));
                                assert(!map_fits(*self, n as nat));
                            }
                            return None;
                        },
                    };
                    sum = sum + c.get_count_estimate() as u32;
                    proof {
                        assert(sum_estimates(pairs_counted(pre1)) == sum_estimates(pairs_counted(pre)) + estimate(c));
                    }
                    if sum + n as u32 > 65535 {
                        proof {
                            lemma_sum_prefix(pairs_counted(orig), k as int + 1);
                            assert(!map_fits(*self, n as nat));
                        }
                        return None;
                    }
                    proof {
                        let ks = pairs_counted(pre);
                        let x = handler_counted(orig[k as int].1);
                        assert(all_finished(ks.push(x)) == (all_finished(ks) && x is FINISHED)) by {
                            if all_finished(ks) && x is FINISHED {
                                assert forall|i: int| 0 <= i < ks.len() + 1 implies (#[trigger] ks.push(x)[i]) is FINISHED by {
                                    if i < ks.len() {
                                        assert(ks.push(x)[i] == ks[i]);
                                    }
                                }
                            }
                            if all_finished(ks.push(x)) {
                                assert(ks.push(x)[ks.len() as int] is FINISHED);
                                assert forall|i: int| 0 <= i < ks.len() implies (#[trigger] ks[i]) is FINISHED by {
                                    assert(ks.push(x)[i] == ks[i]);
                                }
                            }
                        }
                    }
                    all_fin = all_fin && c.is_finished();
                    k = k + 1;
                }
                proof {
                    assert(orig.subrange(0, len as int) =~= orig);
                }
                let total = sum as u16 + n as u16;
                let other = if all_fin {
                    StrategyCounter::FINISHED { count: total }
                } else {
                    StrategyCounter::PENDING { count: total }
                };
                Some(check_finished_exec(len, n, other))
            },
        }
    }
}

impl CandidateResultType {
    /// The count of this guess, if counting cannot overflow.
    fn checked_count(&self) -> (r: Option<StrategyCounter>)
        ensures
            r == if result_fits(*self) {
                Some(result_counted(*self))
            } else {
                None::<StrategyCounter>
            },
        decreases *self,
    {
        if self.number_of_candidates < 1 || self.number_of_candidates > 32767 {
            return None;
        }
        proof {
            assert(decreases_to!(*self => self.result_hashmap));
        }
        self.result_hashmap.checked_count(self.number_of_candidates)
    }
}

impl CandidateHandlerType {
    /// The count of this handler, if counting cannot overflow.
    fn checked_count(&self) -> (r: Option<StrategyCounter>)
        ensures
            r == if handler_fits(*self) {
                Some(handler_counted(*self))
            } else {
                None::<StrategyCounter>
            },
        decreases *self,
    {
        let ghost orig = self.candidate_list@;
        let n = self.candidate_list.len();
        let mut vals: Vec<StrategyCounter> = Vec::new();
        let mut best: Option<u16> = None;
        let mut best_est: Option<u16> = None;
        let mut k: usize = 0;
        assert(orig.subrange(0, 0) =~= Seq::<CandidateResultType>::empty());
        while k < n
            invariant
                orig == self.candidate_list@,
                n == orig.len(),
                k <= n,
                forall|i: int| 0 <= i < k ==> result_fits(#[trigger] orig[i]),
                vals@ == list_counted(orig.subrange(0, k as int)),
                best == min_finished(vals@),
                best_est == min_estimate(vals@),
            decreases n - k,
        {
            let ghost pre = orig.subrange(0, k as int);
            let ghost pre1 = orig.subrange(0, k as int + 1);
            proof {
                vstd::std_specs::vec::axiom_vec_index_decreases(self.candidate_list, k as int);
                assert(decreases_to!(*self => self.candidate_list));
                assert(pre1.subrange(0, k as int) =~= pre);
                assert(list_counted(pre1) == list_counted(pre).push(result_counted(orig[k as int])));
            }
            let c = match self.candidate_list[k].checked_count() {
                Some(c) => c,
                None => {
                    return None;
                },
            };
            proof {
                assert(vals@.push(c).drop_last() =~= vals@);
            }
            best = match c.get_count_finished() {
                None => best,
                Some(f) => match best {
                    None => Some(f),
                    Some(m) => Some(if f < m { f } else { m }),
                },
            };
            let e = c.get_count_estimate();
            best_est = match best_est {
                None => Some(e),
                Some(m) => Some(if e < m { e } else { m }),
            };
            vals.push(c);
            k = k + 1;
        }
        proof {
            assert(orig.subrange(0, n as int) =~= orig);
        }
        let ghost ks = vals@;
        match best {
            Some(b) => {
                let mut all_fin = true;
                let mut j: usize = 0;
                while j < vals.len()
                    invariant
                        ks == vals@,
                        j <= ks.len(),
                        all_fin == forall|i: int| 0 <= i < j && #[trigger] estimate(ks[i]) <= b ==> ks[i] is FINISHED,
                    decreases ks.len() - j,
                {
                    if vals[j].get_count_estimate() <= b {
                        all_fin = all_fin && vals[j].is_finished();
                    }
                    j = j + 1;
                }
                if all_fin {
                    Some(StrategyCounter::FINISHED { count: b })
                } else {
                    let e = match best_est {
                        Some(e) => e,
                        None => b,
                    };
                    Some(StrategyCounter::PARTIALLY_FINISHED { count: e })
                }
            },
            None => match best_est {
                Some(e) => Some(StrategyCounter::PARTIALLY_FINISHED { count: e }),
                None => Some(self.counter_stored),
            },
        }
    }

    /// Whether counting this handler cannot overflow (so `count` may be called).
    pub fn can_count(&self) -> (r: bool)
        ensures
            r == handler_fits(*self),
    {
        self.checked_count().is_some()
    }
}

// ---------------------------------------------------------------------------
// Pruning: keep one guess per handler
// ---------------------------------------------------------------------------

/// `new` is `old` after pruning: only its first guess stays, pruned.
pub open spec fn handler_prune_post(old: CandidateHandlerType, new: CandidateHandlerType) -> bool
    decreases old,
{
    &&& new.counter_stored == old.counter_stored
    &&& new.candidate_list@.len() == if old.candidate_list@.len() > 0 { 1int } else { 0int }
    &&& old.candidate_list@.len() > 0 ==> result_prune_post(old.candidate_list@[0], new.candidate_list@[0])
}

pub open spec fn result_prune_post(old: CandidateResultType, new: CandidateResultType) -> bool
    decreases old,
{
    &&& new.candidate == old.candidate
    &&& new.number_of_candidates == old.number_of_candidates
    &&& new.counter_stored == old.counter_stored
    &&& map_prune_post(old.result_hashmap, new.result_hashmap)
}

pub open spec fn map_prune_post(old: CandidateResultHashMap, new: CandidateResultHashMap) -> bool
    decreases old,
{
    match old {
        CandidateResultHashMap::NEW(_) => new == old,
        CandidateResultHashMap::PROPAGATED(v) => new matches CandidateResultHashMap::PROPAGATED(w) && {
            &&& w@.len() == v@.len()
            &&& forall|i: int|
                0 <= i < v@.len() ==> (#[trigger] w@[i]).0 == v@[i].0 && handler_prune_post(v@[i].1, w@[i].1)
        },
    }
}

/// Every handler of the tree holds at most one guess.
pub open spec fn handler_pruned(h: CandidateHandlerType) -> bool
    decreases h,
{
    &&& h.candidate_list@.len() <= 1
    &&& forall|i: int| 0 <= i < h.candidate_list@.len() ==> result_pruned(#[trigger] h.candidate_list@[i])
}

pub open spec fn result_pruned(c: CandidateResultType) -> bool
    decreases c,
{
    match c.result_hashmap {
        CandidateResultHashMap::NEW(_) => true,
        CandidateResultHashMap::PROPAGATED(v) => forall|i: int| 0 <= i < v@.len() ==> handler_pruned((#[trigger] v@[i]).1),
    }
}

impl CandidateHandlerType {
    /// Keep only the first guess of this finished handler (all remaining
    /// guesses are equally good), and prune it.
    pub fn prune(&mut self)
        requires
            old(self).counter_stored is FINISHED,
            exists|columns: nat| handler_ok(*old(self), columns),
        ensures
            handler_prune_post(*old(self), *final(self)),
            handler_pruned(*final(self)),
            forall|columns: nat| #[trigger] handler_ok(*old(self), columns) ==> handler_ok(*final(self), columns),
        decreases *old(self),
    {
        let ghost s0 = *self;
        let ghost columns0 = choose|columns: nat| handler_ok(*old(self), columns);
        self.candidate_list.truncate(1);
        if self.candidate_list.len() > 0 {
            let mut x = self.candidate_list.remove(0);
            proof {
                assert(x == s0.candidate_list@[0]);
                vstd::std_specs::vec::axiom_vec_index_decreases(s0.candidate_list, 0);
                assert(decreases_to!(s0 => s0.candidate_list));
                assert(decreases_to!(s0 => x));
                assert(result_ok(x, columns0));
            }
            x.prune();
            self.candidate_list.push(x);
            proof {
                assert forall|columns: nat| #[trigger] handler_ok(s0, columns) implies handler_ok(*self, columns) by {
                    assert(result_ok(s0.candidate_list@[0], columns));
                    assert(self.candidate_list@[0] == x);
                }
            }
        }
    }
}

impl CandidateResultType {
    /// Prune the handlers below this guess (all of them are finished).
    pub fn prune(&mut self)
        requires
            old(self).result_hashmap matches CandidateResultHashMap::PROPAGATED(v) ==> forall|i: int|
                0 <= i < v@.len() ==> (#[trigger] v@[i]).1.counter_stored is FINISHED,
            exists|columns: nat| result_ok(*old(self), columns),
        ensures
            result_prune_post(*old(self), *final(self)),
            result_pruned(*final(self)),
            forall|columns: nat| #[trigger] result_ok(*old(self), columns) ==> result_ok(*final(self), columns),
        decreases *old(self),
    {
        let ghost s0 = *self;
        let ghost columns0 = choose|columns: nat| result_ok(*old(self), columns);
        proof {
            assert(decreases_to!(s0 => s0.result_hashmap));
            assert(map_ok(s0.result_hashmap, s0.number_of_candidates as nat, columns0));
        }
        self.result_hashmap.prune();
        proof {
            assert forall|columns: nat| #[trigger] result_ok(s0, columns) implies result_ok(*self, columns) by {
                assert(map_ok(s0.result_hashmap, s0.number_of_candidates as nat, columns));
                if let CandidateResultHashMap::PROPAGATED(w) = self.result_hashmap {
                    if let CandidateResultHashMap::PROPAGATED(v) = s0.result_hashmap {
                        assert forall|i: int| 0 <= i < w@.len() implies (#[trigger] w@[i]).1.counter_stored is FINISHED by {
                            assert(handler_prune_post(v@[i].1, w@[i].1));
                        }
                    }
                }
            }
        }
    }
}

impl CandidateResultHashMap {
    /// Prune every handler of a propagated map (all of them are finished).
    pub fn prune(&mut self)
        requires
            *old(self) matches CandidateResultHashMap::PROPAGATED(v) ==> forall|i: int|
                0 <= i < v@.len() ==> (#[trigger] v@[i]).1.counter_stored is FINISHED,
            exists|n: nat, columns: nat| map_ok(*old(self), n, columns),
        ensures
            map_prune_post(*old(self), *final(self)),
            *final(self) matches CandidateResultHashMap::PROPAGATED(w) ==> forall|i: int|
                0 <= i < w@.len() ==> handler_pruned((#[trigger] w@[i]).1),
            map_distinct(*old(self)) ==> map_distinct(*final(self)),
            forall|n: nat, columns: nat| #[trigger] map_ok(*old(self), n, columns) ==> map_ok(*final(self), n, columns),
        decreases *old(self),
    {
        let ghost s0 = *self;
        let ghost (n0, columns0) = choose|n: nat, columns: nat| map_ok(*old(self), n, columns);
        let mut taken = CandidateResultHashMap::NEW(Vec::new());
        std::mem::swap(&mut taken, self);
        match taken {
            CandidateResultHashMap::NEW(groups) => {
                *self = CandidateResultHashMap::NEW(groups);
                assert(*self == s0);
            },
            CandidateResultHashMap::PROPAGATED(mut v) => {
                let ghost v0 = v;
                let ghost orig = v@;
                let len = v.len();
                let mut new_v: Vec<(ResultType, CandidateHandlerType)> = Vec::new();
                let mut k: usize = 0;
                while k < len
                    invariant
                        s0 == *old(self),
                        s0 == CandidateResultHashMap::PROPAGATED(v0),
                        v0@ == orig,
                        map_ok(s0, n0, columns0),
                        forall|i: int| 0 <= i < orig.len() ==> (#[trigger] orig[i]).1.counter_stored is FINISHED,
                        len == orig.len(),
                        k <= len,
                        v@ == orig.subrange(k as int, len as int),
                        new_v@.len() == k,
                        forall|i: int|
                            0 <= i < k ==> (#[trigger] new_v@[i]).0 == orig[i].0 && handler_prune_post(orig[i].1, new_v@[i].1)
                                && handler_pruned(new_v@[i].1),
                        forall|i: int, columns: nat|
                            0 <= i < k && #[trigger] handler_ok(orig[i].1, columns) ==> handler_ok(new_v@[i].1, columns),
                    decreases len - k,
                {
                    let (key, mut h) = v.remove(0);
                    proof {
                        assert((key, h) == orig[k as int]);
                        vstd::std_specs::vec::axiom_vec_index_decreases(v0, k as int);
                        assert(s0->PROPAGATED_0 == v0);
                        assert(decreases_to!(s0 => s0->PROPAGATED_0));
                        assert(decreases_to!(s0 => v0[k as int]));
                        assert(decreases_to!(v0[k as int] => v0[k as int].1));
                        assert(decreases_to!(s0 => h));
                        assert(handler_ok(orig[k as int].1, columns0));
                    }
                    h.prune();
                    new_v.push((key, h));
                    assert(v@ =~= orig.subrange(k as int + 1, len as int));
                    k = k + 1;
                }
                proof {
                    assert forall|nn: nat, columns: nat| #[trigger] map_ok(s0, nn, columns) implies map_ok(
                        CandidateResultHashMap::PROPAGATED(new_v),
                        nn,
                        columns,
                    ) by {
                        assert forall|i: int| 0 <= i < new_v@.len() implies handler_ok((#[trigger] new_v@[i]).1, columns) by {
                            assert(handler_ok(orig[i].1, columns));
                        }
                        if distinct_keys(orig) {
                            assert forall|i: int, j: int| 0 <= i < new_v@.len() && 0 <= j < new_v@.len() && i != j implies #[trigger] new_v@[i].0
                                != #[trigger] new_v@[j].0 by {
                                assert(new_v@[i].0 == orig[i].0);
                                assert(new_v@[j].0 == orig[j].0);
                            }
                        }
                    }
                    if distinct_keys(orig) {
                        assert forall|i: int, j: int| 0 <= i < new_v@.len() && 0 <= j < new_v@.len() && i != j implies #[trigger] new_v@[i].0
                            != #[trigger] new_v@[j].0 by {
                            assert(new_v@[i].0 == orig[i].0);
                            assert(new_v@[j].0 == orig[j].0);
                        }
                    }
                }
                *self = CandidateResultHashMap::PROPAGATED(new_v);
            },
        }
    }
}

// ---------------------------------------------------------------------------
// Executing a strategy
// ---------------------------------------------------------------------------

/// State of playing a strategy: the next guess comes from a handler, or the
/// grade of the last guess is awaited, or the game is over.
#[allow(non_camel_case_types)]
pub enum StrategyExecutionType<'a> {
    GUESS { handler_candidate: &'a CandidateHandlerType },
    RESPOND { handler_result: &'a CandidateResultHashMap },
    FINISHED,
}

impl<'a> StrategyExecutionType<'a> {
    /// Start playing the strategy of a finished handler.
    pub fn new(candidates: &'a CandidateHandlerType) -> (r: Self)
        requires
            candidates.counter_stored is FINISHED,
        ensures
            r == (StrategyExecutionType::GUESS { handler_candidate: candidates }),
    {
        StrategyExecutionType::GUESS { handler_candidate: candidates }
    }

    /// The next guess: the first guess of the current handler; then wait
    /// for its grade.
    pub fn get_guess(&mut self) -> (r: CodeType)
        requires
            *old(self) matches StrategyExecutionType::GUESS { handler_candidate: h }
                && h.candidate_list@.len() > 0,
        ensures
            *old(self) matches StrategyExecutionType::GUESS { handler_candidate: h } && {
                &&& r@ == h.candidate_list@[0].candidate@
                &&& *final(self) == (StrategyExecutionType::RESPOND {
                    handler_result: &h.candidate_list@[0].result_hashmap,
                })
            },
    {
        match self {
            StrategyExecutionType::GUESS { handler_candidate } => {
                let handler: &'a CandidateHandlerType = *handler_candidate;
                let candidate_result = handler.get_candidate();
                let guess = candidate_result.get_guess();
                *self = StrategyExecutionType::RESPOND { handler_result: &candidate_result.result_hashmap };
                guess
            },
            _ => vstd::pervasive::unreached(),
        }
    }

    /// Enter the grade of the last guess: go on with the handler of that
    /// grade, or finish when there is none.
    pub fn enter_result(&mut self, result: ResultType)
        requires
            *old(self) matches StrategyExecutionType::RESPOND { handler_result: m } && *m is PROPAGATED
                && map_distinct(*m),
        ensures
            *old(self) matches StrategyExecutionType::RESPOND { handler_result: m }
                && *m matches CandidateResultHashMap::PROPAGATED(v) && *final(self) == if has_result(
                v@,
                result,
            ) {
                StrategyExecutionType::GUESS { handler_candidate: &v@[index_of(v@, result)].1 }
            } else {
                StrategyExecutionType::FINISHED
            },
    {
        match self {
            StrategyExecutionType::RESPOND { handler_result } => {
                let m: &'a CandidateResultHashMap = *handler_result;
                if let Some(cht) = m.get_handler(&result) {
                    *self = StrategyExecutionType::GUESS { handler_candidate: cht };
                } else {
                    *self = StrategyExecutionType::FINISHED;
                }
            },
            _ => vstd::pervasive::unreached(),
        }
    }

    /// Whether the game is over.
    pub fn is_finished(&self) -> (r: bool)
        ensures
            r == (*self is FINISHED),
    {
        match self {
            StrategyExecutionType::FINISHED => true,
            _ => false,
        }
    }
}

// ---------------------------------------------------------------------------
// Solving
// ---------------------------------------------------------------------------

/// The number of codes of the configuration: between 1 and 32767 (so that
/// best-case counts `2n - 1` fit into a `u16`).
pub open spec fn codes_fit(c: ConfigType) -> bool {
    1 <= code_count(c.colors as nat, c.columns as nat) <= 32767
}

proof fn lemma_codes_fit(c: ConfigType)
    requires
        c.colors > 0 || c.columns == 0,
        code_count(c.colors as nat, c.columns as nat) <= 32767,
    ensures
        codes_fit(c),
{
    if c.columns == 0 {
        reveal(vstd::arithmetic::power::pow);
    } else {
        vstd::arithmetic::power::lemma_pow_positive(c.colors as int, c.columns as nat);
    }
}

impl CandidateHandlerType {
    /// The handler for a new game: guesses for all codes of the configuration.
    pub fn new(configuration: &ConfigType) -> (r: Self)
        requires
            cfg_ok(*configuration),
            code_count(configuration.colors as nat, configuration.columns as nat) <= 32767,
        ensures
            created(
                r,
                all_codes(configuration.colors as nat, configuration.columns as nat),
                configuration.colors as nat,
                configuration.columns as nat,
            ),
            handler_ok(r, configuration.columns as nat),
            tree_consistent(r, configuration.colors as nat, configuration.columns as nat),
            search_unbeaten(r, configuration.colors as nat, configuration.columns as nat),
    {
        let ghost colors = configuration.colors as nat;
        let ghost columns = configuration.columns as nat;
        let candidates = get_all_codes(configuration);
        proof {
            lemma_codes_fit(*configuration);
            let all = all_codes(colors, columns);
            assert forall|k: int| 0 <= k < candidates@.len() implies (#[trigger] candidates@[k])@.len() == columns by {
                lemma_nth_code_len(k as nat, colors, columns);
            }
            assert(views(candidates@) =~= all);
            assert forall|k: int| 0 <= k < all.len() implies (#[trigger] all[k]).len() == columns by {
                lemma_nth_code_len(k as nat, colors, columns);
            }
        }
        let r = CandidateHandlerType::create_next_candidates(candidates, configuration);
        proof {
            lemma_created_ok(r, all_codes(colors, columns), colors, columns);
            lemma_created_built(r, all_codes(colors, columns), colors, columns);
            lemma_created_sums(r, all_codes(colors, columns), colors, columns);
            lemma_created_bounded(r, all_codes(colors, columns), colors, columns);
            lemma_created_unbeaten(r, colors, columns);
        }
        r
    }
}

/// Rounds of propagating and counting after which solving gives up.
pub const MAX_ROUNDS: usize = 32768;

/// The search for the best strategy of a configuration.
pub struct StrategyHandlerType<'a> {
    pub configuration: &'a ConfigType,
    pub handler_candidates: CandidateHandlerType,
}

impl<'a> StrategyHandlerType<'a> {
    /// Start the search for a configuration.
    pub fn new(config: &'a ConfigType) -> (r: Self)
        requires
            cfg_ok(*config),
            code_count(config.colors as nat, config.columns as nat) <= 32767,
        ensures
            r.configuration == config,
            created(
                r.handler_candidates,
                all_codes(config.colors as nat, config.columns as nat),
                config.colors as nat,
                config.columns as nat,
            ),
            handler_ok(r.handler_candidates, config.columns as nat),
            tree_consistent(r.handler_candidates, config.colors as nat, config.columns as nat),
            search_unbeaten(r.handler_candidates, config.colors as nat, config.columns as nat),
    {
        StrategyHandlerType { configuration: config, handler_candidates: CandidateHandlerType::new(config) }
    }

    /// Keep only one guess per handler of the finished strategy.
    pub fn prune(&mut self)
        requires
            old(self).handler_candidates.counter_stored is FINISHED,
            handler_ok(old(self).handler_candidates, old(self).configuration.columns as nat),
        ensures
            final(self).configuration == old(self).configuration,
            handler_prune_post(old(self).handler_candidates, final(self).handler_candidates),
            handler_pruned(final(self).handler_candidates),
            handler_ok(final(self).handler_candidates, final(self).configuration.columns as nat),
    {
        self.handler_candidates.prune()
    }

    /// Find the best strategy: propagate and count, level by level, until the
    /// strategy is finished; then prune it. Returns whether it finished;
    /// it gives up when a count would overflow, or after `MAX_ROUNDS` rounds.
    /// A search that stands for all codes of the configuration keeps doing so;
    /// if its counts are unbeaten (as for a new search), the finished count is
    /// the least: no strategy that guesses as the search may (one guess per
    /// way of splitting the codes) needs fewer guesses over all codes.
    pub fn solve(&mut self) -> (finished: bool)
        requires
            cfg_ok(*old(self).configuration),
            handler_ok(old(self).handler_candidates, old(self).configuration.columns as nat),
        ensures
            final(self).configuration == old(self).configuration,
            handler_ok(final(self).handler_candidates, final(self).configuration.columns as nat),
            finished == (final(self).handler_candidates.counter_stored is FINISHED),
            finished ==> handler_pruned(final(self).handler_candidates),
            exists|trace: Seq<CandidateHandlerType>|
                #[trigger] solve_run(
                    trace,
                    old(self).handler_candidates,
                    final(self).handler_candidates,
                    old(self).configuration.colors as nat,
                    old(self).configuration.columns as nat,
                    finished,
                ),
            tree_consistent(
                old(self).handler_candidates,
                old(self).configuration.colors as nat,
                old(self).configuration.columns as nat,
            ) ==> tree_consistent(
                final(self).handler_candidates,
                final(self).configuration.colors as nat,
                final(self).configuration.columns as nat,
            ),
            finished && tree_consistent(
                old(self).handler_candidates,
                old(self).configuration.colors as nat,
                old(self).configuration.columns as nat,
            ) && search_unbeaten(
                old(self).handler_candidates,
                old(self).configuration.colors as nat,
                old(self).configuration.columns as nat,
            ) ==> forall|f: spec_fn(Seq<Seq<u8>>) -> Seq<u8>|
                #[trigger] strategy_valid(
                    f,
                    all_codes(old(self).configuration.colors as nat, old(self).configuration.columns as nat),
                    all_codes(old(self).configuration.colors as nat, old(self).configuration.columns as nat),
                    old(self).configuration.columns as nat,
                ) ==> estimate(final(self).handler_candidates.counter_stored) <= strategy_total(
                    f,
                    all_codes(old(self).configuration.colors as nat, old(self).configuration.columns as nat),
                    old(self).configuration.columns as nat,
                ),
    {
        let ghost colors = self.configuration.colors as nat;
        let ghost columns = self.configuration.columns as nat;
        let ghost start = self.handler_candidates;
        let ghost tracked_from_start = tree_consistent(self.handler_candidates, colors, columns);
        let ghost unbeaten_from_start = tracked_from_start && search_unbeaten(self.handler_candidates, colors, columns);
        let ghost mut trace: Seq<CandidateHandlerType> = seq![self.handler_candidates];
        let mut rounds: usize = 0;
        while !self.handler_candidates.is_finished() && rounds < MAX_ROUNDS
            invariant
                self.configuration == old(self).configuration,
                colors == self.configuration.colors,
                columns == self.configuration.columns,
                cfg_ok(*self.configuration),
                handler_ok(self.handler_candidates, self.configuration.columns as nat),
                start == old(self).handler_candidates,
                tracked_from_start ==> tree_consistent(self.handler_candidates, colors, columns),
                tracked_from_start == tree_consistent(start, colors, columns),
                unbeaten_from_start == (tracked_from_start && search_unbeaten(start, colors, columns)),
                unbeaten_from_start ==> search_unbeaten(self.handler_candidates, colors, columns),
                rounds <= MAX_ROUNDS,
                trace.len() == rounds + 1,
                trace[0] == start,
                trace.last() == self.handler_candidates,
                rounds_unfinished(trace, colors, columns),
            decreases MAX_ROUNDS - rounds,
        {
            let ghost h0 = self.handler_candidates;
            self.handler_candidates.propagate_next_level(self.configuration);
            let ghost h1 = self.handler_candidates;
            proof {
                if tracked_from_start {
                    lemma_propagate_consistent(h0, h1, colors, columns);
                }
                if unbeaten_from_start {
                    lemma_propagate_unbeaten(h0, h1, colors, columns);
                }
            }
            if !self.handler_candidates.can_count() {
                proof {
                    assert(solve_run(trace, start, self.handler_candidates, colors, columns, false));
                }
                return false;
            }
            self.handler_candidates.count();
            proof {
                if tracked_from_start {
                    lemma_count_consistent(h1, self.handler_candidates, colors, columns);
                }
                if unbeaten_from_start {
                    lemma_count_unbeaten(h1, self.handler_candidates, colors, columns);
                }
                lemma_round(h0, h1, self.handler_candidates, colors, columns);
                lemma_run_push(trace, self.handler_candidates, colors, columns);
                trace = trace.push(self.handler_candidates);
            }
            rounds = rounds + 1;
        }
        if self.handler_candidates.is_finished() {
            let ghost h2 = self.handler_candidates;
            self.prune();
            proof {
                if tracked_from_start {
                    lemma_prune_consistent(h2, self.handler_candidates, colors, columns);
                }
                assert(solve_run(trace, start, self.handler_candidates, colors, columns, true));
            }
            true
        } else {
            proof {
                assert(solve_run(trace, start, self.handler_candidates, colors, columns, false));
            }
            false
        }
    }
}

/// Every round of `trace` leads from one state to the next, and starts from
/// a counter that is not finished.
pub open spec fn rounds_unfinished(trace: Seq<CandidateHandlerType>, colors: nat, columns: nat) -> bool {
    forall|i: int|
        0 <= i < trace.len() - 1 ==> round_post(#[trigger] trace[i], trace[i + 1], colors, columns) && !(
        trace[i].counter_stored is FINISHED)
}

/// `trace` is a run of `solve` from `start` to `end`: rounds until the
/// counter is finished, then pruning; or, without finishing, `MAX_ROUNDS`
/// rounds, or a last propagation after which counting would overflow.
pub open spec fn solve_run(
    trace: Seq<CandidateHandlerType>,
    start: CandidateHandlerType,
    end: CandidateHandlerType,
    colors: nat,
    columns: nat,
    finished: bool,
) -> bool {
    &&& 1 <= trace.len() <= MAX_ROUNDS + 1
    &&& trace[0] == start
    &&& rounds_unfinished(trace, colors, columns)
    &&& finished ==> trace.last().counter_stored is FINISHED && handler_prune_post(trace.last(), end)
    &&& !finished ==> !(trace.last().counter_stored is FINISHED) && {
        ||| trace.len() == MAX_ROUNDS + 1 && end == trace.last()
        ||| handler_propagate_post(trace.last(), end, colors, columns) && !handler_fits(end)
    }
}

proof fn lemma_run_push(trace: Seq<CandidateHandlerType>, new: CandidateHandlerType, colors: nat, columns: nat)
    requires
        trace.len() >= 1,
        rounds_unfinished(trace, colors, columns),
        round_post(trace.last(), new, colors, columns),
        !(trace.last().counter_stored is FINISHED),
    ensures
        rounds_unfinished(trace.push(new), colors, columns),
        trace.push(new)[0] == trace[0],
        trace.push(new).last() == new,
{
    let t = trace.push(new);
    assert forall|i: int| 0 <= i < t.len() - 1 implies round_post(#[trigger] t[i], t[i + 1], colors, columns) && !(
        t[i].counter_stored is FINISHED) by {
        if i < trace.len() - 1 {
            assert(t[i] == trace[i]);
            assert(t[i + 1] == trace[i + 1]);
        } else {
            assert(t[i] == trace.last());
        }
    }
}

// ---------------------------------------------------------------------------
// Playing the strategy against every code
// ---------------------------------------------------------------------------

/// The guesses the strategy below `h` makes against the solution `s`, with
/// at most `fuel` guesses: the first guess of the handler; done when its
/// grade solves the game, otherwise on with the handler of that grade.
/// `None` where the strategy cannot be followed (no guess, grouped codes
/// instead of handlers, or no handler for the grade before the last guess).
pub open spec fn handler_guesses(h: CandidateHandlerType, s: Seq<u8>, columns: nat, fuel: nat) -> Option<nat>
    decreases fuel,
{
    if fuel == 0 {
        Some(0)
    } else if h.candidate_list@.len() == 0 {
        None
    } else {
        let c = h.candidate_list@[0];
        let r = spec_grade(c.candidate@, s);
        if r.positions == columns {
            Some(1)
        } else {
            match c.result_hashmap {
                CandidateResultHashMap::NEW(_) => None,
                CandidateResultHashMap::PROPAGATED(v) => if fuel == 1 {
                    Some(1)
                } else if has_result(v@, r) {
                    match handler_guesses(v@[index_of(v@, r)].1, s, columns, (fuel - 1) as nat) {
                        Some(k) => Some(k + 1),
                        None => None,
                    }
                } else {
                    None
                },
            }
        }
    }
}

/// The guesses of the strategy below `h` over all solutions `codes`, with at
/// most `fuel` guesses each; `None` if one of them cannot be followed.
pub open spec fn guesses_total(h: CandidateHandlerType, codes: Seq<Seq<u8>>, columns: nat, fuel: nat) -> Option<nat>
    decreases codes.len(),
{
    if codes.len() == 0 {
        Some(0)
    } else {
        match (guesses_total(h, codes.drop_last(), columns, fuel), handler_guesses(h, codes.last(), columns, fuel)) {
            (Some(a), Some(b)) => Some(a + b),
            _ => None,
        }
    }
}

pub open spec fn shifted(o: Option<nat>, i: nat) -> Option<nat> {
    match o {
        Some(k) => Some(k + i),
        None => None,
    }
}

proof fn lemma_guesses_total_prefix(h: CandidateHandlerType, codes: Seq<Seq<u8>>, columns: nat, j: int)
    requires
        0 <= j <= codes.len(),
    ensures
        guesses_total(h, codes, columns, 100) matches Some(t) ==> guesses_total(h, codes.subrange(0, j), columns, 100) matches Some(
            tp,
        ) && tp <= t,
    decreases codes.len() - j,
{
    if j < codes.len() {
        lemma_guesses_total_prefix(h, codes, columns, j + 1);
        assert(codes.subrange(0, j + 1).drop_last() =~= codes.subrange(0, j));
    } else {
        assert(codes.subrange(0, j) =~= codes);
    }
}

proof fn lemma_guesses_positive(h: CandidateHandlerType, s: Seq<u8>, columns: nat, fuel: nat)
    requires
        fuel > 0,
    ensures
        handler_guesses(h, s, columns, fuel) matches Some(k) ==> k >= 1,
    decreases fuel,
{
    if fuel > 1 && h.candidate_list@.len() > 0 {
        let c = h.candidate_list@[0];
        if let CandidateResultHashMap::PROPAGATED(v) = c.result_hashmap {
            let r = spec_grade(c.candidate@, s);
            if has_result(v@, r) {
                lemma_guesses_positive(v@[index_of(v@, r)].1, s, columns, (fuel - 1) as nat);
            }
        }
    }
}

impl<'a> StrategyHandlerType<'a> {
    /// Play the finished strategy against every code of the configuration
    /// (at most 100 guesses each) and return the number of guesses in all;
    /// `None` where the strategy cannot be followed or the number does not
    /// fit into a `u16`. For a search tree that stands for all codes (as `new`
    /// creates it and `solve` keeps it) whose strategy makes at most 100
    /// guesses, which holds for configurations of at most 100 codes, this is
    /// the count of the strategy.
    pub fn verify(&self) -> (r: Option<u16>)
        requires
            cfg_ok(*self.configuration),
            self.handler_candidates.counter_stored is FINISHED,
            handler_ok(self.handler_candidates, self.configuration.columns as nat),
        ensures
            r == match guesses_total(
                self.handler_candidates,
                all_codes(self.configuration.colors as nat, self.configuration.columns as nat),
                self.configuration.columns as nat,
                100,
            ) {
                Some(t) => if t <= 65535 {
                    Some(t as u16)
                } else {
                    None::<u16>
                },
                None => None::<u16>,
            },
            tree_consistent(
                self.handler_candidates,
                self.configuration.colors as nat,
                self.configuration.columns as nat,
            ) && handler_height(self.handler_candidates) <= 100
                ==> r == Some(estimate(self.handler_candidates.counter_stored)),
            tree_consistent(
                self.handler_candidates,
                self.configuration.colors as nat,
                self.configuration.columns as nat,
            ) && code_count(self.configuration.colors as nat, self.configuration.columns as nat) <= 100
                ==> r == Some(estimate(self.handler_candidates.counter_stored)),
    {
        let ghost colors = self.configuration.colors as nat;
        let ghost columns = self.configuration.columns as nat;
        let ghost root = self.handler_candidates;
        let ghost all = all_codes(colors, columns);
        proof {
            if tree_consistent(root, colors, columns) {
                lemma_all_codes(colors, columns);
                lemma_handler_height(root, all, columns);
            }
        }
        let ghost law = tree_consistent(root, colors, columns) && handler_height(root) <= 100;
        proof {
            if law {
                assert forall|k: int| 0 <= k < all.len() implies (#[trigger] all[k]).len() == columns by {
                    lemma_nth_code_len(k as nat, colors, columns);
                }
                lemma_strategy_total(root, all, columns, 100);
            }
        }
        let candidates_all = get_all_codes(self.configuration);
        assert(views(candidates_all@) =~= all);
        let mut count: u16 = 0;
        let mut idx: usize = 0;
        assert(all.subrange(0, 0) =~= Seq::<Seq<u8>>::empty());
        while idx < candidates_all.len()
            invariant
                cfg_ok(*self.configuration),
                colors == self.configuration.colors,
                columns == self.configuration.columns,
                root == self.handler_candidates,
                root.counter_stored is FINISHED,
                handler_ok(root, columns),
                all == all_codes(colors, columns),
                candidates_all@.len() == all.len(),
                forall|k: int| 0 <= k < candidates_all@.len() ==> #[trigger] candidates_all@[k]@ == all[k],
                idx <= candidates_all@.len(),
                guesses_total(root, all.subrange(0, idx as int), columns, 100) == Some(count as nat),
                law ==> guesses_total(root, all, columns, 100) == Some(estimate(root.counter_stored) as nat),
                law == (tree_consistent(root, colors, columns) && handler_height(root) <= 100),
                tree_consistent(root, colors, columns) && code_count(colors, columns) <= 100 ==> law,
            decreases candidates_all@.len() - idx,
        {
            let solution = &candidates_all[idx];
            let ghost s = solution@;
            proof {
                lemma_nth_code_len(idx as nat, colors, columns);
                assert(all.subrange(0, idx as int + 1).drop_last() =~= all.subrange(0, idx as int));
                assert(all.subrange(0, idx as int + 1).last() == s);
                lemma_guesses_total_prefix(root, all, columns, idx as int + 1);
            }
            let ghost count0 = count;
            let mut strategy = StrategyExecutionType::new(&self.handler_candidates);
            let ghost mut cur = root;
            let mut i: usize = 0;
            while i < 100
                invariant_except_break
                    strategy == (StrategyExecutionType::GUESS { handler_candidate: &cur }),
                    count == count0 + i,
                invariant
                    cfg_ok(*self.configuration),
                    colors == self.configuration.colors,
                    columns == self.configuration.columns,
                    root == self.handler_candidates,
                    all == all_codes(colors, columns),
                    law ==> guesses_total(root, all, columns, 100) == Some(estimate(root.counter_stored) as nat),
                    law == (tree_consistent(root, colors, columns) && handler_height(root) <= 100),
                    tree_consistent(root, colors, columns) && code_count(colors, columns) <= 100 ==> law,
                    s == solution@,
                    s.len() == columns,
                    handler_ok(cur, columns),
                    i <= 100,
                    count0 <= count,
                    handler_guesses(root, s, columns, 100) == shifted(handler_guesses(cur, s, columns, (100 - i) as nat), i as nat),
                    guesses_total(root, all.subrange(0, idx as int), columns, 100) == Some(count0 as nat),
                    guesses_total(root, all.subrange(0, idx as int + 1), columns, 100) == match (
                        guesses_total(root, all.subrange(0, idx as int), columns, 100),
                        handler_guesses(root, s, columns, 100),
                    ) {
                        (Some(a), Some(b)) => Some(a + b),
                        _ => None,
                    },
                    guesses_total(root, all, columns, 100) matches Some(t) ==> guesses_total(
                        root,
                        all.subrange(0, idx as int + 1),
                        columns,
                        100,
                    ) matches Some(tp) && tp <= t,
                ensures
                    handler_guesses(root, s, columns, 100) == Some((count - count0) as nat),
                decreases 100 - i,
            {
                proof {
                    lemma_guesses_positive(cur, s, columns, (100 - i) as nat);
                }
                if count == 65535 {
                    proof {
                        if guesses_total(root, all, columns, 100) is Some {
                            let gs_root = handler_guesses(root, s, columns, 100);
                            assert(gs_root is Some);
                            assert(gs_root->0 >= i + 1);
                            let tp = guesses_total(root, all.subrange(0, idx as int + 1), columns, 100);
                            assert(tp == Some((count0 + gs_root->0) as nat));
                            assert(tp->0 >= 65536);
                            assert(guesses_total(root, all, columns, 100)->0 >= 65536);
                        }
                    }
                    return None;
                }
                count = count + 1;
                let handler: &CandidateHandlerType = match &strategy {
                    StrategyExecutionType::GUESS { handler_candidate } => *handler_candidate,
                    _ => vstd::pervasive::unreached(),
                };
                if handler.candidate_list.len() == 0 {
                    proof {
                        assert(handler_guesses(cur, s, columns, (100 - i) as nat) is None);
                        assert(guesses_total(root, all.subrange(0, idx as int + 1), columns, 100) is None);
                    }
                    return None;
                }
                let guess = strategy.get_guess();
                proof {
                    assert(result_ok(cur.candidate_list@[0], columns));
                    lemma_gradable_short(guess@, s);
                }
                let result = guess.grade(solution);
                if result.is_finished(self.configuration) {
                    break;
                }
                let ghost c = cur.candidate_list@[0];
                let propagated = match &handler.candidate_list[0].result_hashmap {
                    CandidateResultHashMap::PROPAGATED(_) => true,
                    _ => false,
                };
                if !propagated {
                    return None;
                }
                strategy.enter_result(result);
                if strategy.is_finished() {
                    if i + 1 < 100 {
                        return None;
                    }
                    i = i + 1;
                    break;
                }
                proof {
                    if let CandidateResultHashMap::PROPAGATED(v) = c.result_hashmap {
                        let r = spec_grade(c.candidate@, s);
                        assert(has_result(v@, r));
                        cur = v@[index_of(v@, r)].1;
                    }
                }
                i = i + 1;
            }
            idx = idx + 1;
        }
        proof {
            assert(all.subrange(0, idx as int) =~= all);
        }
        Some(count)
    }
}

// ---------------------------------------------------------------------------
// Checking the counters round by round
// ---------------------------------------------------------------------------

/// `new` follows from `old` by one round: propagating, then counting.
pub open spec fn round_post(old: CandidateHandlerType, new: CandidateHandlerType, colors: nat, columns: nat) -> bool {
    exists|mid: CandidateHandlerType|
        #[trigger] handler_propagate_post(old, mid, colors, columns) && handler_count_post(mid, new)
}

/// `trace` is a run of rounds from `start` against the expected counters
/// `exp`, one round per expected counter; a shorter run ends in a last
/// propagation after which counting would overflow; `ok` tells whether the run is complete, the counter before
/// each round is the expected one, and the last counter is the last one
/// expected and finished.
pub open spec fn checked_run(
    trace: Seq<CandidateHandlerType>,
    start: CandidateHandlerType,
    end: CandidateHandlerType,
    exp: Seq<StrategyCounter>,
    colors: nat,
    columns: nat,
    ok: bool,
) -> bool {
    &&& 1 <= trace.len() <= exp.len() + 1
    &&& trace[0] == start
    &&& forall|i: int| 0 <= i < trace.len() - 1 ==> round_post(#[trigger] trace[i], trace[i + 1], colors, columns)
    &&& trace.len() == exp.len() + 1 ==> trace.last() == end
    &&& trace.len() < exp.len() + 1 ==> handler_propagate_post(trace.last(), end, colors, columns)
        && !handler_fits(end)
    &&& ok == {
        &&& trace.len() == exp.len() + 1
        &&& forall|i: int| 0 <= i < exp.len() ==> (#[trigger] trace[i]).counter_stored == exp[i]
        &&& trace.last().counter_stored == exp.last()
        &&& trace.last().counter_stored is FINISHED
    }
}

proof fn lemma_round(old: CandidateHandlerType, mid: CandidateHandlerType, new: CandidateHandlerType, colors: nat, columns: nat)
    requires
        handler_propagate_post(old, mid, colors, columns),
        handler_count_post(mid, new),
    ensures
        round_post(old, new, colors, columns),
{
}

proof fn lemma_trace_push(trace: Seq<CandidateHandlerType>, new: CandidateHandlerType, exp: Seq<StrategyCounter>, i: int, colors: nat, columns: nat)
    requires
        0 <= i < exp.len(),
        trace.len() == i + 1,
        forall|j: int| 0 <= j < trace.len() - 1 ==> round_post(#[trigger] trace[j], trace[j + 1], colors, columns),
        round_post(trace.last(), new, colors, columns),
    ensures
        forall|j: int| 0 <= j < trace.push(new).len() - 1 ==> round_post(#[trigger] trace.push(new)[j], trace.push(new)[j + 1], colors, columns),
        (forall|j: int| 0 <= j < i + 1 ==> (#[trigger] trace.push(new)[j]).counter_stored == exp[j]) == ((forall|j: int|
            0 <= j < i ==> (#[trigger] trace[j]).counter_stored == exp[j]) && trace[i].counter_stored == exp[i]),
        trace.push(new)[0] == trace[0],
        trace.push(new).last() == new,
        trace.push(new).len() == i + 2,
{
    let t = trace.push(new);
    assert forall|j: int| 0 <= j < t.len() - 1 implies round_post(#[trigger] t[j], t[j + 1], colors, columns) by {
        if j < trace.len() - 1 {
            assert(t[j] == trace[j]);
            assert(t[j + 1] == trace[j + 1]);
        } else {
            assert(t[j] == trace.last());
        }
    }
    assert forall|j: int| 0 <= j < i + 1 implies #[trigger] t[j] == trace[j] by {}
    if forall|j: int| 0 <= j < i + 1 ==> (#[trigger] t[j]).counter_stored == exp[j] {
        assert(t[i] == trace[i]);
        assert forall|j: int| 0 <= j < i implies (#[trigger] trace[j]).counter_stored == exp[j] by {
            assert(t[j] == trace[j]);
        }
    }
    if (forall|j: int| 0 <= j < i ==> (#[trigger] trace[j]).counter_stored == exp[j]) && trace[i].counter_stored == exp[i] {
        assert forall|j: int| 0 <= j < i + 1 implies (#[trigger] t[j]).counter_stored == exp[j] by {
            assert(t[j] == trace[j]);
        }
    }
}

impl<'a> StrategyHandlerType<'a> {
    /// Run one round (propagate, count) per expected counter, checking the
    /// counter before each round against it; at the end the counter must be
    /// the last one expected, and finished. Returns whether all checks held.
    pub fn test_solve(&mut self, counter_expectation: Vec<StrategyCounter>) -> (ok: bool)
        requires
            counter_expectation@.len() > 0,
            cfg_ok(*old(self).configuration),
            handler_ok(old(self).handler_candidates, old(self).configuration.columns as nat),
        ensures
            final(self).configuration == old(self).configuration,
            handler_ok(final(self).handler_candidates, final(self).configuration.columns as nat),
            exists|trace: Seq<CandidateHandlerType>|
                #[trigger] checked_run(
                    trace,
                    old(self).handler_candidates,
                    final(self).handler_candidates,
                    counter_expectation@,
                    old(self).configuration.colors as nat,
                    old(self).configuration.columns as nat,
                    ok,
                ),
            tree_consistent(
                old(self).handler_candidates,
                old(self).configuration.colors as nat,
                old(self).configuration.columns as nat,
            ) ==> tree_consistent(
                final(self).handler_candidates,
                final(self).configuration.colors as nat,
                final(self).configuration.columns as nat,
            ),
    {
        let ghost colors = self.configuration.colors as nat;
        let ghost columns = self.configuration.columns as nat;
        let ghost start = self.handler_candidates;
        let ghost exp = counter_expectation@;
        let ghost all = all_codes(colors, columns);
        let ghost tracked_from_start = tree_consistent(start, colors, columns);
        let ghost mut trace: Seq<CandidateHandlerType> = seq![self.handler_candidates];
        let n = counter_expectation.len();
        let mut matched = true;
        let mut i: usize = 0;
        while i < n
            invariant
                self.configuration == old(self).configuration,
                colors == self.configuration.colors,
                columns == self.configuration.columns,
                cfg_ok(*self.configuration),
                handler_ok(self.handler_candidates, columns),
                start == old(self).handler_candidates,
                exp == counter_expectation@,
                n == exp.len(),
                i <= n,
                trace.len() == i + 1,
                trace[0] == start,
                trace.last() == self.handler_candidates,
                all == all_codes(colors, columns),
                tracked_from_start == tree_consistent(start, colors, columns),
                tracked_from_start ==> tree_consistent(self.handler_candidates, colors, columns),
                forall|j: int| 0 <= j < trace.len() - 1 ==> round_post(#[trigger] trace[j], trace[j + 1], colors, columns),
                matched == forall|j: int| 0 <= j < i ==> (#[trigger] trace[j]).counter_stored == exp[j],
            decreases n - i,
        {
            if self.handler_candidates.counter_stored != counter_expectation[i] {
                matched = false;
            }
            let ghost before = self.handler_candidates;
            self.handler_candidates.propagate_next_level(self.configuration);
            let ghost mid = self.handler_candidates;
            proof {
                if tracked_from_start {
                    lemma_propagate_consistent(before, mid, colors, columns);
                }
            }
            if !self.handler_candidates.can_count() {
                proof {
                    assert(checked_run(trace, start, self.handler_candidates, exp, colors, columns, false));
                }
                return false;
            }
            self.handler_candidates.count();
            proof {
                if tracked_from_start {
                    lemma_count_consistent(mid, self.handler_candidates, colors, columns);
                }
                lemma_round(before, mid, self.handler_candidates, colors, columns);
                lemma_trace_push(trace, self.handler_candidates, exp, i as int, colors, columns);
                trace = trace.push(self.handler_candidates);
            }
            i = i + 1;
        }
        let ok = matched && self.handler_candidates.counter_stored == counter_expectation[n - 1]
            && self.handler_candidates.is_finished();
        proof {
            assert(checked_run(trace, start, self.handler_candidates, exp, colors, columns, ok));
        }
        ok
    }
}

} // verus!
