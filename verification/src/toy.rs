//! Toy problem for the level-wise search: a tree of draws that is expanded
//! level by level, counted top-down, given a status bottom-up and pruned.
use vstd::prelude::*;
use rayon::iter::{IntoParallelRefMutIterator, ParallelIterator};

verus! {

pub const N_MAX_CANDIDATES: i32 = 3;

pub const N_MAX_LEVELS: i32 = 4;

/// The draw that stops the search at the last level.
pub const NUMBER_STOPPER: i32 = N_MAX_CANDIDATES;

/// Level up to which trees may grow: a count adds at most `N_MAX_CANDIDATES`
/// draws per level, so every level and every count stays within `i32`.
pub const LEVEL_LIMIT: i32 = 700_000_000;

/// Counter of one node: not counted yet, counted, or finished.
#[derive(Copy, Clone, PartialEq, Eq, Structural, Debug)]
pub enum Counter {
    Fresh,
    Counted(i32),
    Done(i32),
}

impl Default for Counter {
    fn default() -> (r: Self)
        ensures
            r == Counter::Fresh,
    {
        Counter::Fresh
    }
}

impl Counter {
    /// Whether the counter is finished.
    pub fn is_done(&self) -> (r: bool)
        ensures
            r == (*self is Done),
    {
        match self {
            Counter::Done(_) => true,
            _ => false,
        }
    }
}

/// One node of the search: its level, the draw it stands for, its counter
/// and its children.
#[derive(Debug)]
pub struct LevelFinder {
    pub level: i32,
    pub draw: i32,
    pub counter: Counter,
    pub candidates: Candidates,
}

/// The children of a node: not created yet, or the list of children.
#[derive(Debug)]
pub enum Candidates {
    Fresh,
    Initialized(Vec<LevelFinder>),
}

impl Default for Candidates {
    fn default() -> (r: Self)
        ensures
            r is Fresh,
    {
        Candidates::Fresh
    }
}

// ---------------------------------------------------------------------------
// Shape of the tree
// ---------------------------------------------------------------------------

pub open spec fn max_nat(a: nat, b: nat) -> nat {
    if a >= b {
        a
    } else {
        b
    }
}

/// Number of levels below the node.
pub open spec fn height(lf: LevelFinder) -> nat
    decreases lf,
{
    match lf.candidates {
        Candidates::Fresh => 0,
        Candidates::Initialized(v) => 1 + list_height(v@),
    }
}

pub open spec fn list_height(s: Seq<LevelFinder>) -> nat
    decreases s,
{
    if s.len() == 0 {
        0
    } else {
        max_nat(list_height(s.subrange(0, s.len() - 1)), height(s[s.len() - 1]))
    }
}

/// Draws lie in `0..=N_MAX_CANDIDATES`, every child is one level below its
/// parent, and no node is deeper than `LEVEL_LIMIT`.
pub open spec fn wf(lf: LevelFinder) -> bool
    decreases lf,
{
    &&& 0 <= lf.draw <= N_MAX_CANDIDATES
    &&& 0 <= lf.level
    &&& lf.level + height(lf) <= LEVEL_LIMIT
    &&& match lf.candidates {
        Candidates::Fresh => true,
        Candidates::Initialized(v) => list_wf(v@, lf.level + 1),
    }
}

pub open spec fn list_wf(s: Seq<LevelFinder>, level: int) -> bool
    decreases s,
{
    if s.len() == 0 {
        true
    } else {
        list_wf(s.subrange(0, s.len() - 1), level) && wf(s[s.len() - 1]) && s[s.len() - 1].level
            == level
    }
}

pub open spec fn cands_height(c: Candidates) -> nat {
    match c {
        Candidates::Fresh => 0,
        Candidates::Initialized(v) => 1 + list_height(v@),
    }
}

pub open spec fn cands_wf(c: Candidates, level: int) -> bool {
    match c {
        Candidates::Fresh => true,
        Candidates::Initialized(v) => list_wf(v@, level),
    }
}

/// The shape of a tree, whatever its draws: every child is one level below
/// its parent, and no node is deeper than `LEVEL_LIMIT`.
pub open spec fn shaped(lf: LevelFinder) -> bool
    decreases lf,
{
    &&& lf.level + height(lf) <= LEVEL_LIMIT
    &&& match lf.candidates {
        Candidates::Fresh => true,
        Candidates::Initialized(v) => list_shaped(v@, lf.level + 1),
    }
}

pub open spec fn list_shaped(s: Seq<LevelFinder>, level: int) -> bool
    decreases s,
{
    if s.len() == 0 {
        true
    } else {
        list_shaped(s.subrange(0, s.len() - 1), level) && shaped(s[s.len() - 1]) && s[s.len()
            - 1].level == level
    }
}

pub open spec fn cands_shaped(c: Candidates, level: int) -> bool {
    match c {
        Candidates::Fresh => true,
        Candidates::Initialized(v) => list_shaped(v@, level),
    }
}

/// A well-formed tree is shaped.
proof fn lemma_wf_shaped(lf: LevelFinder)
    ensures
        wf(lf) ==> shaped(lf),
    decreases lf,
{
    if let Candidates::Initialized(v) = lf.candidates {
        lemma_list_wf_shaped(v@, lf.level + 1);
    }
}

proof fn lemma_list_wf_shaped(s: Seq<LevelFinder>, level: int)
    ensures
        list_wf(s, level) ==> list_shaped(s, level),
    decreases s,
{
    if s.len() > 0 {
        lemma_list_wf_shaped(s.subrange(0, s.len() - 1), level);
        lemma_wf_shaped(s[s.len() - 1]);
    }
}

proof fn lemma_list_elem(s: Seq<LevelFinder>, k: int, level: int)
    requires
        0 <= k < s.len(),
    ensures
        height(s[k]) <= list_height(s),
        list_wf(s, level) ==> wf(s[k]) && s[k].level == level,
        list_shaped(s, level) ==> shaped(s[k]) && s[k].level == level,
    decreases s.len(),
{
    if k < s.len() - 1 {
        lemma_list_elem(s.subrange(0, s.len() - 1), k, level);
    }
}

// ---------------------------------------------------------------------------
// Counting (top-down)
// ---------------------------------------------------------------------------

/// The node at which the search stops: the stopper draw at the last level.
pub open spec fn is_stopper(lf: LevelFinder) -> bool {
    lf.level == N_MAX_LEVELS && lf.draw == NUMBER_STOPPER
}

/// Index of the first finished node of `s`, or -1 if none is finished.
pub open spec fn first_done(s: Seq<LevelFinder>) -> int
    decreases s.len(),
{
    if s.len() == 0 {
        -1
    } else if first_done(s.subrange(0, s.len() - 1)) >= 0 {
        first_done(s.subrange(0, s.len() - 1))
    } else if s[s.len() - 1].counter is Done {
        s.len() - 1
    } else {
        -1
    }
}

/// The counter of the first finished child, `Fresh` if no child is finished.
pub open spec fn finished_child(c: Candidates) -> Counter {
    match c {
        Candidates::Fresh => Counter::Fresh,
        Candidates::Initialized(v) => if first_done(v@) >= 0 {
            v@[first_done(v@)].counter
        } else {
            Counter::Fresh
        },
    }
}

/// Whether one of the children is finished (then counting stops there).
pub open spec fn has_finished_child(c: Candidates) -> bool {
    c matches Candidates::Initialized(v) && first_done(v@) >= 0
}

/// Whether counting the node goes on into its children: it is not the
/// stopper, and it has children of which none is finished.
pub open spec fn counts_children(lf: LevelFinder) -> bool {
    &&& !is_stopper(lf)
    &&& lf.candidates is Initialized
    &&& !has_finished_child(lf.candidates)
}

/// Counting the node with `prev` draws above it stays within `i32`: its own
/// count does, and so does counting each child, where counting goes on
/// into the children.
pub open spec fn sums_fit(lf: LevelFinder, prev: int) -> bool
    decreases lf,
{
    &&& i32::MIN <= prev + lf.draw <= i32::MAX
    &&& counts_children(lf) ==> match lf.candidates {
        Candidates::Fresh => true,
        Candidates::Initialized(v) => forall|i: int|
            0 <= i < v@.len() ==> sums_fit(#[trigger] v@[i], prev + lf.draw),
    }
}

/// Counting the children with `prev` draws above them stays within `i32`
/// (nothing to count if one of them is finished).
pub open spec fn cands_sums_fit(c: Candidates, prev: int) -> bool {
    match c {
        Candidates::Fresh => true,
        Candidates::Initialized(v) => !has_finished_child(c) ==> forall|i: int|
            0 <= i < v@.len() ==> sums_fit(#[trigger] v@[i], prev),
    }
}

/// The counter a node gets when counted with `prev` draws above it.
pub open spec fn counted_counter(lf: LevelFinder, prev: int) -> Counter {
    if is_stopper(lf) {
        Counter::Done((lf.draw + prev) as i32)
    } else {
        match finished_child(lf.candidates) {
            Counter::Done(n) => Counter::Done(n),
            _ => Counter::Counted((prev + lf.draw) as i32),
        }
    }
}

/// The number a counter holds (0 for a fresh one).
pub open spec fn counter_value(c: Counter) -> int {
    match c {
        Counter::Fresh => 0,
        Counter::Counted(n) => n as int,
        Counter::Done(n) => n as int,
    }
}

/// The least number the children of a non-empty list hold after each of
/// them is counted with `prev` draws above it.
pub open spec fn min_child_count(s: Seq<LevelFinder>, prev: int) -> int
    decreases s.len(),
{
    if s.len() <= 1 {
        counter_value(counted_counter(s[0], prev))
    } else {
        let a = min_child_count(s.subrange(0, s.len() - 1), prev);
        let b = counter_value(counted_counter(s[s.len() - 1], prev));
        if a <= b {
            a
        } else {
            b
        }
    }
}

/// What counting a list of children returns: the counter of the first
/// finished child if there is one; otherwise, once every child is counted,
/// the least of their counts (`Fresh` for an empty list).
pub open spec fn candidates_count(c: Candidates, prev: int) -> Counter {
    match c {
        Candidates::Fresh => Counter::Fresh,
        Candidates::Initialized(v) => if first_done(v@) >= 0 {
            v@[first_done(v@)].counter
        } else if v@.len() == 0 {
            Counter::Fresh
        } else {
            Counter::Counted(min_child_count(v@, prev) as i32)
        },
    }
}

/// `new` is `old` after counting with `prev` draws above it.
pub open spec fn count_post(old: LevelFinder, new: LevelFinder, prev: int) -> bool
    decreases old,
{
    &&& new.level == old.level
    &&& new.draw == old.draw
    &&& new.counter == counted_counter(old, prev)
    &&& if is_stopper(old) {
        new.candidates == old.candidates
    } else {
        cands_count_post(old.candidates, new.candidates, prev + old.draw)
    }
}

/// `new` are the children `old` after counting: unchanged if one of them is
/// finished, otherwise each of them counted with `prev`.
pub open spec fn cands_count_post(old: Candidates, new: Candidates, prev: int) -> bool
    decreases old,
{
    match old {
        Candidates::Fresh => new is Fresh,
        Candidates::Initialized(v) => if first_done(v@) >= 0 {
            new == old
        } else {
            new matches Candidates::Initialized(w) && list_count_post(v@, w@, prev)
        },
    }
}

pub open spec fn list_count_post(v: Seq<LevelFinder>, w: Seq<LevelFinder>, prev: int) -> bool
    decreases v,
{
    &&& v.len() == w.len()
    &&& v.len() > 0 ==> list_count_post(v.subrange(0, v.len() - 1), w.subrange(0, w.len() - 1), prev)
        && count_post(v[v.len() - 1], w[w.len() - 1], prev)
}

proof fn lemma_first_done_prefix(s: Seq<LevelFinder>, k: int)
    requires
        0 <= k <= s.len(),
        first_done(s.subrange(0, k)) >= 0,
    ensures
        first_done(s) == first_done(s.subrange(0, k)),
    decreases s.len() - k,
{
    if k < s.len() {
        let p = s.subrange(0, s.len() - 1);
        assert(p.subrange(0, k) =~= s.subrange(0, k));
        lemma_first_done_prefix(p, k);
    } else {
        assert(s.subrange(0, k) =~= s);
    }
}

proof fn lemma_first_done_bound(s: Seq<LevelFinder>)
    ensures
        -1 <= first_done(s) < s.len(),
        first_done(s) >= 0 ==> s[first_done(s)].counter is Done,
    decreases s.len(),
{
    if s.len() > 0 {
        lemma_first_done_bound(s.subrange(0, s.len() - 1));
    }
}

/// Appending an element keeps a list well formed and extends its height.
proof fn lemma_list_push(s: Seq<LevelFinder>, x: LevelFinder, level: int)
    ensures
        list_wf(s.push(x), level) == (list_wf(s, level) && wf(x) && x.level == level),
        list_height(s.push(x)) == max_nat(list_height(s), height(x)),
{
    assert(s.push(x).subrange(0, s.len() as int) =~= s);
}

impl Candidates {
    /// Count the children: return the counter of the first finished child if
    /// there is one; otherwise count every child with `count_previous` draws
    /// above it and return the least of their counts.
    pub fn count(&mut self, count_previous: i32) -> (r: Counter)
        requires
            cands_sums_fit(*old(self), count_previous as int),
        ensures
            r == candidates_count(*old(self), count_previous as int),
            cands_count_post(*old(self), *final(self), count_previous as int),
            cands_height(*final(self)) == cands_height(*old(self)),
            forall|l: int| cands_wf(*old(self), l) ==> cands_wf(*final(self), l),
        decreases *old(self),
    {
        let ghost s0 = *self;
        let mut taken = Candidates::Fresh;
        std::mem::swap(&mut taken, self);
        match taken {
            Candidates::Fresh => Counter::Fresh,
            Candidates::Initialized(mut vec) => {
                let ghost orig = vec@;
                let mut i: usize = 0;
                while i < vec.len()
                    invariant
                        s0 == *old(self),
                        s0 == Candidates::Initialized(vec),
                        vec@ == orig,
                        i <= orig.len(),
                        first_done(orig.subrange(0, i as int)) == -1,
                    decreases orig.len() - i,
                {
                    proof {
                        assert(orig.subrange(0, i as int + 1).subrange(0, i as int) =~= orig.subrange(
                            0,
                            i as int,
                        ));
                    }
                    if vec[i].counter.is_done() {
                        proof {
                            lemma_first_done_prefix(orig, i as int + 1);
                        }
                        let c = vec[i].counter;

                        *self = Candidates::Initialized(vec);
                        assert(*self == s0);
                        return c;
                    }
                    i = i + 1;
                }
                assert(orig.subrange(0, orig.len() as int) =~= orig);
                let ghost vec0 = vec;
                let mut new_v: Vec<LevelFinder> = Vec::new();
                let n = vec.len();
                let mut k: usize = 0;
                let mut min: i32 = 0;
                assert(orig.subrange(0, 0) =~= Seq::<LevelFinder>::empty());
                while k < n
                    invariant
                        k > 0 ==> min == min_child_count(orig.subrange(0, k as int), count_previous as int),
                        s0 == *old(self),
                        s0 == Candidates::Initialized(vec0),
                        vec0@ == orig,
                        n == orig.len(),
                        k <= n,
                        forall|j: int| 0 <= j < orig.len() ==> sums_fit(#[trigger] orig[j], count_previous as int),
                        cands_height(s0) == 1 + list_height(orig),
                        vec@ == orig.subrange(k as int, n as int),
                        new_v@.len() == k,
                        list_count_post(orig.subrange(0, k as int), new_v@, count_previous as int),
                        list_height(new_v@) == list_height(orig.subrange(0, k as int)),
                        forall|l: int|
                            list_wf(orig.subrange(0, k as int), l) ==> list_wf(new_v@, l),
                    decreases n - k,
                {
                    let ghost pre = orig.subrange(0, k as int);
                    let ghost pre1 = orig.subrange(0, k as int + 1);
                    let mut x = vec.remove(0);
                    proof {
                        assert(x == orig[k as int]);
                        assert(pre1 =~= pre.push(x));
                        assert(sums_fit(orig[k as int], count_previous as int));
                        vstd::std_specs::vec::axiom_vec_index_decreases(vec0, k as int);
                        assert(decreases_to!(s0 => vec0));
                        assert(decreases_to!(s0 => x));
                    }
                    x.count(count_previous);
                    let val: i32 = match x.counter {
                        Counter::Fresh => 0,
                        Counter::Counted(num) => num,
                        Counter::Done(num) => num,
                    };
                    if k == 0 || val < min {
                        min = val;
                    }
                    proof {
                        assert(x.counter == counted_counter(orig[k as int], count_previous as int));
                        assert(pre1.subrange(0, k as int) =~= pre);
                        assert(pre1[k as int] == orig[k as int]);
                        lemma_list_push(pre, orig[k as int], 0);
                        lemma_list_push(new_v@, x, 0);
                        assert forall|l: int| list_wf(pre1, l) implies list_wf(new_v@.push(x), l) by {
                            lemma_list_push(pre, orig[k as int], l);
                            lemma_list_push(new_v@, x, l);
                        }
                        assert(new_v@.push(x).subrange(0, k as int) =~= new_v@);
                        assert(pre1.subrange(0, k as int) =~= pre);
                    }
                    new_v.push(x);
                    assert(vec@ =~= orig.subrange(k as int + 1, n as int));
                    k = k + 1;
                }
                assert(orig.subrange(0, n as int) =~= orig);
                *self = Candidates::Initialized(new_v);
                if n == 0 {
                    Counter::Fresh
                } else {
                    Counter::Counted(min)
                }
            },
        }
    }
}

proof fn lemma_wf_unfold(lf: LevelFinder)
    ensures
        height(lf) == cands_height(lf.candidates),
        wf(lf) == (0 <= lf.draw <= N_MAX_CANDIDATES && 0 <= lf.level && lf.level + height(lf)
            <= LEVEL_LIMIT && cands_wf(lf.candidates, lf.level + 1)),
        shaped(lf) == (lf.level + height(lf) <= LEVEL_LIMIT && cands_shaped(
            lf.candidates,
            lf.level + 1,
        )),
{
}

/// Counting a well-formed tree stays within `i32` when a count plus three
/// draws per level does.
proof fn lemma_wf_sums_fit(lf: LevelFinder, prev: int)
    requires
        wf(lf),
        i32::MIN <= prev,
        prev + 3 * height(lf) + 3 <= i32::MAX,
    ensures
        sums_fit(lf, prev),
    decreases lf,
{
    lemma_wf_unfold(lf);
    if let Candidates::Initialized(v) = lf.candidates {
        assert forall|i: int| 0 <= i < v@.len() implies sums_fit(#[trigger] v@[i], prev + lf.draw) by {
            lemma_list_elem(v@, i, lf.level + 1);
            vstd::std_specs::vec::axiom_vec_index_decreases(v, i);
            lemma_wf_sums_fit(v@[i], prev + lf.draw);
        }
    }
}

impl LevelFinder {
    /// The root of a search: level 0, draw 0, nothing counted or created yet.
    pub fn new() -> (r: Self)
        ensures
            r.level == 0,
            r.draw == 0,
            r.counter is Fresh,
            r.candidates is Fresh,
    {
        LevelFinder {
            level: 0,
            draw: 0,
            counter: Counter::default(),
            candidates: Candidates::default(),
        }
    }

    /// A fresh node for `draw` at `level`.
    pub fn next(level: i32, draw: i32) -> (r: Self)
        ensures
            r.level == level,
            r.draw == draw,
            r.counter is Fresh,
            r.candidates is Fresh,
    {
        LevelFinder {
            level: level,
            draw: draw,
            counter: Counter::default(),
            candidates: Candidates::default(),
        }
    }

    /// Count the number of draws top-down: `count_previous` draws lie above
    /// this node. The stopper node finishes with its own count; otherwise
    /// the node takes over a finished count of its children or is counted.
    pub fn count(&mut self, count_previous: i32) -> (r: &Counter)
        requires
            sums_fit(*old(self), count_previous as int),
        ensures
            count_post(*old(self), *final(self), count_previous as int),
            *r == final(self).counter,
            wf(*old(self)) ==> wf(*final(self)),
            height(*final(self)) == height(*old(self)),
        decreases *old(self),
    {
        proof {
            lemma_wf_unfold(*self);
        }
        if self.level == N_MAX_LEVELS && self.draw == NUMBER_STOPPER {
            self.counter = Counter::Done(self.draw + count_previous);
        } else {
            let count_next = count_previous + self.draw;
            self.counter = match self.candidates.count(count_next) {
                Counter::Fresh => Counter::Counted(count_next),
                Counter::Counted(_) => Counter::Counted(count_next),
                Counter::Done(num) => Counter::Done(num),
            };
        }
        proof {
            lemma_wf_unfold(*self);
        }
        &self.counter
    }
}

// ---------------------------------------------------------------------------
// Propagation (creating the next level)
// ---------------------------------------------------------------------------

/// `n` is a fresh node for `draw` at `level`.
pub open spec fn fresh_node(n: LevelFinder, level: int, draw: int) -> bool {
    &&& n.level == level
    &&& n.draw == draw
    &&& n.counter is Fresh
    &&& n.candidates is Fresh
}

/// `w` is a newly created level: one fresh node per draw `1..=N_MAX_CANDIDATES`.
pub open spec fn new_level(w: Seq<LevelFinder>, level: int) -> bool {
    &&& w.len() == N_MAX_CANDIDATES
    &&& forall|i: int| 0 <= i < w.len() ==> fresh_node(#[trigger] w[i], level, i + 1)
}

/// `new` is `old` after propagating: finished nodes stay as they are, other
/// nodes create their children or propagate into them.
pub open spec fn propagate_post(old: LevelFinder, new: LevelFinder) -> bool
    decreases old,
{
    &&& new.level == old.level
    &&& new.draw == old.draw
    &&& new.counter == old.counter
    &&& if old.counter is Done {
        new.candidates == old.candidates
    } else {
        cands_propagate_post(old.candidates, new.candidates, old.level + 1)
    }
}

pub open spec fn cands_propagate_post(old: Candidates, new: Candidates, level_next: int) -> bool
    decreases old,
{
    match old {
        Candidates::Fresh => new matches Candidates::Initialized(w) && new_level(w@, level_next),
        Candidates::Initialized(v) => new matches Candidates::Initialized(w) && list_propagate_post(
            v@,
            w@,
        ),
    }
}

pub open spec fn list_propagate_post(v: Seq<LevelFinder>, w: Seq<LevelFinder>) -> bool
    decreases v,
{
    &&& v.len() == w.len()
    &&& v.len() > 0 ==> list_propagate_post(v.subrange(0, v.len() - 1), w.subrange(0, w.len() - 1))
        && propagate_post(v[v.len() - 1], w[w.len() - 1])
}

/// Room to propagate: the node is shaped and may grow one level.
pub open spec fn can_grow(lf: LevelFinder) -> bool {
    shaped(lf) && lf.level + height(lf) < LEVEL_LIMIT
}

proof fn lemma_list_from_each(v: Seq<LevelFinder>, w: Seq<LevelFinder>, level: int)
    requires
        v.len() == w.len(),
        forall|i: int|
            0 <= i < v.len() ==> propagate_post(#[trigger] v[i], w[i]) && shaped(w[i]) && (wf(v[i])
                ==> wf(w[i])) && height(w[i]) <= height(v[i]) + 1 && w[i].level == v[i].level,
    ensures
        list_propagate_post(v, w),
        list_wf(v, level) ==> list_wf(w, level),
        list_shaped(v, level) ==> list_shaped(w, level),
        list_height(w) <= list_height(v) + 1,
    decreases v.len(),
{
    if v.len() > 0 {
        let pv = v.subrange(0, v.len() - 1);
        let pw = w.subrange(0, w.len() - 1);
        assert forall|i: int|
            0 <= i < pv.len() implies propagate_post(#[trigger] pv[i], pw[i]) && shaped(pw[i]) && (wf(
            pv[i],
        ) ==> wf(pw[i])) && height(pw[i]) <= height(pv[i]) + 1 && pw[i].level == pv[i].level by {
            assert(pv[i] == v[i] && pw[i] == w[i]);
        }
        lemma_list_from_each(pv, pw, level);
    }
}

proof fn lemma_new_level(w: Seq<LevelFinder>, level: int, k: int)
    requires
        0 <= k <= w.len(),
        level <= LEVEL_LIMIT,
        forall|i: int| 0 <= i < w.len() ==> fresh_node(#[trigger] w[i], level, i + 1),
        w.len() <= N_MAX_CANDIDATES,
    ensures
        0 <= level ==> list_wf(w.subrange(0, k), level),
        list_shaped(w.subrange(0, k), level),
        list_height(w.subrange(0, k)) == 0,
    decreases k,
{
    if k > 0 {
        lemma_new_level(w, level, k - 1);
        assert(w.subrange(0, k).subrange(0, k - 1) =~= w.subrange(0, k - 1));
        let x = w[k - 1];
        assert(fresh_node(x, level, k));
        assert(height(x) == 0);
        assert(0 <= level ==> wf(x));
        assert(shaped(x));
    }
}

/// Propagate every node of the list, in parallel.
#[verifier::external_body]
fn propagate_each(vec: &mut Vec<LevelFinder>)
    requires
        forall|i: int| 0 <= i < old(vec)@.len() ==> can_grow(#[trigger] old(vec)@[i]),
    ensures
        final(vec)@.len() == old(vec)@.len(),
        forall|i: int|
            0 <= i < old(vec)@.len() ==> propagate_post(#[trigger] old(vec)@[i], final(vec)@[i])
                && shaped(final(vec)@[i]) && (wf(old(vec)@[i]) ==> wf(final(vec)@[i])) && height(
                final(vec)@[i],
            ) <= height(old(vec)@[i]) + 1,
{
    vec.par_iter_mut().for_each(|x| x.propagate());
}

/// Stand-in for the expensive computation of a level (does nothing).
pub fn compute() {
}

impl Candidates {
    /// Replace the children by a new level: one fresh node per draw
    /// `1..=N_MAX_CANDIDATES` at `level_next`.
    pub fn create_next_level(&mut self, level_next: i32)
        ensures
            *final(self) matches Candidates::Initialized(w) && new_level(w@, level_next as int),
    {
        compute();
        let mut v: Vec<LevelFinder> = Vec::new();
        let mut i: i32 = 1;
        while i < N_MAX_CANDIDATES + 1
            invariant
                1 <= i <= N_MAX_CANDIDATES + 1,
                v@.len() == i - 1,
                forall|j: int| 0 <= j < v@.len() ==> fresh_node(#[trigger] v@[j], level_next as int, j + 1),
            decreases N_MAX_CANDIDATES + 1 - i,
        {
            v.push(LevelFinder::next(level_next, i));
            i = i + 1;
        }
        *self = Candidates::Initialized(v);
    }

    /// Propagate: create the next level if there are no children yet,
    /// otherwise propagate every child (in parallel).
    pub fn propagate(&mut self, level_next: i32)
        requires
            cands_shaped(*old(self), level_next as int),
            level_next + cands_height(*old(self)) <= LEVEL_LIMIT,
        ensures
            cands_propagate_post(*old(self), *final(self), level_next as int),
            cands_shaped(*final(self), level_next as int),
            cands_wf(*old(self), level_next as int) && 0 <= level_next ==> cands_wf(
                *final(self),
                level_next as int,
            ),
            cands_height(*final(self)) <= cands_height(*old(self)) + 1,
    {
        let ghost s0 = *self;
        if let Candidates::Initialized(vec) = self {
            let ghost v0 = *vec;
            proof {
                assert forall|i: int| 0 <= i < v0@.len() implies can_grow(#[trigger] v0@[i]) by {
                    lemma_list_elem(v0@, i, level_next as int);
                }
            }
            propagate_each(vec);
            proof {
                assert forall|i: int| 0 <= i < v0@.len() implies #[trigger] vec@[i].level == v0@[i].level by {
                    assert(propagate_post(v0@[i], vec@[i]));
                }
                lemma_list_from_each(v0@, vec@, level_next as int);
            }
        } else {
            self.create_next_level(level_next);
            let ghost s1 = *self;
            proof {
                if let Candidates::Initialized(w) = s1 {
                    lemma_new_level(w@, level_next as int, w@.len() as int);
                    assert(w@.subrange(0, w@.len() as int) =~= w@);
                }
            }
        }
    }
}

impl LevelFinder {
    /// Propagate to the next level, unless this node is finished.
    pub fn propagate(&mut self)
        requires
            old(self).counter is Done || can_grow(*old(self)),
        ensures
            propagate_post(*old(self), *final(self)),
            can_grow(*old(self)) ==> shaped(*final(self)),
            wf(*old(self)) ==> wf(*final(self)),
            height(*final(self)) <= height(*old(self)) + 1,
    {
        proof {
            lemma_wf_unfold(*self);
        }
        if let Counter::Done(_) = self.counter {
        } else {
            self.candidates.propagate(self.level + 1);
        }
        proof {
            lemma_wf_unfold(*self);
        }
    }

    /// Whether this node is finished.
    pub fn is_done(&self) -> (r: bool)
        ensures
            r == (self.counter is Done),
    {
        self.counter.is_done()
    }
}

// ---------------------------------------------------------------------------
// Status (bottom-up)
// ---------------------------------------------------------------------------

/// The count of a counted node; 1000 stands for "not counted" or "finished".
pub open spec fn counted_or_max(lf: LevelFinder) -> int {
    match lf.counter {
        Counter::Counted(n) => n as int,
        _ => 1000,
    }
}

/// The smallest `counted_or_max` of a non-empty list.
pub open spec fn min_counted(s: Seq<LevelFinder>) -> int
    decreases s.len(),
{
    if s.len() <= 1 {
        counted_or_max(s[0])
    } else {
        let a = min_counted(s.subrange(0, s.len() - 1));
        let b = counted_or_max(s[s.len() - 1]);
        if a <= b {
            a
        } else {
            b
        }
    }
}

/// Status of a list of children: the counter of the first finished child,
/// otherwise the smallest count (as `Counted`), `Fresh` without children.
pub open spec fn status_value(c: Candidates) -> Counter {
    match c {
        Candidates::Fresh => Counter::Fresh,
        Candidates::Initialized(v) => if first_done(v@) >= 0 {
            v@[first_done(v@)].counter
        } else if v@.len() == 0 {
            Counter::Fresh
        } else {
            Counter::Counted(min_counted(v@) as i32)
        },
    }
}

/// The counter of a node after the status update: finished when its
/// children report a finished count, unchanged otherwise.
pub open spec fn status_counter(lf: LevelFinder) -> Counter {
    match status_value(lf.candidates) {
        Counter::Done(n) => Counter::Done(n),
        _ => lf.counter,
    }
}

impl Candidates {
    /// The status of the children, computed bottom-up after counting.
    pub fn count_update_status(&self) -> (r: Counter)
        ensures
            r == status_value(*self),
    {
        if let Candidates::Initialized(vec) = &self {
            let mut i: usize = 0;
            while i < vec.len()
                invariant
                    Candidates::Initialized(*vec) == *self,
                    i <= vec@.len(),
                    first_done(vec@.subrange(0, i as int)) == -1,
                decreases vec@.len() - i,
            {
                assert(vec@.subrange(0, i as int + 1).subrange(0, i as int) =~= vec@.subrange(0, i as int));
                if vec[i].counter.is_done() {
                    proof {
                        lemma_first_done_prefix(vec@, i as int + 1);
                    }
                    return vec[i].counter;
                }
                i = i + 1;
            }
            assert(vec@.subrange(0, vec@.len() as int) =~= vec@);
            if vec.len() == 0 {
                return Counter::Fresh;
            }
            let mut min: i32 = match vec[0].counter {
                Counter::Counted(num) => num,
                _ => 1000,
            };
            let mut j: usize = 1;
            while j < vec.len()
                invariant
                    Candidates::Initialized(*vec) == *self,
                    1 <= j <= vec@.len(),
                    min == min_counted(vec@.subrange(0, j as int)),
                decreases vec@.len() - j,
            {
                let val: i32 = match vec[j].counter {
                    Counter::Counted(num) => num,
                    _ => 1000,
                };
                assert(vec@.subrange(0, j as int + 1).subrange(0, j as int) =~= vec@.subrange(0, j as int));
                if val < min {
                    min = val;
                }
                j = j + 1;
            }
            assert(vec@.subrange(0, vec@.len() as int) =~= vec@);
            return Counter::Counted(min);
        }
        Counter::Fresh
    }
}

impl LevelFinder {
    /// Update the status after counting: the node becomes finished when its
    /// children report a finished count. Returns the (new) counter.
    pub fn count_update_status(&mut self) -> (r: Counter)
        ensures
            final(self).level == old(self).level,
            final(self).draw == old(self).draw,
            final(self).candidates == old(self).candidates,
            final(self).counter == status_counter(*old(self)),
            r == final(self).counter,
    {
        if let Counter::Done(num) = self.candidates.count_update_status() {
            self.counter = Counter::Done(num);
        }
        self.counter
    }
}

// ---------------------------------------------------------------------------
// Pruning
// ---------------------------------------------------------------------------

/// Whether a node survives pruning against `n_draws_max` draws.
pub open spec fn keep(lf: LevelFinder, n_draws_max: int) -> bool {
    match lf.counter {
        Counter::Counted(num) => num < n_draws_max,
        Counter::Done(num) => num <= n_draws_max,
        Counter::Fresh => false,
    }
}

/// `new` is `old` after pruning every level below it against `n_draws_max`.
pub open spec fn prune_post(old: LevelFinder, new: LevelFinder, n_draws_max: int) -> bool
    decreases old,
{
    &&& new.level == old.level
    &&& new.draw == old.draw
    &&& new.counter == old.counter
    &&& cands_prune_post(old.candidates, new.candidates, n_draws_max)
}

pub open spec fn cands_prune_post(old: Candidates, new: Candidates, n_draws_max: int) -> bool
    decreases old,
{
    match old {
        Candidates::Fresh => new is Fresh,
        Candidates::Initialized(v) => new matches Candidates::Initialized(w) && list_prune_post(
            v@,
            w@,
            n_draws_max,
        ),
    }
}

/// `w` holds, in order, the pruned form of every node of `v` that is kept.
pub open spec fn list_prune_post(v: Seq<LevelFinder>, w: Seq<LevelFinder>, n_draws_max: int) -> bool
    decreases v,
{
    if v.len() == 0 {
        w.len() == 0
    } else if keep(v[v.len() - 1], n_draws_max) {
        &&& w.len() > 0
        &&& list_prune_post(v.subrange(0, v.len() - 1), w.subrange(0, w.len() - 1), n_draws_max)
        &&& prune_post(v[v.len() - 1], w[w.len() - 1], n_draws_max)
    } else {
        list_prune_post(v.subrange(0, v.len() - 1), w, n_draws_max)
    }
}

impl Candidates {
    /// Drop every child that cannot beat `n_draws_max` draws (counted ones
    /// must stay below it, finished ones may reach it, fresh ones go), then
    /// prune the kept children.
    pub fn prune(&mut self, n_draws_max: i32)
        ensures
            cands_prune_post(*old(self), *final(self), n_draws_max as int),
            forall|l: int| cands_wf(*old(self), l) ==> cands_wf(*final(self), l),
            cands_height(*final(self)) <= cands_height(*old(self)),
        decreases *old(self),
    {
        let ghost s0 = *self;
        let mut taken = Candidates::Fresh;
        std::mem::swap(&mut taken, self);
        match taken {
            Candidates::Fresh => {},
            Candidates::Initialized(mut vec) => {
                let ghost vec0 = vec;
                let ghost orig = vec@;
                let n = vec.len();
                let mut new_v: Vec<LevelFinder> = Vec::new();
                let mut k: usize = 0;
                assert(orig.subrange(0, 0) =~= Seq::<LevelFinder>::empty());
                while k < n
                    invariant
                        s0 == *old(self),
                        s0 == Candidates::Initialized(vec0),
                        vec0@ == orig,
                        n == orig.len(),
                        k <= n,
                        vec@ == orig.subrange(k as int, n as int),
                        list_prune_post(orig.subrange(0, k as int), new_v@, n_draws_max as int),
                        list_height(new_v@) <= list_height(orig.subrange(0, k as int)),
                        forall|l: int|
                            list_wf(orig.subrange(0, k as int), l) ==> list_wf(new_v@, l),
                    decreases n - k,
                {
                    let ghost pre = orig.subrange(0, k as int);
                    let ghost pre1 = orig.subrange(0, k as int + 1);
                    let mut x = vec.remove(0);
                    proof {
                        assert(x == orig[k as int]);
                        assert(pre1 =~= pre.push(x));
                        assert(pre1.subrange(0, k as int) =~= pre);
                        vstd::std_specs::vec::axiom_vec_index_decreases(vec0, k as int);
                        assert(s0->0 == vec0);
                        assert(decreases_to!(s0 => s0->0));
                        assert(decreases_to!(s0 => x));
                        lemma_list_push(pre, orig[k as int], 0);
                    }
                    let kept = match x.counter {
                        Counter::Counted(num) => num < n_draws_max,
                        Counter::Done(num) => num <= n_draws_max,
                        Counter::Fresh => false,
                    };
                    if kept {
                        x.prune(n_draws_max);
                        proof {
                            lemma_list_push(new_v@, x, 0);
                            assert forall|l: int| list_wf(pre1, l) implies list_wf(new_v@.push(x), l) by {
                                lemma_list_push(pre, orig[k as int], l);
                                lemma_list_push(new_v@, x, l);
                            }
                            assert(new_v@.push(x).subrange(0, new_v@.len() as int) =~= new_v@);
                        }
                        new_v.push(x);
                    } else {
                        proof {
                            assert forall|l: int| list_wf(pre1, l) implies list_wf(new_v@, l) by {
                                lemma_list_push(pre, orig[k as int], l);
                            }
                        }
                    }
                    assert(vec@ =~= orig.subrange(k as int + 1, n as int));
                    k = k + 1;
                }
                assert(orig.subrange(0, n as int) =~= orig);
                *self = Candidates::Initialized(new_v);
            },
        }
    }
}

impl LevelFinder {
    /// Prune all levels below this node against `num` draws.
    pub fn prune(&mut self, num: i32)
        ensures
            prune_post(*old(self), *final(self), num as int),
            wf(*old(self)) ==> wf(*final(self)),
            height(*final(self)) <= height(*old(self)),
        decreases *old(self),
    {
        proof {
            lemma_wf_unfold(*self);
        }
        self.candidates.prune(num);
        proof {
            lemma_wf_unfold(*self);
        }
    }

    /// Prune below a finished node against its own count.
    pub fn prune_initiate(&mut self)
        ensures
            match old(self).counter {
                Counter::Done(num) => prune_post(*old(self), *final(self), num as int),
                _ => *final(self) == *old(self),
            },
            wf(*old(self)) ==> wf(*final(self)),
            height(*final(self)) <= height(*old(self)),
    {
        if let Counter::Done(num) = self.counter {
            self.prune(num);
        }
    }
}

// ---------------------------------------------------------------------------
// Solving
// ---------------------------------------------------------------------------

/// Number of rounds the search runs at most.
pub const N_ROUNDS: i32 = N_MAX_LEVELS + 5;

pub open spec fn with_counter(lf: LevelFinder, c: Counter) -> LevelFinder {
    LevelFinder { level: lf.level, draw: lf.draw, counter: c, candidates: lf.candidates }
}

/// `new` is `old` after pruning below it if it is finished.
pub open spec fn prune_initiate_post(old: LevelFinder, new: LevelFinder) -> bool {
    match old.counter {
        Counter::Done(num) => prune_post(old, new, num as int),
        _ => new == old,
    }
}

/// One round of the search: propagate, count from the root with no draws
/// above it, update the status, prune below a finished root.
pub open spec fn solve_round(a: LevelFinder, b: LevelFinder) -> bool {
    exists|m1: LevelFinder, m2: LevelFinder|
        #![trigger propagate_post(a, m1), count_post(m1, m2, 0)]
        propagate_post(a, m1) && count_post(m1, m2, 0) && prune_initiate_post(
            with_counter(m2, status_counter(m2)),
            b,
        )
}

/// The states of a search: it runs round after round and stops after the
/// first round that finishes the root, or after `N_ROUNDS` rounds.
pub open spec fn solve_trace(tr: Seq<LevelFinder>) -> bool {
    &&& 2 <= tr.len() <= N_ROUNDS + 1
    &&& forall|i: int| 0 <= i < tr.len() - 1 ==> #[trigger] solve_round(tr[i], tr[i + 1])
    &&& forall|i: int| 1 <= i < tr.len() - 1 ==> !(#[trigger] tr[i].counter is Done)
    &&& tr.len() == N_ROUNDS + 1 || tr[tr.len() - 1].counter is Done
}

impl LevelFinder {
    /// Run the search: round after round propagate, count, update the status
    /// and prune, until the root is finished or `N_ROUNDS` rounds have run.
    pub fn solve(&mut self)
        requires
            wf(*old(self)),
            old(self).level + height(*old(self)) + N_ROUNDS < LEVEL_LIMIT,
        ensures
            exists|tr: Seq<LevelFinder>|
                #![trigger solve_trace(tr)]
                solve_trace(tr) && tr[0] == *old(self) && tr[tr.len() - 1] == *final(self),
            wf(*final(self)),
    {
        let ghost mut trace = seq![*self];
        let mut round: i32 = 0;
        loop
            invariant_except_break
                0 <= round < N_ROUNDS,
                wf(*self),
                self.level + height(*self) + (N_ROUNDS - round) < LEVEL_LIMIT,
                trace.len() == round + 1,
                trace[0] == *old(self),
                trace[trace.len() - 1] == *self,
                forall|i: int| 0 <= i < trace.len() - 1 ==> #[trigger] solve_round(trace[i], trace[i + 1]),
                forall|i: int| 1 <= i < trace.len() ==> !(#[trigger] trace[i].counter is Done),
            ensures
                solve_trace(trace),
                trace[0] == *old(self),
                trace[trace.len() - 1] == *self,
                wf(*self),
            decreases N_ROUNDS - round,
        {
            let ghost a = *self;
            proof {
                lemma_wf_shaped(*self);
            }
            self.propagate();
            let ghost m1 = *self;
            proof {
                lemma_wf_unfold(*self);
                lemma_wf_sums_fit(*self, 0);
            }
            self.count(0);
            let ghost m2 = *self;
            self.count_update_status();
            proof {
                assert(*self == with_counter(m2, status_counter(m2)));
                lemma_wf_unfold(m2);
                lemma_wf_unfold(*self);
            }
            self.prune_initiate();
            proof {
                assert(solve_round(a, *self));
                trace = trace.push(*self);
                assert(trace[trace.len() - 2] == a);
            }
            if self.is_done() {
                break;
            }
            round = round + 1;
            if round == N_ROUNDS {
                break;
            }
        }
        assert(solve_trace(trace));
    }
}

// ---------------------------------------------------------------------------
// Laws of the status update and of pruning
// ---------------------------------------------------------------------------

proof fn lemma_first_done_none(s: Seq<LevelFinder>)
    ensures
        first_done(s) == -1 ==> forall|i: int| 0 <= i < s.len() ==> !(#[trigger] s[i].counter is Done),
        first_done(s) >= 0 ==> forall|i: int| 0 <= i < first_done(s) ==> !(#[trigger] s[i].counter is Done),
    decreases s.len(),
{
    lemma_first_done_bound(s);
    if s.len() > 0 {
        let p = s.subrange(0, s.len() - 1);
        lemma_first_done_none(p);
        lemma_first_done_bound(p);
        let fp = first_done(p);
        assert forall|i: int| 0 <= i < p.len() implies #[trigger] p[i] == s[i] by {}
        if first_done(s) == -1 {
            assert(fp < 0);
            assert forall|i: int| 0 <= i < s.len() implies !(#[trigger] s[i].counter is Done) by {
                if i < p.len() {
                    assert(p[i] == s[i]);
                }
            }
        }
        if first_done(s) >= 0 {
            assert forall|i: int| 0 <= i < first_done(s) implies !(#[trigger] s[i].counter is Done) by {
                assert(i < p.len());
                assert(p[i] == s[i]);
                if fp >= 0 {
                    assert(first_done(s) == fp);
                } else {
                    assert(!(p[i].counter is Done));
                }
            }
        }
    }
}

proof fn lemma_min_counted_least(s: Seq<LevelFinder>)
    requires
        s.len() > 0,
    ensures
        forall|i: int| 0 <= i < s.len() ==> min_counted(s) <= counted_or_max(#[trigger] s[i]),
        exists|i: int| 0 <= i < s.len() && min_counted(s) == counted_or_max(#[trigger] s[i]),
    decreases s.len(),
{
    if s.len() > 1 {
        let p = s.subrange(0, s.len() - 1);
        lemma_min_counted_least(p);
        let a = min_counted(p);
        let b = counted_or_max(s[s.len() - 1]);
        assert(min_counted(s) == if a <= b { a } else { b });
        assert forall|i: int| 0 <= i < s.len() implies min_counted(s) <= counted_or_max(#[trigger] s[i]) by {
            if i < p.len() {
                assert(p[i] == s[i]);
                assert(a <= counted_or_max(p[i]));
            }
        }
        let i0 = choose|i: int| 0 <= i < p.len() && min_counted(p) == counted_or_max(#[trigger] p[i]);
        assert(p[i0] == s[i0]);
        if a <= b {
            assert(min_counted(s) == counted_or_max(s[i0]));
        } else {
            assert(min_counted(s) == counted_or_max(s[s.len() - 1]));
        }
    } else {
        assert(counted_or_max(s[0]) == min_counted(s));
    }
}

/// The status of a list of children: the counter of its first finished
/// child when one is finished; otherwise, for a non-empty list, the least
/// count among the children (a child not counted stands for 1000), as
/// `Counted`; `Fresh` for no children.
pub proof fn lemma_status_is_least(v: Vec<LevelFinder>)
    ensures
        (exists|i: int| 0 <= i < v@.len() && (#[trigger] v@[i]).counter is Done) ==> exists|i: int|
            0 <= i < v@.len() && status_value(Candidates::Initialized(v)) == (#[trigger] v@[i]).counter
                && v@[i].counter is Done && forall|j: int| 0 <= j < i ==> !(#[trigger] v@[j].counter is Done),
        v@.len() > 0 && (forall|i: int| 0 <= i < v@.len() ==> !(#[trigger] v@[i].counter is Done)) ==> {
            &&& status_value(Candidates::Initialized(v)) is Counted
            &&& forall|i: int|
                0 <= i < v@.len() ==> status_value(Candidates::Initialized(v))->Counted_0 <= match (
                #[trigger] v@[i]).counter {
                    Counter::Counted(k) => k as int,
                    _ => 1000,
                }
            &&& exists|i: int|
                0 <= i < v@.len() && status_value(Candidates::Initialized(v))->Counted_0 == match (
                #[trigger] v@[i]).counter {
                    Counter::Counted(k) => k as int,
                    _ => 1000,
                }
        },
        v@.len() == 0 ==> status_value(Candidates::Initialized(v)) == Counter::Fresh,
        status_value(Candidates::Fresh) == Counter::Fresh,
{
    let s = v@;
    lemma_first_done_bound(s);
    lemma_first_done_none(s);
    if s.len() > 0 {
        lemma_min_counted_least(s);
        let i0 = choose|i: int| 0 <= i < s.len() && min_counted(s) == counted_or_max(#[trigger] s[i]);
        assert(-2147483648 <= min_counted(s) <= 2147483647);
        assert forall|i: int| 0 <= i < s.len() implies counted_or_max(#[trigger] s[i]) == match s[i].counter {
            Counter::Counted(k) => k as int,
            _ => 1000,
        } by {}
    }
    if exists|i: int| 0 <= i < s.len() && (#[trigger] s[i]).counter is Done {
        assert(first_done(s) >= 0);
    }
}

#[verifier::spinoff_prover]
proof fn lemma_list_prune_map(v: Seq<LevelFinder>, w: Seq<LevelFinder>, n: int)
    requires
        list_prune_post(v, w, n),
    ensures
        forall|i: int| 0 <= i < v.len() && keep(v[i], n) ==> exists|j: int| 0 <= j < w.len() && prune_post(#[trigger] v[i], w[j], n),
        forall|j: int| 0 <= j < w.len() ==> exists|i: int| 0 <= i < v.len() && keep(v[i], n) && prune_post(v[i], #[trigger] w[j], n),
    decreases v.len(),
{
    if v.len() > 0 {
        let vp = v.subrange(0, v.len() - 1);
        assert forall|i: int| 0 <= i < vp.len() implies #[trigger] vp[i] == v[i] by {}
        if keep(v[v.len() - 1], n) {
            let wp = w.subrange(0, w.len() - 1);
            lemma_list_prune_map(vp, wp, n);
            assert forall|i: int| 0 <= i < v.len() && keep(v[i], n) implies exists|j: int| 0 <= j < w.len() && prune_post(#[trigger] v[i], w[j], n) by {
                if i < vp.len() {
                    let j = choose|j: int| 0 <= j < wp.len() && prune_post(#[trigger] vp[i], wp[j], n);
                    assert(w[j] == wp[j]);
                } else {
                    assert(prune_post(v[i], w[w.len() - 1], n));
                }
            }
            assert forall|j: int| 0 <= j < w.len() implies exists|i: int| 0 <= i < v.len() && keep(v[i], n) && prune_post(v[i], #[trigger] w[j], n) by {
                if j < wp.len() {
                    assert(w[j] == wp[j]);
                    let i = choose|i: int| 0 <= i < vp.len() && keep(vp[i], n) && prune_post(vp[i], #[trigger] wp[j], n);
                } else {
                    let i = v.len() - 1;
                    assert(keep(v[i], n));
                    assert(prune_post(v[i], w[j], n));
                }
            }
        } else {
            lemma_list_prune_map(vp, w, n);
            assert forall|i: int| 0 <= i < v.len() && keep(v[i], n) implies exists|j: int| 0 <= j < w.len() && prune_post(#[trigger] v[i], w[j], n) by {
                assert(i < vp.len());
                assert(vp[i] == v[i]);
                assert(keep(vp[i], n));
                let j = choose|j: int| 0 <= j < w.len() && prune_post(#[trigger] vp[i], w[j], n);
            }
            assert forall|j: int| 0 <= j < w.len() implies exists|i: int| 0 <= i < v.len() && keep(v[i], n) && prune_post(v[i], #[trigger] w[j], n) by {
                let i = choose|i: int| 0 <= i < vp.len() && keep(vp[i], n) && prune_post(vp[i], #[trigger] w[j], n);
                assert(vp[i] == v[i]);
            }
        }
    }
}

/// Pruning children against `n` draws keeps (with the same level, draw and
/// counter) every child finished within `n` draws and every child counted
/// below `n`, and keeps no other child.
pub proof fn lemma_prune_keeps_within(old: Candidates, new: Candidates, n: int)
    requires
        cands_prune_post(old, new, n),
    ensures
        old is Fresh ==> new is Fresh,
        old matches Candidates::Initialized(v) ==> new matches Candidates::Initialized(w) && (forall|i: int|
            0 <= i < v@.len() && match (#[trigger] v@[i]).counter {
                Counter::Done(m) => m <= n,
                Counter::Counted(m) => m < n,
                Counter::Fresh => false,
            } ==> exists|j: int|
                0 <= j < w@.len() && w@[j].level == v@[i].level && w@[j].draw == v@[i].draw && w@[j].counter
                    == v@[i].counter) && (forall|j: int|
            0 <= j < w@.len() ==> exists|i: int|
                0 <= i < v@.len() && (#[trigger] w@[j]).level == v@[i].level && w@[j].draw == v@[i].draw
                    && w@[j].counter == v@[i].counter && match v@[i].counter {
                    Counter::Done(m) => m <= n,
                    Counter::Counted(m) => m < n,
                    Counter::Fresh => false,
                }),
{
    if let Candidates::Initialized(v) = old {
        if let Candidates::Initialized(w) = new {
            lemma_list_prune_map(v@, w@, n);
        }
    }
}

/// After a round that finishes a node other than the stopper, the node
/// still has a child whose counter is the node's finished counter: pruning
/// never loses the path that reached the best count.
pub proof fn lemma_finished_round_keeps_path(a: LevelFinder, b: LevelFinder)
    requires
        solve_round(a, b),
        !is_stopper(a),
        b.counter is Done,
    ensures
        b.candidates matches Candidates::Initialized(w) && exists|j: int| 0 <= j < w@.len() && (#[trigger] w@[j]).counter
            == b.counter,
{
    let (m1, m2) = choose|m1: LevelFinder, m2: LevelFinder|
        #![trigger propagate_post(a, m1), count_post(m1, m2, 0)]
        propagate_post(a, m1) && count_post(m1, m2, 0) && prune_initiate_post(with_counter(m2, status_counter(m2)), b);
    let c = with_counter(m2, status_counter(m2));
    let num = match c.counter {
        Counter::Done(k) => k,
        _ => 0,
    };
    assert(c.counter == Counter::Done(num));
    assert(prune_post(c, b, num as int));
    // the children of m2 have a finished child with the counter `Done(num)`
    if let Candidates::Initialized(v1) = m1.candidates {
        lemma_first_done_bound(v1@);
    }
    if let Candidates::Initialized(v) = m2.candidates {
        lemma_first_done_bound(v@);
        lemma_first_done_none(v@);
    }
    assert(m2.candidates matches Candidates::Initialized(v) && first_done(v@) >= 0 && v@[first_done(v@)].counter
        == Counter::Done(num));
    if let Candidates::Initialized(v) = m2.candidates {
        if let Candidates::Initialized(w) = b.candidates {
            let i = first_done(v@);
            assert(keep(v@[i], num as int));
            lemma_list_prune_map(v@, w@, num as int);
            let j = choose|j: int| 0 <= j < w@.len() && prune_post(#[trigger] v@[i], w@[j], num as int);
        }
    }
}

/// A search run by `solve` from a node other than the stopper that ends
/// finished still has a child with its finished counter.
pub proof fn lemma_solved_keeps_path(tr: Seq<LevelFinder>)
    requires
        solve_trace(tr),
        !is_stopper(tr[0]),
        tr[tr.len() - 1].counter is Done,
    ensures
        tr[tr.len() - 1].candidates matches Candidates::Initialized(w) && exists|j: int|
            0 <= j < w@.len() && (#[trigger] w@[j]).counter == tr[tr.len() - 1].counter,
{
    lemma_rounds_keep_stopper(tr, tr.len() - 2);
    assert(solve_round(tr[tr.len() - 2], tr[tr.len() - 2 + 1]));
    lemma_finished_round_keeps_path(tr[tr.len() - 2], tr[tr.len() - 1]);
}

proof fn lemma_rounds_keep_stopper(tr: Seq<LevelFinder>, k: int)
    requires
        solve_trace(tr),
        0 <= k < tr.len(),
    ensures
        is_stopper(tr[k]) == is_stopper(tr[0]),
    decreases k,
{
    if k > 0 {
        lemma_rounds_keep_stopper(tr, k - 1);
        let i = k - 1;
        assert(solve_round(tr[i], tr[i + 1]));
        let (m1, m2) = choose|m1: LevelFinder, m2: LevelFinder|
            #![trigger propagate_post(tr[k - 1], m1), count_post(m1, m2, 0)]
            propagate_post(tr[k - 1], m1) && count_post(m1, m2, 0) && prune_initiate_post(
                with_counter(m2, status_counter(m2)),
                tr[k],
            );
    }
}

} // verus!
