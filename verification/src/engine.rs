//! The step-recording sort engine. Each entry point copies its input, sorts
//! the copy in place with one classic algorithm, and appends to a step log a
//! full snapshot of the sequence after every swap, preceded by one initial
//! no-swap snapshot. The mathematical models [`insertion_log`],
//! [`selection_log`] and [`bubble_log`] pin the returned log down exactly.

use crate::note::{le, lt, note_lt, Note};
use vstd::prelude::*;
use vstd::seq_lib::to_multiset_update;

verus! {

/// Sentinel index recorded for the initial step, where nothing was swapped.
/// It is distinct from every valid position.
pub const NO_SWAP: i32 = -1;

/// One recorded step: the full state of the working sequence right after a
/// swap, plus the two positions that were exchanged ([`NO_SWAP`] twice for
/// the initial step).
#[derive(Debug, Clone, PartialEq, Eq)]
pub struct Step {
    /// Full copy of the working sequence at this point in time.
    pub snapshot: Vec<Note>,
    /// First swapped position, or [`NO_SWAP`].
    pub index_a: i32,
    /// Second swapped position, or [`NO_SWAP`].
    pub index_b: i32,
}

/// Mathematical value of a [`Step`].
pub ghost struct SpecStep {
    pub snapshot: Seq<Note>,
    pub index_a: int,
    pub index_b: int,
}

impl View for Step {
    type V = SpecStep;

    open spec fn view(&self) -> SpecStep {
        SpecStep {
            snapshot: self.snapshot@,
            index_a: self.index_a as int,
            index_b: self.index_b as int,
        }
    }
}

/// Mathematical value of a whole step log.
pub open spec fn log_view(log: Seq<Step>) -> Seq<SpecStep> {
    log.map_values(|st: Step| st@)
}

/// The sequence `s` with the values at positions `a` and `b` exchanged.
pub open spec fn swap_seq(s: Seq<Note>, a: int, b: int) -> Seq<Note> {
    s.update(a, s[b]).update(b, s[a])
}

/// The initial step recorded before any mutation: the unsorted input with
/// sentinel indices.
pub open spec fn initial_step(s: Seq<Note>) -> SpecStep {
    SpecStep { snapshot: s, index_a: NO_SWAP as int, index_b: NO_SWAP as int }
}

/// `s` is sorted in non-decreasing domain order on the index range
/// `[lo, hi)`.
pub open spec fn sorted_range(s: Seq<Note>, lo: int, hi: int) -> bool {
    forall|k: int, l: int| lo <= k < l < hi && 0 <= k && l < s.len() ==> le(s[k], s[l])
}

/// `s` is sorted in non-decreasing domain order.
pub open spec fn is_sorted(s: Seq<Note>) -> bool {
    sorted_range(s, 0, s.len() as int)
}

/// `cur` is a well-formed successor of a step whose snapshot was `prev` in a
/// log over sequences of length `n`: its two indices are valid, distinct
/// positions, and its snapshot is `prev` with exactly those two positions'
/// values exchanged.
pub open spec fn valid_swap(prev: Seq<Note>, cur: SpecStep, n: int) -> bool {
    &&& 0 <= cur.index_a < n
    &&& 0 <= cur.index_b < n
    &&& cur.index_a != cur.index_b
    &&& cur.snapshot == swap_seq(prev, cur.index_a, cur.index_b)
    &&& cur.snapshot.len() == n
}

/// The recording discipline every engine run obeys: at least the initial
/// step, and every later step a [`valid_swap`] of its predecessor.
pub open spec fn log_wf(log: Seq<SpecStep>, n: int) -> bool {
    &&& log.len() >= 1
    &&& log[0].snapshot.len() == n
    &&& forall|k: int| 1 <= k < log.len() ==> valid_swap(log[k - 1].snapshot, #[trigger] log[k], n)
}

/// Swapping two valid positions leaves the multiset of values unchanged.
pub proof fn lemma_swap_multiset(s: Seq<Note>, a: int, b: int)
    requires
        0 <= a < s.len(),
        0 <= b < s.len(),
    ensures
        swap_seq(s, a, b).to_multiset() == s.to_multiset(),
{
    broadcast use vstd::seq_lib::group_to_multiset_ensures;
    broadcast use vstd::multiset::group_multiset_axioms;

    let s1 = s.update(a, s[b]);
    to_multiset_update(s, a, s[b]);
    to_multiset_update(s1, b, s[a]);
    assert(s.contains(s[a]));
    assert(s.contains(s[b]));
    assert(s1[b] == s[b] || a == b);
    assert(swap_seq(s, a, b).to_multiset() =~= s.to_multiset());
}

/// A fresh element-for-element copy of a note sequence; the engine works on
/// such a private copy so that the caller's sequence is never mutated.
fn copy_notes(v: &Vec<Note>) -> (r: Vec<Note>)
    ensures
        r@ == v@,
{
    let mut r: Vec<Note> = Vec::new();
    let mut i: usize = 0;
    while i < v.len()
        invariant
            i <= v@.len(),
            r@ =~= v@.subrange(0, i as int),
        decreases v@.len() - i,
    {
        r.push(v[i]);
        i += 1;
    }
    proof {
        assert(r@ =~= v@);
    }
    r
}

/// Exchange the values at positions `a` and `b` of the working sequence.
fn swap_notes(v: &mut Vec<Note>, a: usize, b: usize)
    requires
        a < old(v)@.len(),
        b < old(v)@.len(),
    ensures
        final(v)@ == swap_seq(old(v)@, a as int, b as int),
        final(v)@.len() == old(v)@.len(),
{
    let x = v[a];
    let y = v[b];
    v.set(a, y);
    v.set(b, x);
}

/// Build one step record: a full copy of the current working sequence plus
/// the two indices just swapped (or the sentinels, for the initial step).
fn make_step(notes: &Vec<Note>, swap_a: i32, swap_b: i32) -> (r: Step)
    ensures
        r@ == (SpecStep { snapshot: notes@, index_a: swap_a as int, index_b: swap_b as int }),
{
    Step { snapshot: copy_notes(notes), index_a: swap_a, index_b: swap_b }
}

/// State of the working sequence after insertion sort's inner descent: while
/// position `j` holds a value strictly below its left neighbour, the two are
/// exchanged and `j` moves left.
pub open spec fn ins_inner_state(s: Seq<Note>, j: int) -> Seq<Note>
    decreases j,
{
    if j > 0 && j < s.len() && lt(s[j], s[j - 1]) {
        ins_inner_state(swap_seq(s, j - 1, j), j - 1)
    } else {
        s
    }
}

/// Steps emitted during insertion sort's inner descent, in order: one step
/// per exchange, recording the state right after that exchange.
pub open spec fn ins_inner_log(s: Seq<Note>, j: int) -> Seq<SpecStep>
    decreases j,
{
    if j > 0 && j < s.len() && lt(s[j], s[j - 1]) {
        let s2 = swap_seq(s, j - 1, j);
        seq![SpecStep { snapshot: s2, index_a: j - 1, index_b: j }] + ins_inner_log(s2, j - 1)
    } else {
        Seq::empty()
    }
}

/// State after insertion sort has processed positions `i, i+1, .., n-1`.
pub open spec fn ins_outer_state(s: Seq<Note>, i: int, n: int) -> Seq<Note>
    decreases n - i,
{
    if 1 <= i < n {
        ins_outer_state(ins_inner_state(s, i), i + 1, n)
    } else {
        s
    }
}

/// Steps emitted while insertion sort processes positions `i, .., n-1`.
pub open spec fn ins_outer_log(s: Seq<Note>, i: int, n: int) -> Seq<SpecStep>
    decreases n - i,
{
    if 1 <= i < n {
        ins_inner_log(s, i) + ins_outer_log(ins_inner_state(s, i), i + 1, n)
    } else {
        Seq::empty()
    }
}

/// The exact step log insertion sort produces on input `s`: the initial
/// no-swap snapshot followed by one step per exchange, in chronological
/// order.
pub open spec fn insertion_log(s: Seq<Note>) -> Seq<SpecStep> {
    seq![initial_step(s)] + ins_outer_log(s, 1, s.len() as int)
}

/// Step-recording insertion sort. Works on a private copy of `input`; for
/// each position `i` from left to right, the value there descends by
/// adjacent exchanges until its left neighbour is not strictly greater, and
/// every exchange is recorded. Equal values are never exchanged.
pub fn insertion_sort_steps(input: &Vec<Note>) -> (r: Vec<Step>)
    requires
        input@.len() < 0x8000_0000,
    ensures
        log_view(r@) == insertion_log(input@),
        log_wf(log_view(r@), input@.len() as int),
        r@.len() >= 1,
        r@[0]@ == initial_step(input@),
        r@[r@.len() - 1]@.snapshot.len() == input@.len(),
        is_sorted(r@[r@.len() - 1]@.snapshot),
        r@[r@.len() - 1]@.snapshot.to_multiset() == input@.to_multiset(),
{
    let ghost s0 = input@;
    let ghost nn = input@.len() as int;
    let mut notes = copy_notes(input);
    let n = notes.len();
    let mut steps: Vec<Step> = Vec::new();
    let st0 = make_step(&notes, NO_SWAP, NO_SWAP);
    steps.push(st0);
    proof {
        assert(log_view(steps@) =~= seq![initial_step(s0)]);
    }
    let mut i: usize = 1;
    while i < n
        invariant
            notes@.len() == n,
            s0.len() == n,
            n < 0x8000_0000,
            nn == n as int,
            1 <= i as int <= nn + 1,
            ins_outer_state(s0, 1, nn) == ins_outer_state(notes@, i as int, nn),
            seq![initial_step(s0)] + ins_outer_log(s0, 1, nn) == log_view(steps@)
                + ins_outer_log(notes@, i as int, nn),
            steps@.len() >= 1,
            log_view(steps@)[0] == initial_step(s0),
            log_wf(log_view(steps@), nn),
            steps@[steps@.len() - 1]@.snapshot == notes@,
            notes@.to_multiset() == s0.to_multiset(),
            sorted_range(notes@, 0, i as int),
        decreases n - i,
    {
        let ghost s_i = notes@;
        let ghost pre_log = log_view(steps@);
        let ghost ii = i as int;
        let mut j: usize = i;
        while j > 0 && note_lt(notes[j], notes[j - 1])
            invariant
                notes@.len() == n,
                s0.len() == n,
                n < 0x8000_0000,
                nn == n as int,
                1 <= ii < nn,
                ii == i as int,
                j <= i,
                ins_inner_state(s_i, ii) == ins_inner_state(notes@, j as int),
                pre_log + ins_inner_log(s_i, ii) == log_view(steps@)
                    + ins_inner_log(notes@, j as int),
                steps@.len() >= 1,
                log_view(steps@)[0] == initial_step(s0),
                log_wf(log_view(steps@), nn),
                steps@[steps@.len() - 1]@.snapshot == notes@,
                notes@.to_multiset() == s0.to_multiset(),
                forall|k: int, l: int| 0 <= k < l <= ii && l != j as int ==> le(
                    notes@[k],
                    notes@[l],
                ),
            decreases j,
        {
            let ghost before = notes@;
            let ghost log_before = log_view(steps@);
            let ghost jj = j as int;
            swap_notes(&mut notes, j - 1, j);
            let stp = make_step(&notes, (j - 1) as i32, j as i32);
            steps.push(stp);
            proof {
                assert(notes@ == swap_seq(before, jj - 1, jj));
                assert(log_view(steps@) =~= log_before.push(stp@));
                lemma_swap_multiset(before, jj - 1, jj);
                // One unfolding of the inner model at (before, jj).
                assert(ins_inner_state(before, jj) == ins_inner_state(notes@, jj - 1));
                assert(ins_inner_log(before, jj) =~= seq![stp@] + ins_inner_log(notes@, jj - 1));
                assert(pre_log + ins_inner_log(s_i, ii) =~= log_view(steps@) + ins_inner_log(
                    notes@,
                    jj - 1,
                ));
                // The pushed step is a valid successor of the previous one.
                assert(valid_swap(before, stp@, nn));
                assert(log_wf(log_view(steps@), nn));
            }
            j = j - 1;
        }
        proof {
            let jj = j as int;
            // The inner descent has stopped: the model is fully unfolded.
            assert(ins_inner_state(notes@, jj) == notes@);
            assert(ins_inner_log(notes@, jj) =~= Seq::<SpecStep>::empty());
            assert(ins_inner_state(s_i, ii) == notes@);
            assert(pre_log + ins_inner_log(s_i, ii) =~= log_view(steps@));
            // One unfolding of the outer model at (s_i, ii).
            assert(ins_outer_state(s_i, ii, nn) == ins_outer_state(notes@, ii + 1, nn));
            assert(ins_outer_log(s_i, ii, nn) =~= ins_inner_log(s_i, ii) + ins_outer_log(
                notes@,
                ii + 1,
                nn,
            ));
            assert(seq![initial_step(s0)] + ins_outer_log(s0, 1, nn) =~= log_view(steps@)
                + ins_outer_log(notes@, ii + 1, nn));
            // Positions 0 ..= ii are now in order.
            assert forall|k: int, l: int| 0 <= k < l <= ii implies le(notes@[k], notes@[l]) by {
                if l == jj && jj > 0 {
                    assert(le(notes@[jj - 1], notes@[jj]));
                    if k < jj - 1 {
                        assert(le(notes@[k], notes@[jj - 1]));
                    }
                }
            }
            assert(sorted_range(notes@, 0, ii + 1));
        }
        i = i + 1;
    }
    proof {
        assert(ins_outer_state(notes@, i as int, nn) == notes@);
        assert(ins_outer_log(notes@, i as int, nn) =~= Seq::<SpecStep>::empty());
        assert(log_view(steps@) =~= seq![initial_step(s0)] + ins_outer_log(s0, 1, nn));
        assert(is_sorted(notes@));
    }
    steps
}

/// Index of the smallest value in `s[j ..]`, given that `m` is the index of
/// the first-seen smallest value so far: the scan moves right and switches
/// to `j` only on a strictly smaller value, so the first minimum wins ties.
pub open spec fn sel_min_from(s: Seq<Note>, j: int, m: int) -> int
    decreases s.len() - j,
{
    if 0 <= j < s.len() {
        if lt(s[j], s[m]) {
            sel_min_from(s, j + 1, j)
        } else {
            sel_min_from(s, j + 1, m)
        }
    } else {
        m
    }
}

/// State after selection sort has processed positions `i, i+1, .., n-1`:
/// each round swaps position `i` with the first-seen minimum of the
/// remaining range, unless position `i` already holds it.
pub open spec fn sel_outer_state(s: Seq<Note>, i: int, n: int) -> Seq<Note>
    decreases n - i,
{
    if 0 <= i < n {
        let m = sel_min_from(s, i + 1, i);
        let s2 = if m != i {
            swap_seq(s, i, m)
        } else {
            s
        };
        sel_outer_state(s2, i + 1, n)
    } else {
        s
    }
}

/// Steps emitted while selection sort processes positions `i, .., n-1`: one
/// step per round that actually swaps, none for a round whose minimum is
/// already in place.
pub open spec fn sel_outer_log(s: Seq<Note>, i: int, n: int) -> Seq<SpecStep>
    decreases n - i,
{
    if 0 <= i < n {
        let m = sel_min_from(s, i + 1, i);
        if m != i {
            let s2 = swap_seq(s, i, m);
            seq![SpecStep { snapshot: s2, index_a: i, index_b: m }] + sel_outer_log(s2, i + 1, n)
        } else {
            sel_outer_log(s, i + 1, n)
        }
    } else {
        Seq::empty()
    }
}

/// The exact step log selection sort produces on input `s`.
pub open spec fn selection_log(s: Seq<Note>) -> Seq<SpecStep> {
    seq![initial_step(s)] + sel_outer_log(s, 0, s.len() as int)
}

/// Step-recording selection sort. Works on a private copy of `input`; each
/// round scans the unsorted tail for the first-seen minimum and swaps it to
/// the front of the tail, recording that swap; rounds whose minimum is
/// already in place record nothing.
pub fn selection_sort_steps(input: &Vec<Note>) -> (r: Vec<Step>)
    requires
        input@.len() < 0x8000_0000,
    ensures
        log_view(r@) == selection_log(input@),
        log_wf(log_view(r@), input@.len() as int),
        r@.len() >= 1,
        r@[0]@ == initial_step(input@),
        r@[r@.len() - 1]@.snapshot.len() == input@.len(),
        is_sorted(r@[r@.len() - 1]@.snapshot),
        r@[r@.len() - 1]@.snapshot.to_multiset() == input@.to_multiset(),
{
    let ghost s0 = input@;
    let ghost nn = input@.len() as int;
    let mut notes = copy_notes(input);
    let n = notes.len();
    let mut steps: Vec<Step> = Vec::new();
    let st0 = make_step(&notes, NO_SWAP, NO_SWAP);
    steps.push(st0);
    proof {
        assert(log_view(steps@) =~= seq![initial_step(s0)]);
    }
    let mut i: usize = 0;
    while i < n
        invariant
            notes@.len() == n,
            s0.len() == n,
            n < 0x8000_0000,
            nn == n as int,
            i as int <= nn,
            sel_outer_state(s0, 0, nn) == sel_outer_state(notes@, i as int, nn),
            seq![initial_step(s0)] + sel_outer_log(s0, 0, nn) == log_view(steps@)
                + sel_outer_log(notes@, i as int, nn),
            steps@.len() >= 1,
            log_view(steps@)[0] == initial_step(s0),
            log_wf(log_view(steps@), nn),
            steps@[steps@.len() - 1]@.snapshot == notes@,
            notes@.to_multiset() == s0.to_multiset(),
            sorted_range(notes@, 0, i as int),
            forall|k: int, l: int| 0 <= k < i as int <= l < nn ==> le(notes@[k], notes@[l]),
        decreases n - i,
    {
        let ghost s_i = notes@;
        let ghost ii = i as int;
        let mut min_idx: usize = i;
        let mut j: usize = i + 1;
        while j < n
            invariant
                notes@.len() == n,
                nn == n as int,
                notes@ == s_i,
                ii == i as int,
                0 <= ii < nn,
                ii < j as int <= nn,
                ii <= min_idx < j,
                sel_min_from(notes@, j as int, min_idx as int) == sel_min_from(notes@, ii + 1, ii),
                forall|k: int| ii <= k < j as int ==> le(notes@[min_idx as int], notes@[k]),
            decreases n - j,
        {
            if note_lt(notes[j], notes[min_idx]) {
                min_idx = j;
            }
            j = j + 1;
        }
        proof {
            // The scan is over: the model's minimum is the one found.
            assert(sel_min_from(notes@, n as int, min_idx as int) == min_idx as int);
            assert(sel_min_from(notes@, ii + 1, ii) == min_idx as int);
        }
        if min_idx != i {
            let ghost before = notes@;
            let ghost log_before = log_view(steps@);
            let ghost mm = min_idx as int;
            swap_notes(&mut notes, i, min_idx);
            let stp = make_step(&notes, i as i32, min_idx as i32);
            steps.push(stp);
            proof {
                assert(notes@ == swap_seq(before, ii, mm));
                assert(log_view(steps@) =~= log_before.push(stp@));
                lemma_swap_multiset(before, ii, mm);
                assert(valid_swap(before, stp@, nn));
                assert(log_wf(log_view(steps@), nn));
                // One unfolding of the outer model at (before, ii).
                assert(sel_outer_state(before, ii, nn) == sel_outer_state(notes@, ii + 1, nn));
                assert(sel_outer_log(before, ii, nn) =~= seq![stp@] + sel_outer_log(
                    notes@,
                    ii + 1,
                    nn,
                ));
                assert(seq![initial_step(s0)] + sel_outer_log(s0, 0, nn) =~= log_view(steps@)
                    + sel_outer_log(notes@, ii + 1, nn));
                // The minimum moved to position ii; order facts follow.
                assert forall|k: int, l: int| 0 <= k < l <= ii implies le(notes@[k], notes@[l]) by {
                    if l == ii {
                        assert(le(before[k], before[mm]));
                    }
                }
                assert forall|k: int, l: int| 0 <= k < ii + 1 <= l < nn implies le(
                    notes@[k],
                    notes@[l],
                ) by {
                    if k == ii {
                        assert(le(before[mm], before[ii]));
                        assert(le(before[mm], before[l]));
                    } else {
                        assert(le(before[k], before[l]));
                        assert(le(before[k], before[ii]));
                    }
                }
            }
        } else {
            proof {
                // No swap this round: the model emits nothing.
                assert(sel_outer_state(s_i, ii, nn) == sel_outer_state(notes@, ii + 1, nn));
                assert(sel_outer_log(s_i, ii, nn) =~= sel_outer_log(notes@, ii + 1, nn));
                assert(seq![initial_step(s0)] + sel_outer_log(s0, 0, nn) =~= log_view(steps@)
                    + sel_outer_log(notes@, ii + 1, nn));
                assert forall|k: int, l: int| 0 <= k < l <= ii implies le(notes@[k], notes@[l]) by {
                    if l == ii {
                        assert(le(notes@[ii], notes@[l]));
                    }
                }
                assert forall|k: int, l: int| 0 <= k < ii + 1 <= l < nn implies le(
                    notes@[k],
                    notes@[l],
                ) by {
                    if k == ii {
                        assert(le(notes@[min_idx as int], notes@[l]));
                    }
                }
            }
        }
        i = i + 1;
    }
    proof {
        assert(sel_outer_state(notes@, i as int, nn) == notes@);
        assert(sel_outer_log(notes@, i as int, nn) =~= Seq::<SpecStep>::empty());
        assert(log_view(steps@) =~= seq![initial_step(s0)] + sel_outer_log(s0, 0, nn));
        assert(is_sorted(notes@));
    }
    steps
}

/// Determinism: one algorithm's model assigns the same input a single step
/// log, so any two logs it relates to that input are identical. Since each
/// sort entry point's contract equates its result with its model, repeated
/// invocations on an identical input return identical step logs.
pub proof fn lemma_determinism(s: Seq<Note>, l1: Seq<SpecStep>, l2: Seq<SpecStep>)
    requires
        (l1 == insertion_log(s) && l2 == insertion_log(s)) || (l1 == selection_log(s) && l2
            == selection_log(s)) || (l1 == bubble_log(s) && l2 == bubble_log(s)),
    ensures
        l1 == l2,
{
}

/// State of the working sequence during one bubble pass over positions
/// `j, .., end-1`: each position is compared with its right neighbour and
/// the two are exchanged when the left one is strictly greater.
pub open spec fn bub_pass_state(s: Seq<Note>, j: int, end: int) -> Seq<Note>
    decreases end - j,
{
    if 0 <= j < end {
        if j + 1 < s.len() && lt(s[j + 1], s[j]) {
            bub_pass_state(swap_seq(s, j, j + 1), j + 1, end)
        } else {
            bub_pass_state(s, j + 1, end)
        }
    } else {
        s
    }
}

/// Steps emitted during one bubble pass, one per exchange, in order.
pub open spec fn bub_pass_log(s: Seq<Note>, j: int, end: int) -> Seq<SpecStep>
    decreases end - j,
{
    if 0 <= j < end {
        if j + 1 < s.len() && lt(s[j + 1], s[j]) {
            let s2 = swap_seq(s, j, j + 1);
            seq![SpecStep { snapshot: s2, index_a: j, index_b: j + 1 }] + bub_pass_log(
                s2,
                j + 1,
                end,
            )
        } else {
            bub_pass_log(s, j + 1, end)
        }
    } else {
        Seq::empty()
    }
}

/// Whether one bubble pass over `j, .., end-1` performs any exchange.
pub open spec fn bub_pass_swapped(s: Seq<Note>, j: int, end: int) -> bool
    decreases end - j,
{
    if 0 <= j < end {
        if j + 1 < s.len() && lt(s[j + 1], s[j]) {
            true
        } else {
            bub_pass_swapped(s, j + 1, end)
        }
    } else {
        false
    }
}

/// State after bubble sort's passes `i, i+1, ..`: pass `i` bubbles over
/// positions `0, .., n-2-i`, and the whole sort stops early after the first
/// pass that exchanged nothing.
pub open spec fn bub_outer_state(s: Seq<Note>, i: int, n: int) -> Seq<Note>
    decreases n - i,
{
    if 0 <= i < n {
        let s2 = bub_pass_state(s, 0, n - 1 - i);
        if bub_pass_swapped(s, 0, n - 1 - i) {
            bub_outer_state(s2, i + 1, n)
        } else {
            s2
        }
    } else {
        s
    }
}

/// Steps emitted by bubble sort's passes `i, i+1, ..`.
pub open spec fn bub_outer_log(s: Seq<Note>, i: int, n: int) -> Seq<SpecStep>
    decreases n - i,
{
    if 0 <= i < n {
        let s2 = bub_pass_state(s, 0, n - 1 - i);
        if bub_pass_swapped(s, 0, n - 1 - i) {
            bub_pass_log(s, 0, n - 1 - i) + bub_outer_log(s2, i + 1, n)
        } else {
            bub_pass_log(s, 0, n - 1 - i)
        }
    } else {
        Seq::empty()
    }
}

/// The exact step log bubble sort produces on input `s`.
pub open spec fn bubble_log(s: Seq<Note>) -> Seq<SpecStep> {
    seq![initial_step(s)] + bub_outer_log(s, 0, s.len() as int)
}

/// Step-recording bubble sort. Works on a private copy of `input`; each
/// pass exchanges adjacent out-of-order values and records every exchange,
/// and the sort stops early after a pass that exchanged nothing. On an
/// already-sorted input the log is exactly the initial step.
pub fn bubble_sort_steps(input: &Vec<Note>) -> (r: Vec<Step>)
    requires
        input@.len() < 0x8000_0000,
    ensures
        log_view(r@) == bubble_log(input@),
        log_wf(log_view(r@), input@.len() as int),
        r@.len() >= 1,
        r@[0]@ == initial_step(input@),
        r@[r@.len() - 1]@.snapshot.len() == input@.len(),
        is_sorted(r@[r@.len() - 1]@.snapshot),
        r@[r@.len() - 1]@.snapshot.to_multiset() == input@.to_multiset(),
        is_sorted(input@) ==> r@.len() == 1,
{
    let ghost s0 = input@;
    let ghost nn = input@.len() as int;
    let mut notes = copy_notes(input);
    let n = notes.len();
    let mut steps: Vec<Step> = Vec::new();
    let st0 = make_step(&notes, NO_SWAP, NO_SWAP);
    steps.push(st0);
    proof {
        assert(log_view(steps@) =~= seq![initial_step(s0)]);
    }
    let mut i: usize = 0;
    let mut cont: bool = true;
    while cont && i < n
        invariant
            notes@.len() == n,
            s0.len() == n,
            n < 0x8000_0000,
            nn == n as int,
            i as int <= nn,
            cont ==> bub_outer_state(s0, 0, nn) == bub_outer_state(notes@, i as int, nn),
            cont ==> seq![initial_step(s0)] + bub_outer_log(s0, 0, nn) == log_view(steps@)
                + bub_outer_log(notes@, i as int, nn),
            !cont ==> bub_outer_state(s0, 0, nn) == notes@,
            !cont ==> seq![initial_step(s0)] + bub_outer_log(s0, 0, nn) == log_view(steps@),
            !cont ==> is_sorted(notes@),
            steps@.len() >= 1,
            log_view(steps@)[0] == initial_step(s0),
            log_wf(log_view(steps@), nn),
            steps@[steps@.len() - 1]@.snapshot == notes@,
            notes@.to_multiset() == s0.to_multiset(),
            sorted_range(notes@, nn - i as int, nn),
            forall|k: int, l: int| 0 <= k < nn - i as int <= l < nn ==> le(notes@[k], notes@[l]),
            is_sorted(s0) ==> (notes@ == s0 && steps@.len() == 1 && (i > 0 ==> !cont)),
        decreases n - i,
    {
        let ghost s_p = notes@;
        let ghost pre_log = log_view(steps@);
        let ghost ii = i as int;
        let end = n - 1 - i;
        let ghost ee = end as int;
        let mut swapped: bool = false;
        let mut j: usize = 0;
        while j < end
            invariant
                notes@.len() == n,
                s0.len() == n,
                s_p.len() == n,
                n < 0x8000_0000,
                nn == n as int,
                ii == i as int,
                0 <= ii < nn,
                ee == end as int,
                ee == nn - 1 - ii,
                j as int <= ee,
                bub_pass_state(s_p, 0, ee) == bub_pass_state(notes@, j as int, ee),
                pre_log + bub_pass_log(s_p, 0, ee) == log_view(steps@) + bub_pass_log(
                    notes@,
                    j as int,
                    ee,
                ),
                bub_pass_swapped(s_p, 0, ee) == (swapped || bub_pass_swapped(
                    notes@,
                    j as int,
                    ee,
                )),
                steps@.len() >= 1,
                log_view(steps@)[0] == initial_step(s0),
                log_wf(log_view(steps@), nn),
                steps@[steps@.len() - 1]@.snapshot == notes@,
                notes@.to_multiset() == s0.to_multiset(),
                forall|k: int| 0 <= k < j as int ==> le(notes@[k], notes@[j as int]),
                sorted_range(notes@, nn - ii, nn),
                forall|k: int, l: int| 0 <= k < nn - ii <= l < nn ==> le(notes@[k], notes@[l]),
                !swapped ==> (notes@ == s_p && sorted_range(notes@, 0, j as int + 1)),
                is_sorted(s0) ==> (notes@ == s0 && steps@.len() == 1 && !swapped),
            decreases end - j,
        {
            let ghost before = notes@;
            let ghost log_before = log_view(steps@);
            let ghost jj = j as int;
            if note_lt(notes[j + 1], notes[j]) {
                swap_notes(&mut notes, j, j + 1);
                let stp = make_step(&notes, j as i32, (j + 1) as i32);
                steps.push(stp);
                swapped = true;
                proof {
                    assert(notes@ == swap_seq(before, jj, jj + 1));
                    assert(log_view(steps@) =~= log_before.push(stp@));
                    lemma_swap_multiset(before, jj, jj + 1);
                    assert(valid_swap(before, stp@, nn));
                    assert(log_wf(log_view(steps@), nn));
                    // One unfolding of the pass model at (before, jj).
                    assert(bub_pass_state(before, jj, ee) == bub_pass_state(notes@, jj + 1, ee));
                    assert(bub_pass_log(before, jj, ee) =~= seq![stp@] + bub_pass_log(
                        notes@,
                        jj + 1,
                        ee,
                    ));
                    assert(pre_log + bub_pass_log(s_p, 0, ee) =~= log_view(steps@) + bub_pass_log(
                        notes@,
                        jj + 1,
                        ee,
                    ));
                    assert(bub_pass_swapped(before, jj, ee));
                    // A sorted input never reaches this branch.
                    if is_sorted(s0) {
                        assert(le(s0[jj], s0[jj + 1]));
                        assert(false);
                    }
                }
            } else {
                proof {
                    // No exchange here: the pass model steps over `jj`.
                    assert(bub_pass_state(before, jj, ee) == bub_pass_state(notes@, jj + 1, ee));
                    assert(bub_pass_log(before, jj, ee) =~= bub_pass_log(notes@, jj + 1, ee));
                    assert(bub_pass_swapped(before, jj, ee) == bub_pass_swapped(
                        notes@,
                        jj + 1,
                        ee,
                    ));
                }
            }
            j = j + 1;
        }
        proof {
            // The pass is over: its model is fully unfolded.
            assert(bub_pass_state(notes@, ee, ee) == notes@);
            assert(bub_pass_log(notes@, ee, ee) =~= Seq::<SpecStep>::empty());
            assert(!bub_pass_swapped(notes@, ee, ee));
            assert(bub_pass_state(s_p, 0, ee) == notes@);
            assert(pre_log + bub_pass_log(s_p, 0, ee) =~= log_view(steps@));
            assert(bub_pass_swapped(s_p, 0, ee) == swapped);
            // One unfolding of the outer model at (s_p, ii).
            if swapped {
                assert(bub_outer_state(s_p, ii, nn) == bub_outer_state(notes@, ii + 1, nn));
                assert(bub_outer_log(s_p, ii, nn) =~= bub_pass_log(s_p, 0, ee) + bub_outer_log(
                    notes@,
                    ii + 1,
                    nn,
                ));
                assert(seq![initial_step(s0)] + bub_outer_log(s0, 0, nn) =~= log_view(steps@)
                    + bub_outer_log(notes@, ii + 1, nn));
            } else {
                assert(bub_outer_state(s_p, ii, nn) == notes@);
                assert(bub_outer_log(s_p, ii, nn) =~= bub_pass_log(s_p, 0, ee));
                assert(seq![initial_step(s0)] + bub_outer_log(s0, 0, nn) =~= log_view(steps@));
                // A pass without exchanges means the sequence is sorted.
                assert(sorted_range(notes@, 0, ee + 1));
                assert forall|k: int, l: int| 0 <= k < l < nn implies le(notes@[k], notes@[l]) by {
                    if l < nn - ii {
                        assert(le(notes@[k], notes@[l]));
                    } else if k >= nn - ii {
                        assert(le(notes@[k], notes@[l]));
                    }
                }
                assert(is_sorted(notes@));
            }
            // The pass put the largest prefix value at position ee, so the
            // sorted suffix grows by one.
            assert forall|k: int, l: int| 0 <= k < nn - (ii + 1) <= l < nn implies le(
                notes@[k],
                notes@[l],
            ) by {
                if l == ee {
                    assert(le(notes@[k], notes@[ee]));
                }
            }
            assert(sorted_range(notes@, nn - (ii + 1), nn));
        }
        if !swapped {
            cont = false;
        }
        i = i + 1;
    }
    proof {
        if cont {
            assert(bub_outer_state(notes@, i as int, nn) == notes@);
            assert(bub_outer_log(notes@, i as int, nn) =~= Seq::<SpecStep>::empty());
            assert(log_view(steps@) =~= seq![initial_step(s0)] + bub_outer_log(s0, 0, nn));
            assert(is_sorted(notes@));
        }
    }
    steps
}

} // verus!
