//! The weighted heuristic agent: a learnable scoring model over the cells,
//! shot selection by weighted draw, and the learning rule applied at the end
//! of each game.
//!
//! Weights are fixed-point integers: one unit is a hundred-thousandth of a
//! weight, so a base weight of `1.0` is `100_000` units.

use vstd::prelude::*;

use rand::distributions::{Distribution, WeightedIndex};
use rand::thread_rng;

use crate::game::{AimingBoard, GameError, Player};
use crate::grid::{
    fleet, lemma_coverage_is_fleet_length, placement_allowed, ship_clear, TargetBoard, BOARD_SIZE,
    SHIP_LENGTHS, TOTAL_SHIP_HEALTH,
};

verus! {

broadcast use vstd::seq_lib::group_to_multiset_ensures, vstd::multiset::group_multiset_axioms;

/// The starting base weight of every cell.
pub const BASE_WEIGHT: u64 = 100_000;

/// The starting weight of every entry of the hit and miss matrices.
pub const INITIAL_WEIGHT: u64 = 1_000_000;

/// How far a base weight moves for each decision of a game.
pub const BASE_WEIGHT_MODIFICATION_FACTOR: u64 = 1;

/// How far a hit-matrix weight moves for each decision of a game.
pub const STANDARD_WEIGHT_MODIFICATION_FACTOR: u64 = 10;

/// The least value of any weight: every cell keeps a positive score.
pub const MIN_WEIGHT: u64 = 1;

/// The greatest value of any weight.
pub const MAX_WEIGHT: u64 = 1_000_000_000_000;

/// Number of entries of a cell-by-cell weight matrix.
pub const MATRIX_SIZE: usize = 10_000;

/// The largest score of a cell: its base weight plus one hit or miss weight
/// for each cell of the board.
pub open spec fn max_score() -> int {
    (2 * BOARD_SIZE + 1) * MAX_WEIGHT
}

/// The learnable model: a base weight per cell, and two matrices whose entry
/// `j * BOARD_SIZE + i` is what a hit (or a miss) on cell `i` adds to the
/// score of cell `j`.
pub struct WeightsView {
    pub base: Seq<u64>,
    pub hits: Seq<u64>,
    pub misses: Seq<u64>,
}

/// Whether every weight of `s` lies between the least and the greatest value.
pub open spec fn weights_in_range(s: Seq<u64>) -> bool {
    forall|i: int| 0 <= i < s.len() ==> MIN_WEIGHT <= #[trigger] s[i] <= MAX_WEIGHT
}

/// Whether the model has one base weight per cell, a full pair of matrices,
/// and every weight in range.
pub open spec fn model_wf(w: WeightsView) -> bool {
    &&& w.base.len() == BOARD_SIZE
    &&& w.hits.len() == MATRIX_SIZE
    &&& w.misses.len() == MATRIX_SIZE
    &&& weights_in_range(w.base)
    &&& weights_in_range(w.hits)
    &&& weights_in_range(w.misses)
}

/// What the first `n` cells of the board add to the score of cell `j`: the
/// hit weight of each hit cell and the miss weight of each missed cell.
pub open spec fn contribution(w: WeightsView, hits: Seq<bool>, misses: Seq<bool>, j: int, n: int) -> int
    decreases n,
{
    if n <= 0 {
        0
    } else {
        contribution(w, hits, misses, j, n - 1) + (if hits[n - 1] {
            w.hits[j * BOARD_SIZE + n - 1] as int
        } else {
            0
        }) + (if misses[n - 1] {
            w.misses[j * BOARD_SIZE + n - 1] as int
        } else {
            0
        })
    }
}

/// The score of cell `j`: its base weight plus what every hit and miss adds.
pub open spec fn cell_score(w: WeightsView, hits: Seq<bool>, misses: Seq<bool>, j: int) -> int {
    w.base[j] + contribution(w, hits, misses, j, BOARD_SIZE as int)
}

/// The weight with which cell `j` is drawn: its score where it may still be
/// fired upon, zero elsewhere.
pub open spec fn shot_weight(w: WeightsView, aim: AimingBoard, j: int) -> int {
    if aim.targetable()[j] {
        cell_score(w, aim.hits(), aim.misses(), j)
    } else {
        0
    }
}

/// The sum of a sequence of weights.
pub open spec fn weight_total(s: Seq<u64>) -> nat
    decreases s.len(),
{
    if s.len() == 0 {
        0
    } else {
        weight_total(s.drop_last()) + s.last() as nat
    }
}

/// A sequence whose entries are at most `b` sums to at most `b` per entry.
proof fn lemma_weight_total_bound(s: Seq<u64>, b: int)
    requires
        forall|i: int| 0 <= i < s.len() ==> #[trigger] s[i] <= b,
    ensures
        weight_total(s) <= s.len() * b,
    decreases s.len(),
{
    if s.len() > 0 {
        lemma_weight_total_bound(s.drop_last(), b);
        assert(weight_total(s) <= (s.len() - 1) * b + b);
        assert((s.len() - 1) * b + b == s.len() * b) by (nonlinear_arith);
    }
}

/// The contribution of the first `n` cells stays between zero and two
/// weights per cell.
proof fn lemma_contribution_bound(w: WeightsView, hits: Seq<bool>, misses: Seq<bool>, j: int, n: int)
    requires
        model_wf(w),
        0 <= j < BOARD_SIZE,
        0 <= n <= BOARD_SIZE,
        hits.len() == BOARD_SIZE,
        misses.len() == BOARD_SIZE,
    ensures
        0 <= contribution(w, hits, misses, j, n) <= 2 * n * MAX_WEIGHT,
    decreases n,
{
    if n > 0 {
        lemma_contribution_bound(w, hits, misses, j, n - 1);
        assert(0 <= j * BOARD_SIZE + n - 1 < MATRIX_SIZE) by (nonlinear_arith)
            requires
                0 <= j < BOARD_SIZE,
                0 < n <= BOARD_SIZE,
        ;
    }
}

/// Relies on rand's `WeightedIndex::new`, which fails on an empty list or one
/// whose weights are all zero, and on its `sample`, which draws a point below
/// the total weight and returns the index whose cumulative range holds it, so
/// always an index of positive weight.
#[verifier::external_body]
fn draw_weighted(weights: &Vec<u64>) -> (r: Option<usize>)
    requires
        weight_total(weights@) <= u64::MAX,
    ensures
        r is None <==> forall|i: int| 0 <= i < weights@.len() ==> weights@[i] == 0,
        r matches Some(i) ==> i < weights@.len() && weights@[i as int] > 0,
{
    match WeightedIndex::new(weights.iter()) {
        Ok(dist) => Some(dist.sample(&mut thread_rng())),
        Err(_) => None,
    }
}

/// The elementwise mean of two weight sequences, rounded down.
pub open spec fn averaged(a: Seq<u64>, b: Seq<u64>) -> Seq<u64> {
    Seq::new(a.len(), |i: int| ((a[i] + b[i]) / 2) as u64)
}

/// The model whose every weight is the mean of the two models' weights.
pub open spec fn merged(a: WeightsView, b: WeightsView) -> WeightsView {
    WeightsView {
        base: averaged(a.base, b.base),
        hits: averaged(a.hits, b.hits),
        misses: averaged(a.misses, b.misses),
    }
}

/// A weight moved by `step` up (after a win) or down (after a loss), kept
/// between the least and the greatest value.
pub open spec fn nudged(w: u64, up: bool, step: u64) -> u64 {
    if up {
        if w + step > MAX_WEIGHT {
            MAX_WEIGHT
        } else {
            (w + step) as u64
        }
    } else {
        if w - step < MIN_WEIGHT {
            MIN_WEIGHT
        } else {
            (w - step) as u64
        }
    }
}

/// The base weights after the decisions `shots`, in order, each moved the
/// base weight of its cell.
pub open spec fn learned_base(base: Seq<u64>, shots: Seq<usize>, won: bool) -> Seq<u64>
    decreases shots.len(),
{
    if shots.len() == 0 {
        base
    } else {
        let b = learned_base(base, shots.drop_last(), won);
        let c = shots.last() as int;
        b.update(c, nudged(b[c], won, BASE_WEIGHT_MODIFICATION_FACTOR))
    }
}

/// A matrix with every entry of row `row` moved.
pub open spec fn nudged_row(m: Seq<u64>, row: int, won: bool) -> Seq<u64> {
    Seq::new(
        m.len(),
        |k: int|
            if k / BOARD_SIZE as int == row {
                nudged(m[k], won, STANDARD_WEIGHT_MODIFICATION_FACTOR)
            } else {
                m[k]
            },
    )
}

/// The hit matrix after the decisions `shots`, in order, each moved the row
/// of its cell.
pub open spec fn learned_hits(m: Seq<u64>, shots: Seq<usize>, won: bool) -> Seq<u64>
    decreases shots.len(),
{
    if shots.len() == 0 {
        m
    } else {
        nudged_row(learned_hits(m, shots.drop_last(), won), shots.last() as int, won)
    }
}

/// Merging a model with itself leaves it unchanged.
pub proof fn lemma_merge_with_self(w: WeightsView)
    ensures
        merged(w, w) == w,
{
    assert(averaged(w.base, w.base) =~= w.base);
    assert(averaged(w.hits, w.hits) =~= w.hits);
    assert(averaged(w.misses, w.misses) =~= w.misses);
}

/// Merging is the same whichever of two well-formed models comes first.
pub proof fn lemma_merge_commutes(a: WeightsView, b: WeightsView)
    requires
        model_wf(a),
        model_wf(b),
    ensures
        merged(a, b) == merged(b, a),
{
    assert(averaged(a.base, b.base) =~= averaged(b.base, a.base));
    assert(averaged(a.hits, b.hits) =~= averaged(b.hits, a.hits));
    assert(averaged(a.misses, b.misses) =~= averaged(b.misses, a.misses));
}

/// Once two agents have adopted the merge of their models they hold the same
/// model, and merging them again changes nothing.
pub proof fn lemma_merge_then_adopt(a: WeightsView, b: WeightsView)
    ensures
        merged(merged(a, b), merged(a, b)) == merged(a, b),
{
    lemma_merge_with_self(merged(a, b));
}

/// Moves one weight as `nudged` says.
fn nudge(w: u64, up: bool, step: u64) -> (r: u64)
    requires
        MIN_WEIGHT <= w <= MAX_WEIGHT,
        step <= MAX_WEIGHT,
    ensures
        r == nudged(w, up, step),
        MIN_WEIGHT <= r <= MAX_WEIGHT,
{
    if up {
        if w + step > MAX_WEIGHT {
            MAX_WEIGHT
        } else {
            w + step
        }
    } else {
        if w < MIN_WEIGHT + step {
            MIN_WEIGHT
        } else {
            w - step
        }
    }
}

/// Replaces each weight of `dst` with its mean with the weight of `src`.
fn average_into(dst: &mut Vec<u64>, src: &Vec<u64>)
    requires
        old(dst)@.len() == src@.len(),
        weights_in_range(old(dst)@),
        weights_in_range(src@),
    ensures
        final(dst)@ == averaged(old(dst)@, src@),
        weights_in_range(final(dst)@),
{
    let mut i: usize = 0;
    while i < dst.len()
        invariant
            i <= dst@.len(),
            dst@.len() == src@.len(),
            weights_in_range(src@),
            forall|k: int| 0 <= k < i ==> #[trigger] dst@[k] == averaged(old(dst)@, src@)[k],
            forall|k: int| i <= k < dst@.len() ==> #[trigger] dst@[k] == old(dst)@[k],
            weights_in_range(old(dst)@),
            old(dst)@.len() == dst@.len(),
        decreases dst@.len() - i,
    {
        let a = dst[i];
        let b = src[i];
        dst[i] = (a + b) / 2;
        i = i + 1;
    }
    proof {
        assert(dst@ =~= averaged(old(dst)@, src@));
    }
}

/// A copy of a weight sequence.
fn copy_weights(src: &Vec<u64>) -> (r: Vec<u64>)
    ensures
        r@ == src@,
{
    let mut v: Vec<u64> = Vec::new();
    let mut i: usize = 0;
    while i < src.len()
        invariant
            i <= src@.len(),
            v@ == src@.take(i as int),
        decreases src@.len() - i,
    {
        v.push(src[i]);
        proof {
            assert(src@.take(i as int + 1) =~= src@.take(i as int).push(src@[i as int]));
        }
        i = i + 1;
    }
    proof {
        assert(src@.take(src@.len() as int) =~= src@);
    }
    v
}

/// The occupancy after the first `n` ships of the fixed layout: ship `x` of
/// the fleet runs down column `x` from the top row.
pub open spec fn layout_prefix(n: int) -> Seq<bool> {
    Seq::new(BOARD_SIZE as nat, |c: int| c % 10 < n && c / 10 < fleet()[c % 10] as int)
}

/// The occupancy of the fixed layout.
pub open spec fn fixed_layout() -> Seq<bool> {
    layout_prefix(5)
}

/// One decision: what the agent had seen when it fired, and where it fired.
#[derive(Clone)]
struct Action {
    hits_input: Vec<bool>,
    misses_input: Vec<bool>,
    shot_taken: usize,
}

impl Action {
    fn new(hits: Vec<bool>, misses: Vec<bool>, shot: usize) -> (r: Self)
        ensures
            r.hits_input == hits,
            r.misses_input == misses,
            r.shot_taken == shot,
    {
        Self { hits_input: hits, misses_input: misses, shot_taken: shot }
    }
}

/// An agent that scores every cell with a learnable weighted model, draws its
/// shot in proportion to the scores, and after each game moves the weights of
/// the cells it chose towards a win.
#[derive(Clone)]
pub struct AIPlayer {
    base_weights: Vec<u64>,
    hits_weights: Vec<u64>,
    misses_weights: Vec<u64>,
    actions: Vec<Action>,
}

impl View for AIPlayer {
    type V = WeightsView;

    /// The agent's model.
    closed spec fn view(&self) -> WeightsView {
        WeightsView { base: self.base_weights@, hits: self.hits_weights@, misses: self.misses_weights@ }
    }
}

/// A sequence of `n` copies of `value`.
fn filled(value: u64, n: usize) -> (r: Vec<u64>)
    ensures
        r@ == Seq::new(n as nat, |i: int| value),
{
    let mut v: Vec<u64> = Vec::new();
    let mut i: usize = 0;
    while i < n
        invariant
            i <= n,
            v@ == Seq::new(i as nat, |k: int| value),
        decreases n - i,
    {
        v.push(value);
        i = i + 1;
    }
    v
}

impl AIPlayer {
    /// The agent's invariant: a well-formed model, and a board cell for every
    /// decision recorded.
    pub open spec fn inv(self) -> bool {
        &&& model_wf(self@)
        &&& self.decisions_on_board()
    }

    /// Every decision recorded is a cell of the board.
    pub closed spec fn decisions_on_board(self) -> bool {
        forall|k: int| 0 <= k < self.actions@.len() ==> #[trigger] self.actions@[k].shot_taken < BOARD_SIZE
    }

    /// The cells chosen in the current game, in order.
    pub closed spec fn decisions(self) -> Seq<usize> {
        self.actions@.map_values(|a: Action| a.shot_taken)
    }

    /// What the agent had seen at each decision of the current game: the hit
    /// cells and the missed cells of its aiming board.
    pub closed spec fn observations(self) -> Seq<(Seq<bool>, Seq<bool>)> {
        self.actions@.map_values(|a: Action| (a.hits_input@, a.misses_input@))
    }

    /// A fresh agent: every base weight is `BASE_WEIGHT`, every matrix entry
    /// `INITIAL_WEIGHT`, and no decision is recorded.
    pub fn new() -> (r: Self)
        ensures
            r.inv(),
            r@.base == Seq::new(BOARD_SIZE as nat, |i: int| BASE_WEIGHT),
            r@.hits == Seq::new(MATRIX_SIZE as nat, |i: int| INITIAL_WEIGHT),
            r@.misses == Seq::new(MATRIX_SIZE as nat, |i: int| INITIAL_WEIGHT),
            r.decisions().len() == 0,
    {
        Self {
            base_weights: filled(BASE_WEIGHT, BOARD_SIZE),
            hits_weights: filled(INITIAL_WEIGHT, MATRIX_SIZE),
            misses_weights: filled(INITIAL_WEIGHT, MATRIX_SIZE),
            actions: Vec::new(),
        }
    }

    /// The score of every cell: zero where the aiming board says the cell was
    /// fired upon, the cell's score elsewhere.
    pub fn shot_weights(&self, aiming_board: &AimingBoard) -> (r: Vec<u64>)
        requires
            self.inv(),
            aiming_board.wf(),
        ensures
            r@.len() == BOARD_SIZE,
            forall|j: int| 0 <= j < BOARD_SIZE ==> #[trigger] r@[j] == shot_weight(self@, *aiming_board, j),
            forall|j: int| 0 <= j < BOARD_SIZE ==> #[trigger] r@[j] <= max_score(),
    {
        let ghost w = self@;
        let hits = aiming_board.get_hits();
        let misses = aiming_board.get_misses();
        let targetable = aiming_board.get_targetable();
        let mut scores: Vec<u64> = Vec::new();
        let mut j: usize = 0;
        while j < BOARD_SIZE
            invariant
                j <= BOARD_SIZE,
                self.inv(),
                w == self@,
                scores@ == self.base_weights@.take(j as int),
            decreases BOARD_SIZE - j,
        {
            scores.push(self.base_weights[j]);
            proof {
                assert(self.base_weights@.take(j as int + 1) =~= self.base_weights@.take(j as int).push(self.base_weights@[j as int]));
            }
            j = j + 1;
        }
        proof {
            assert(self.base_weights@.take(BOARD_SIZE as int) =~= self.base_weights@);
        }
        let mut i: usize = 0;
        while i < BOARD_SIZE
            invariant
                i <= BOARD_SIZE,
                self.inv(),
                w == self@,
                hits@ == aiming_board.hits(),
                misses@ == aiming_board.misses(),
                aiming_board.wf(),
                scores@.len() == BOARD_SIZE,
                forall|k: int|
                    0 <= k < BOARD_SIZE ==> #[trigger] scores@[k] == w.base[k] + contribution(w, hits@, misses@, k, i as int),
            decreases BOARD_SIZE - i,
        {
            let hit = hits[i];
            let miss = misses[i];
            if hit || miss {
                let mut k: usize = 0;
                while k < BOARD_SIZE
                    invariant
                        i < BOARD_SIZE,
                        k <= BOARD_SIZE,
                        self.inv(),
                        w == self@,
                        hits@ == aiming_board.hits(),
                        misses@ == aiming_board.misses(),
                        aiming_board.wf(),
                        hit == hits@[i as int],
                        miss == misses@[i as int],
                        scores@.len() == BOARD_SIZE,
                        forall|l: int|
                            0 <= l < k ==> #[trigger] scores@[l] == w.base[l] + contribution(w, hits@, misses@, l, i + 1),
                        forall|l: int|
                            k <= l < BOARD_SIZE ==> #[trigger] scores@[l] == w.base[l] + contribution(w, hits@, misses@, l, i as int),
                    decreases BOARD_SIZE - k,
                {
                    proof {
                        lemma_contribution_bound(w, hits@, misses@, k as int, i as int);
                        assert(0 <= k * BOARD_SIZE + i < MATRIX_SIZE) by (nonlinear_arith)
                            requires
                                k < BOARD_SIZE,
                                i < BOARD_SIZE,
                        ;
                    }
                    let at = k * BOARD_SIZE + i;
                    let mut add: u64 = 0;
                    if hit {
                        add = self.hits_weights[at];
                    }
                    if miss {
                        add = add + self.misses_weights[at];
                    }
                    scores[k] = scores[k] + add;
                    k = k + 1;
                }
            }
            i = i + 1;
        }
        let mut j: usize = 0;
        while j < BOARD_SIZE
            invariant
                j <= BOARD_SIZE,
                self.inv(),
                w == self@,
                hits@ == aiming_board.hits(),
                misses@ == aiming_board.misses(),
                targetable@ == aiming_board.targetable(),
                aiming_board.wf(),
                scores@.len() == BOARD_SIZE,
                forall|k: int| 0 <= k < j ==> #[trigger] scores@[k] == shot_weight(w, *aiming_board, k),
                forall|k: int| j <= k < BOARD_SIZE ==> #[trigger] scores@[k] == cell_score(w, hits@, misses@, k),
            decreases BOARD_SIZE - j,
        {
            if !targetable[j] {
                scores[j] = 0;
            }
            j = j + 1;
        }
        proof {
            assert forall|j: int| 0 <= j < BOARD_SIZE implies #[trigger] scores@[j] <= max_score() by {
                lemma_contribution_bound(w, hits@, misses@, j, BOARD_SIZE as int);
            }
        }
        scores
    }

    /// Replaces this agent's model with the elementwise mean of its own model
    /// and `other`'s.
    pub fn merge(&mut self, other: &Self)
        requires
            old(self).inv(),
            other.inv(),
        ensures
            final(self).inv(),
            final(self)@ == merged(old(self)@, other@),
            final(self).decisions() == old(self).decisions(),
            final(self).observations() == old(self).observations(),
    {
        average_into(&mut self.base_weights, &other.base_weights);
        average_into(&mut self.hits_weights, &other.hits_weights);
        average_into(&mut self.misses_weights, &other.misses_weights);
    }

    /// Overwrites this agent's model with a copy of `other`'s.
    pub fn adopt(&mut self, other: &Self)
        requires
            old(self).inv(),
            other.inv(),
        ensures
            final(self).inv(),
            final(self)@ == other@,
            final(self).decisions() == old(self).decisions(),
            final(self).observations() == old(self).observations(),
    {
        self.base_weights = copy_weights(&other.base_weights);
        self.hits_weights = copy_weights(&other.hits_weights);
        self.misses_weights = copy_weights(&other.misses_weights);
        proof {
            assert(self@ == other@);
        }
    }

    /// Moves every weight of row `row` of the hit matrix.
    fn nudge_row(&mut self, row: usize, won: bool)
        requires
            old(self).inv(),
            row < BOARD_SIZE,
        ensures
            final(self).inv(),
            final(self).hits_weights@ == nudged_row(old(self).hits_weights@, row as int, won),
            final(self).base_weights@ == old(self).base_weights@,
            final(self).misses_weights@ == old(self).misses_weights@,
            final(self).actions@ == old(self).actions@,
    {
        let ghost m = self.hits_weights@;
        let mut i: usize = 0;
        while i < BOARD_SIZE
            invariant
                i <= BOARD_SIZE,
                row < BOARD_SIZE,
                self.inv(),
                self.base_weights@ == old(self).base_weights@,
                self.misses_weights@ == old(self).misses_weights@,
                self.actions@ == old(self).actions@,
                m == old(self).hits_weights@,
                self.hits_weights@.len() == MATRIX_SIZE,
                forall|k: int|
                    0 <= k < MATRIX_SIZE ==> #[trigger] self.hits_weights@[k] == if k / (BOARD_SIZE as int) == row && k % (BOARD_SIZE as int) < i {
                        nudged(m[k], won, STANDARD_WEIGHT_MODIFICATION_FACTOR)
                    } else {
                        m[k]
                    },
            decreases BOARD_SIZE - i,
        {
            let at = row * BOARD_SIZE + i;
            proof {
                vstd::arithmetic::div_mod::lemma_fundamental_div_mod_converse(at as int, BOARD_SIZE as int, row as int, i as int);
            }
            let w = nudge(self.hits_weights[at], won, STANDARD_WEIGHT_MODIFICATION_FACTOR);
            self.hits_weights[at] = w;
            proof {
                assert forall|k: int| 0 <= k < MATRIX_SIZE implies #[trigger] self.hits_weights@[k] == if k / (BOARD_SIZE as int) == row && k % (BOARD_SIZE as int) < i + 1 {
                    nudged(m[k], won, STANDARD_WEIGHT_MODIFICATION_FACTOR)
                } else {
                    m[k]
                } by {
                    vstd::arithmetic::div_mod::lemma_fundamental_div_mod(k, BOARD_SIZE as int);
                }
            }
            i = i + 1;
        }
        proof {
            assert forall|k: int| 0 <= k < MATRIX_SIZE implies #[trigger] self.hits_weights@[k] == nudged_row(m, row as int, won)[k] by {
                vstd::arithmetic::div_mod::lemma_mod_bound(k, BOARD_SIZE as int);
            }
            assert(self.hits_weights@ =~= nudged_row(m, row as int, won));
        }
    }

    /// The base weight of every cell.
    pub fn base_weights(&self) -> (r: &Vec<u64>)
        ensures
            r@ == self@.base,
    {
        &self.base_weights
    }

    /// The hit matrix, row by row.
    pub fn hits_weights(&self) -> (r: &Vec<u64>)
        ensures
            r@ == self@.hits,
    {
        &self.hits_weights
    }

    /// The miss matrix, row by row.
    pub fn misses_weights(&self) -> (r: &Vec<u64>)
        ensures
            r@ == self@.misses,
    {
        &self.misses_weights
    }

    /// The number of decisions recorded in the current game.
    pub fn decision_count(&self) -> (r: usize)
        ensures
            r == self.decisions().len(),
    {
        self.actions.len()
    }
}

impl Player for AIPlayer {
    open spec fn wf(&self) -> bool {
        self.inv()
    }

    open spec fn reliable(&self) -> bool {
        true
    }

    /// The base weights and the hit matrix have learned from every decision
    /// of `before`; the miss matrix and the record of the game are kept.
    open spec fn finished(&self, before: Self, won: bool) -> bool {
        &&& self@.base == learned_base(before@.base, before.decisions(), won)
        &&& self@.hits == learned_hits(before@.hits, before.decisions(), won)
        &&& self@.misses == before@.misses
        &&& self.decisions() == before.decisions()
        &&& self.observations() == before.observations()
    }

    /// Forgets the decisions of the previous game.
    fn new_game(&mut self)
        ensures
            final(self)@ == old(self)@,
            final(self).decisions().len() == 0,
            final(self).observations().len() == 0,
    {
        self.actions = Vec::new();
    }

    /// Lays the fleet out in a fixed pattern: ship `i` of `SHIP_LENGTHS` runs
    /// down column `i` from the top row.
    fn place_ships(&mut self) -> (r: TargetBoard)
        ensures
            final(self)@ == old(self)@,
            final(self).decisions() == old(self).decisions(),
            final(self).observations() == old(self).observations(),
            r.is_complete(),
            r.ships().len() == SHIP_LENGTHS.len(),
            r.coverage() == TOTAL_SHIP_HEALTH,
            r@ == fixed_layout(),
    {
        let mut target_board: TargetBoard = TargetBoard::new();
        proof {
            assert(fleet().skip(0) =~= fleet());
            assert(target_board@ =~= layout_prefix(0));
        }
        let mut i: usize = 0;
        while i < SHIP_LENGTHS.len()
            invariant
                i <= 5,
                target_board.required() == fleet().skip(i as int).to_multiset(),
                target_board@ == layout_prefix(i as int),
            decreases 5 - i,
        {
            proof {
                assert(SHIP_LENGTHS@ == fleet());
                let rest = fleet().skip(i as int);
                assert(rest[0] == fleet()[i as int]);
                assert(rest.contains(rest[0]));
                assert(rest.remove(0) =~= fleet().skip(i as int + 1));
                assert(ship_clear(target_board@, i as int, 0, fleet()[i as int] as int, true));
                assert(placement_allowed(target_board@, target_board.required(), i as int, 0, fleet()[i as int], true));
            }
            target_board.place_ship(i as u32, 0, SHIP_LENGTHS[i], true);
            proof {
                assert(target_board@ =~= layout_prefix(i as int + 1));
            }
            i = i + 1;
        }
        proof {
            assert(fleet().skip(5) =~= Seq::<u32>::empty());
            use_type_invariant(&target_board);
            lemma_coverage_is_fleet_length(target_board);
        }
        target_board
    }

    /// Scores every cell, draws one of the cells that may still be fired upon
    /// in proportion to its score, and records the decision; fails only when
    /// every cell has been fired upon.
    fn take_shot(&mut self, aiming_board: &AimingBoard) -> (r: Result<usize, GameError>)
        ensures
            final(self)@ == old(self)@,
            r matches Ok(c) ==> {
                &&& c < BOARD_SIZE
                &&& aiming_board.targetable()[c as int]
                &&& shot_weight(old(self)@, *aiming_board, c as int) > 0
                &&& final(self).decisions() == old(self).decisions().push(c)
                &&& final(self).observations() == old(self).observations().push(
                    (aiming_board.hits(), aiming_board.misses()),
                )
            },
            r is Err ==> final(self).decisions() == old(self).decisions(),
            r is Err ==> final(self).observations() == old(self).observations(),
            r is Err <==> forall|c: int| 0 <= c < BOARD_SIZE ==> !#[trigger] aiming_board.targetable()[c],
            r is Err ==> r == Err::<usize, GameError>(GameError::InvalidDistribution),
    {
        let weights = self.shot_weights(aiming_board);
        proof {
            lemma_weight_total_bound(weights@, max_score());
            assert forall|c: int| 0 <= c < BOARD_SIZE && #[trigger] aiming_board.targetable()[c] implies weights@[c] > 0 by {
                lemma_contribution_bound(self@, aiming_board.hits(), aiming_board.misses(), c, BOARD_SIZE as int);
            }
        }
        match draw_weighted(&weights) {
            Some(cell) => {
                let ghost before = self.actions@;
                let hits = aiming_board.get_hits().clone();
                let misses = aiming_board.get_misses().clone();
                proof {
                    assert(hits@ =~= aiming_board.hits());
                    assert(misses@ =~= aiming_board.misses());
                }
                self.actions.push(Action::new(hits, misses, cell));
                proof {
                    assert(self.decisions() =~= old(self).decisions().push(cell));
                    assert(self.observations() =~= old(self).observations().push(
                        (aiming_board.hits(), aiming_board.misses()),
                    ));
                }
                Ok(cell)
            },
            None => {
                proof {
                    assert forall|c: int| 0 <= c < BOARD_SIZE implies !#[trigger] aiming_board.targetable()[c] by {
                        assert(weights@[c] == 0);
                    }
                }
                Err(GameError::InvalidDistribution)
            },
        }
    }

    /// Moves, for every decision of the game in order, the base weight of the
    /// chosen cell and every weight of its row of the hit matrix: up after a
    /// win, down after a loss.
    fn game_finish(&mut self, won: bool)
        ensures
            final(self)@.base == learned_base(old(self)@.base, old(self).decisions(), won),
            final(self)@.hits == learned_hits(old(self)@.hits, old(self).decisions(), won),
            final(self)@.misses == old(self)@.misses,
            final(self).decisions() == old(self).decisions(),
    {
        let ghost shots = self.decisions();
        let ghost base0 = self.base_weights@;
        let ghost hits0 = self.hits_weights@;
        let mut k: usize = 0;
        while k < self.actions.len()
            invariant
                k <= self.actions@.len(),
                self.inv(),
                shots == self.decisions(),
                self.actions@ == old(self).actions@,
                self.misses_weights@ == old(self).misses_weights@,
                self.base_weights@ == learned_base(base0, shots.take(k as int), won),
                self.hits_weights@ == learned_hits(hits0, shots.take(k as int), won),
            decreases self.actions@.len() - k,
        {
            let shot = self.actions[k].shot_taken;
            proof {
                assert(shots.take(k as int + 1).drop_last() =~= shots.take(k as int));
                assert(shots[k as int] == shot);
            }
            let b = nudge(self.base_weights[shot], won, BASE_WEIGHT_MODIFICATION_FACTOR);
            self.base_weights[shot] = b;
            self.nudge_row(shot, won);
            k = k + 1;
        }
        proof {
            assert(shots.take(shots.len() as int) =~= shots);
        }
    }
}

} // verus!
