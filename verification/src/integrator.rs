use vstd::prelude::*;

verus! {

/// Number of history slots of the six-step Adams-Bashforth method.
pub const HISTORY_SLOTS: usize = 6;

/// Common denominator of the Adams-Bashforth weights.
pub const ADB6_DENOMINATOR: i64 = 1440;

/// Number of Runge-Kutta rounds that fill the history before the first
/// Adams-Bashforth step.
pub const BOOTSTRAP_ROUNDS: usize = 5;

/// Numerators of the six Adams-Bashforth weights, newest sample first.
pub open spec fn adb6_numerators() -> Seq<int> {
    seq![4277, -7923, 9982, -7298, 2877, -475]
}

/// Common denominator of the Runge-Kutta weights.
pub const RK4_DENOMINATOR: i64 = 6;

/// Numerators of the four Runge-Kutta weights, first sample first.
pub open spec fn rk4_numerators() -> Seq<int> {
    seq![1, 2, 2, 1]
}

/// The numerator of the weight of the sample of stage `stage`.
pub fn rk4_numerator(stage: usize) -> (c: i64)
    requires
        stage < 4,
    ensures
        c == rk4_numerators()[stage as int],
{
    if stage == 0 || stage == 3 {
        1
    } else {
        2
    }
}

/// The Runge-Kutta weights add up to one.
pub proof fn rk4_weights_sum_to_one()
    ensures
        rk4_numerators().len() == 4,
        rk4_numerators()[0] + rk4_numerators()[1] + rk4_numerators()[2] + rk4_numerators()[3]
            == RK4_DENOMINATOR,
{
}

/// The numerator of the weight of the sample `k` steps back.
pub fn adb6_numerator(k: usize) -> (c: i64)
    requires
        k < HISTORY_SLOTS,
    ensures
        c == adb6_numerators()[k as int],
{
    if k == 0 {
        4277
    } else if k == 1 {
        -7923
    } else if k == 2 {
        9982
    } else if k == 3 {
        -7298
    } else if k == 4 {
        2877
    } else {
        -475
    }
}

/// The Adams-Bashforth weights add up to one: a constant derivative is
/// integrated exactly.
pub proof fn adb6_weights_sum_to_one()
    ensures
        adb6_numerators().len() == HISTORY_SLOTS,
        adb6_numerators()[0] + adb6_numerators()[1] + adb6_numerators()[2] + adb6_numerators()[3]
            + adb6_numerators()[4] + adb6_numerators()[5] == ADB6_DENOMINATOR,
{
}

/// The weighted sum that one Adams-Bashforth step adds, times the
/// denominator and before the time step is applied: the newest sample has
/// the first weight.
pub open spec fn adb6_combination(column: Seq<int>) -> int {
    adb6_numerators()[0] * column[5] + adb6_numerators()[1] * column[4] + adb6_numerators()[2]
        * column[3] + adb6_numerators()[3] * column[2] + adb6_numerators()[4] * column[1]
        + adb6_numerators()[5] * column[0]
}

/// What the history is after one more sample: every slot takes the next
/// one's content and the newest slot takes the sample.
pub open spec fn advanced<T>(history: Seq<Seq<T>>, newest: Seq<T>) -> Seq<Seq<T>> {
    history.drop_first().push(newest)
}

/// What the history is after the samples of several steps, oldest first.
pub open spec fn advanced_by<T>(history: Seq<Seq<T>>, samples: Seq<Seq<T>>) -> Seq<Seq<T>>
    decreases samples.len(),
{
    if samples.len() == 0 {
        history
    } else {
        advanced(advanced_by(history, samples.drop_last()), samples.last())
    }
}

/// After any number of steps, slot `k` holds the sample taken `5 - k` steps
/// before the last one; where that reaches back before the first step, it
/// holds what was then that many slots further on.
pub proof fn history_holds_past_samples<T>(history: Seq<Seq<T>>, samples: Seq<Seq<T>>, k: int)
    requires
        history.len() == HISTORY_SLOTS,
        0 <= k < HISTORY_SLOTS,
    ensures
        advanced_by(history, samples).len() == HISTORY_SLOTS,
        k + samples.len() >= HISTORY_SLOTS ==> advanced_by(history, samples)[k] == samples[k
            + samples.len() - HISTORY_SLOTS],
        k + samples.len() < HISTORY_SLOTS ==> advanced_by(history, samples)[k] == history[k
            + samples.len()],
    decreases samples.len(),
{
    if samples.len() > 0 {
        let before = samples.drop_last();
        history_holds_past_samples(history, before, k);
        if k + 1 < HISTORY_SLOTS {
            history_holds_past_samples(history, before, k + 1);
        }
    }
}

/// The history of the six-step Adams-Bashforth integrator: six slots, oldest
/// first, each with one derivative sample per body.
pub struct IntegratorADB6<T> {
    pub dimensions: usize,
    pub data: Vec<Vec<T>>,
}

impl<T: Copy> IntegratorADB6<T> {
    /// Six slots of `dimensions` samples each.
    pub open spec fn wf(self) -> bool {
        &&& self.data@.len() == HISTORY_SLOTS
        &&& forall|k: int| 0 <= k < HISTORY_SLOTS ==> (#[trigger] self.data@[k])@.len() == self.dimensions
    }

    /// The six slots as sequences, oldest first.
    pub open spec fn history(self) -> Seq<Seq<T>> {
        Seq::new(self.data@.len(), |k: int| self.data@[k]@)
    }

    /// A history for `dimensions` bodies with `fill` in every place.
    pub fn new(dimensions: usize, fill: T) -> (r: Self)
        ensures
            r.wf(),
            r.dimensions == dimensions,
            forall|k: int, i: int|
                0 <= k < HISTORY_SLOTS && 0 <= i < dimensions ==> #[trigger] r.history()[k][i]
                    == fill,
    {
        let mut data: Vec<Vec<T>> = Vec::new();
        let mut k: usize = 0;
        while k < HISTORY_SLOTS
            invariant
                0 <= k <= HISTORY_SLOTS,
                data@.len() == k,
                forall|j: int| 0 <= j < k ==> (#[trigger] data@[j])@.len() == dimensions,
                forall|j: int, i: int|
                    0 <= j < k && 0 <= i < dimensions ==> #[trigger] data@[j]@[i] == fill,
            decreases HISTORY_SLOTS - k,
        {
            let mut slot: Vec<T> = Vec::new();
            let mut i: usize = 0;
            while i < dimensions
                invariant
                    0 <= i <= dimensions,
                    slot@.len() == i,
                    forall|j: int| 0 <= j < i ==> #[trigger] slot@[j] == fill,
                decreases dimensions - i,
            {
                slot.push(fill);
                i = i + 1;
            }
            data.push(slot);
            k = k + 1;
        }
        IntegratorADB6 { dimensions, data }
    }

    /// The sample of body `i` in slot `slot`.
    pub fn sample(&self, slot: usize, i: usize) -> (r: T)
        requires
            self.wf(),
            slot < HISTORY_SLOTS,
            i < self.dimensions,
        ensures
            r == self.history()[slot as int][i as int],
    {
        self.data[slot][i]
    }

    /// The six samples of body `i`, newest first: in the order in which the
    /// Adams-Bashforth weights apply to them.
    pub fn newest_first(&self, i: usize) -> (r: [T; 6])
        requires
            self.wf(),
            i < self.dimensions,
        ensures
            forall|k: int| 0 <= k < 6 ==> r@[k] == self.history()[5 - k][i as int],
    {
        [
            self.data[5][i],
            self.data[4][i],
            self.data[3][i],
            self.data[2][i],
            self.data[1][i],
            self.data[0][i],
        ]
    }

    /// Writes `samples` into slot `slot`.
    pub fn set_slot(&mut self, slot: usize, samples: &Vec<T>)
        requires
            old(self).wf(),
            slot < HISTORY_SLOTS,
            samples@.len() == old(self).dimensions,
        ensures
            final(self).wf(),
            final(self).dimensions == old(self).dimensions,
            final(self).history() == old(self).history().update(slot as int, samples@),
    {
        let copy = copy_of(samples);
        self.data[slot] = copy;
        assert(self.history() =~= old(self).history().update(slot as int, samples@));
    }

    /// Moves every slot's content one slot towards the oldest; the oldest
    /// content is dropped and the newest slot keeps its content.
    pub fn single_step(&mut self)
        requires
            old(self).wf(),
        ensures
            final(self).wf(),
            final(self).dimensions == old(self).dimensions,
            final(self).history() == advanced(
                old(self).history(),
                old(self).history()[HISTORY_SLOTS - 1],
            ),
    {
        let newest = copy_of(&self.data[HISTORY_SLOTS - 1]);
        let _ = self.data.remove(0);
        self.data.push(newest);
        assert(self.history() =~= advanced(
            old(self).history(),
            old(self).history()[HISTORY_SLOTS - 1],
        ));
    }

    /// One step of the history: shifts it and writes `newest` into the
    /// newest slot.
    pub fn advance(&mut self, newest: &Vec<T>)
        requires
            old(self).wf(),
            newest@.len() == old(self).dimensions,
        ensures
            final(self).wf(),
            final(self).dimensions == old(self).dimensions,
            final(self).history() == advanced(old(self).history(), newest@),
    {
        self.single_step();
        self.set_slot(HISTORY_SLOTS - 1, newest);
        assert(self.history() =~= advanced(old(self).history(), newest@));
    }
}

/// A copy of `v`.
pub fn copy_of<T: Copy>(v: &Vec<T>) -> (r: Vec<T>)
    ensures
        r@ == v@,
{
    let mut r: Vec<T> = Vec::new();
    let mut i: usize = 0;
    while i < v.len()
        invariant
            0 <= i <= v@.len(),
            r@ == v@.take(i as int),
        decreases v@.len() - i,
    {
        r.push(v[i]);
        assert(v@.take(i as int + 1) =~= v@.take(i as int).push(v@[i as int]));
        i = i + 1;
    }
    assert(v@.take(v@.len() as int) =~= v@);
    r
}

/// The weighted sum over one body's six samples, newest first weight, times
/// the denominator: what a step adds before the time step is applied.
pub fn adb6_weighted_sum(column: &[i64; 6]) -> (r: i128)
    ensures
        r == adb6_combination(Seq::new(6, |k: int| column@[k] as int)),
{
    let c0: i128 = column[0] as i128;
    let c1: i128 = column[1] as i128;
    let c2: i128 = column[2] as i128;
    let c3: i128 = column[3] as i128;
    let c4: i128 = column[4] as i128;
    let c5: i128 = column[5] as i128;
    let w0: i128 = adb6_numerator(0) as i128;
    let w1: i128 = adb6_numerator(1) as i128;
    let w2: i128 = adb6_numerator(2) as i128;
    let w3: i128 = adb6_numerator(3) as i128;
    let w4: i128 = adb6_numerator(4) as i128;
    let w5: i128 = adb6_numerator(5) as i128;
    assert(w0 == 4277 && w1 == -7923 && w2 == 9982 && w3 == -7298 && w4 == 2877 && w5 == -475);
    w0 * c5 + w1 * c4 + w2 * c3 + w3 * c2 + w4 * c1 + w5 * c0
}

/// One thing to do while the history is being filled by Runge-Kutta rounds.
#[derive(Clone, Copy, Debug, PartialEq, Eq, Structural)]
pub enum BootstrapAction {
    /// Remember the bodies' positions and velocities as the round's start.
    Snapshot,
    /// Evaluate the forces on the bodies as they are now.
    Evaluate,
    /// Take the sample of this stage, counted from zero, from the bodies'
    /// velocities and accelerations, and set the bodies to the round's start
    /// plus half a time step of that sample.
    HalfStep { stage: usize },
    /// Take the fourth sample, set the bodies to the round's start plus a
    /// sixth of a time step of the samples weighted by `rk4_numerators`, and
    /// write the round's first sample into this slot.
    Finish { slot: usize },
    /// Write the bodies' velocities and accelerations into the newest slot.
    RecordNewest,
}

/// Number of actions in one Runge-Kutta round.
pub const ROUND_ACTIONS: usize = 9;

/// Number of actions in the whole bootstrap.
pub const BOOTSTRAP_ACTIONS: usize = 47;

/// The actions of round `r`: a snapshot, then four evaluations, each
/// followed by its sample; the last one finishes the round.
pub open spec fn round_plan(r: int) -> Seq<BootstrapAction> {
    seq![
        BootstrapAction::Snapshot,
        BootstrapAction::Evaluate,
        BootstrapAction::HalfStep { stage: 0 },
        BootstrapAction::Evaluate,
        BootstrapAction::HalfStep { stage: 1 },
        BootstrapAction::Evaluate,
        BootstrapAction::HalfStep { stage: 2 },
        BootstrapAction::Evaluate,
        BootstrapAction::Finish { slot: r as usize },
    ]
}

/// The actions of the first `n` rounds.
pub open spec fn rounds_plan(n: nat) -> Seq<BootstrapAction>
    decreases n,
{
    if n == 0 {
        Seq::empty()
    } else {
        rounds_plan((n - 1) as nat) + round_plan(n - 1)
    }
}

/// The whole bootstrap: five rounds, whose first samples fill slots zero to
/// four, then one more evaluation whose sample fills the newest slot.
pub open spec fn bootstrap_plan() -> Seq<BootstrapAction> {
    rounds_plan(BOOTSTRAP_ROUNDS as nat) + seq![
        BootstrapAction::Evaluate,
        BootstrapAction::RecordNewest,
    ]
}

/// Action `s` of round `r` stands at place `9 r + s` of the first `n` rounds.
pub proof fn lemma_rounds_plan(n: nat, r: int, s: int)
    requires
        0 <= r < n,
        0 <= s < ROUND_ACTIONS,
    ensures
        rounds_plan(n).len() == ROUND_ACTIONS * n,
        rounds_plan(n)[ROUND_ACTIONS * r + s] == round_plan(r)[s],
    decreases n,
{
    lemma_rounds_len((n - 1) as nat);
    if r < n - 1 {
        lemma_rounds_plan((n - 1) as nat, r, s);
    }
}

/// The first `n` rounds have nine actions each.
pub proof fn lemma_rounds_len(n: nat)
    ensures
        rounds_plan(n).len() == ROUND_ACTIONS * n,
    decreases n,
{
    if n > 0 {
        lemma_rounds_len((n - 1) as nat);
    }
}

/// The bootstrap fills every slot of the history: round `r` ends by writing
/// its first sample into slot `r`, and the last action writes the newest
/// slot.
pub proof fn bootstrap_fills_every_slot(slot: int)
    requires
        0 <= slot < HISTORY_SLOTS,
    ensures
        bootstrap_plan().len() == BOOTSTRAP_ACTIONS,
        slot < BOOTSTRAP_ROUNDS ==> bootstrap_plan()[ROUND_ACTIONS * slot + 8]
            == (BootstrapAction::Finish { slot: slot as usize }),
        slot == BOOTSTRAP_ROUNDS ==> bootstrap_plan()[BOOTSTRAP_ACTIONS - 1]
            == BootstrapAction::RecordNewest,
{
    lemma_rounds_len(BOOTSTRAP_ROUNDS as nat);
    if slot < BOOTSTRAP_ROUNDS {
        lemma_rounds_plan(BOOTSTRAP_ROUNDS as nat, slot, 8);
    }
}

/// Where the bootstrap stands: how many of its actions were handed out.
#[derive(Clone, Copy, Debug, PartialEq, Eq, Structural)]
pub struct Bootstrap {
    pub step: usize,
}

impl Bootstrap {
    /// A bootstrap that has not begun.
    pub fn new() -> (b: Bootstrap)
        ensures
            b.step == 0,
    {
        Bootstrap { step: 0 }
    }

    /// All actions were handed out.
    pub open spec fn done(self) -> bool {
        self.step >= BOOTSTRAP_ACTIONS
    }

    /// Whether all actions were handed out.
    pub fn is_done(&self) -> (r: bool)
        ensures
            r == self.done(),
    {
        self.step >= BOOTSTRAP_ACTIONS
    }

    /// Hands out the next action of `bootstrap_plan`, or `None` when the
    /// bootstrap is done.
    pub fn next(&mut self) -> (action: Option<BootstrapAction>)
        ensures
            old(self).done() ==> action is None && *final(self) == *old(self),
            !old(self).done() ==> action == Some(bootstrap_plan()[old(self).step as int])
                && final(self).step == old(self).step + 1,
    {
        let step = self.step;
        if step >= BOOTSTRAP_ACTIONS {
            return None;
        }
        self.step = step + 1;
        proof {
            lemma_rounds_len(BOOTSTRAP_ROUNDS as nat);
        }
        if step >= ROUND_ACTIONS * BOOTSTRAP_ROUNDS {
            if step == ROUND_ACTIONS * BOOTSTRAP_ROUNDS {
                Some(BootstrapAction::Evaluate)
            } else {
                Some(BootstrapAction::RecordNewest)
            }
        } else {
            let round = step / ROUND_ACTIONS;
            let place = step % ROUND_ACTIONS;
            proof {
                lemma_rounds_plan(BOOTSTRAP_ROUNDS as nat, round as int, place as int);
            }
            if place == 0 {
                Some(BootstrapAction::Snapshot)
            } else if place == 8 {
                Some(BootstrapAction::Finish { slot: round })
            } else if place % 2 == 1 {
                Some(BootstrapAction::Evaluate)
            } else {
                Some(BootstrapAction::HalfStep { stage: place / 2 - 1 })
            }
        }
    }
}

} // verus!
