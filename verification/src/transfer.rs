//! Carrying out bus steps one by one.
//!
//! A [`Transfer`] hands out one action after the other. Whoever talks to the
//! bus performs it and says how it went; the first write that is refused ends
//! the transfer.
use crate::driver::{BusStep, Stage};
use crate::text::{append_hex, ends_with, hex_byte};
use vstd::prelude::*;

verus! {

/// A write that the bus refused, and why.
#[derive(Debug)]
pub struct WriteFailure {
    pub stage: Stage,
    pub reg: u8,
    pub value: u8,
    pub cause: String,
}

/// The words before the report of a refused write.
pub open spec fn stage_words(stage: Stage) -> Seq<char> {
    match stage {
        Stage::Drawing => ""@,
        Stage::Shutdown => "Failed to write shutdown register: "@,
        Stage::DisplayOption => "Failed to write display option register: "@,
        Stage::PictureDisplay => "Failed to write picture display register: "@,
        Stage::ClearFrame => "Failed to clear frame: "@,
    }
}

impl WriteFailure {
    /// The report of the failure.
    pub open spec fn words(&self) -> Seq<char> {
        stage_words(self.stage) + "I²C write failed (reg: 0x"@ + hex_byte(self.reg) + ", val: 0x"@
            + hex_byte(self.value) + "): "@ + self.cause@
    }

    /// The report of the failure.
    pub fn message(&self) -> (text: String)
        ensures
            text@ == self.words(),
    {
        let mut text: String = String::from_str(
            match self.stage {
                Stage::Drawing => "",
                Stage::Shutdown => "Failed to write shutdown register: ",
                Stage::DisplayOption => "Failed to write display option register: ",
                Stage::PictureDisplay => "Failed to write picture display register: ",
                Stage::ClearFrame => "Failed to clear frame: ",
            },
        );
        text.append("I²C write failed (reg: 0x");
        append_hex(&mut text, self.reg);
        text.append(", val: 0x");
        append_hex(&mut text, self.value);
        text.append("): ");
        text.append(self.cause.as_str());
        text
    }
}

/// What to do next on the bus.
#[derive(Debug)]
pub enum BusAction {
    /// Send these two bytes.
    Write { reg: u8, value: u8 },
    /// Wait.
    Pause { micros: u64 },
    /// Everything has been done.
    Done,
    /// A write was refused; nothing further is to be done.
    Failed { failure: WriteFailure },
}

/// The action that performs a step.
pub open spec fn action_of(step: BusStep) -> BusAction {
    match step {
        BusStep::Write { reg, value, stage } => BusAction::Write { reg, value },
        BusStep::Pause { micros } => BusAction::Pause { micros },
    }
}

/// The failure of a step that is a write.
pub open spec fn failure_of(step: BusStep, cause: String) -> WriteFailure
    recommends
        step is Write,
{
    WriteFailure {
        stage: step->Write_stage,
        reg: step->Write_reg,
        value: step->Write_value,
        cause,
    }
}

/// The step before the position was a write, and it was refused.
pub open spec fn refused(steps: Seq<BusStep>, position: int, refusal: Option<String>) -> bool {
    refusal is Some && 0 < position <= steps.len() && steps[position - 1] is Write
}

/// The action after the steps before `position`, `refusal` being the cause for
/// which the last of them was refused, if it was.
pub open spec fn next_action(
    steps: Seq<BusStep>,
    position: int,
    refusal: Option<String>,
) -> BusAction {
    if refused(steps, position, refusal) {
        BusAction::Failed { failure: failure_of(steps[position - 1], refusal->0) }
    } else if position < steps.len() {
        action_of(steps[position])
    } else {
        BusAction::Done
    }
}

/// The position after that action.
pub open spec fn next_position(
    steps: Seq<BusStep>,
    position: int,
    refusal: Option<String>,
) -> int {
    if refused(steps, position, refusal) || position >= steps.len() {
        steps.len() as int
    } else {
        position + 1
    }
}

/// A list of bus steps under way.
#[derive(Debug)]
pub struct Transfer {
    steps: Vec<BusStep>,
    position: usize,
}

impl Transfer {
    /// All the steps.
    pub closed spec fn steps(&self) -> Seq<BusStep> {
        self.steps@
    }

    /// The number of steps handed out.
    pub closed spec fn position(&self) -> int {
        self.position as int
    }

    /// No more steps have been handed out than there are.
    #[verifier::type_invariant]
    spec fn well_formed(self) -> bool {
        self.position <= self.steps@.len()
    }

    /// A transfer that has not begun.
    pub fn new(steps: Vec<BusStep>) -> (transfer: Transfer)
        ensures
            transfer.steps() == steps@,
            transfer.position() == 0,
    {
        Transfer { steps, position: 0 }
    }

    /// The next action. `refusal` says why the action before it was refused, if
    /// it was.
    pub fn next(&mut self, refusal: Option<String>) -> (action: BusAction)
        ensures
            final(self).steps() == old(self).steps(),
            action == next_action(old(self).steps(), old(self).position(), refusal),
            final(self).position() == next_position(
                old(self).steps(),
                old(self).position(),
                refusal,
            ),
    {
        proof {
            use_type_invariant(&*self);
        }
        if let Some(cause) = refusal {
            if self.position > 0 {
                if let BusStep::Write { reg, value, stage } = self.steps[self.position - 1] {
                    self.position = self.steps.len();
                    return BusAction::Failed { failure: WriteFailure { stage, reg, value, cause } };
                }
            }
        }
        if self.position < self.steps.len() {
            let step: BusStep = self.steps[self.position];
            self.position = self.position + 1;
            match step {
                BusStep::Write { reg, value, stage: _ } => BusAction::Write { reg, value },
                BusStep::Pause { micros } => BusAction::Pause { micros },
            }
        } else {
            BusAction::Done
        }
    }
}

/// A step is performed as it stands: a write sends its register and value, and a
/// pause lasts as long as it says.
pub proof fn law_steps_are_performed(reg: u8, value: u8, stage: Stage, micros: u64)
    ensures
        action_of(BusStep::Write { reg, value, stage }) == (BusAction::Write { reg, value }),
        action_of(BusStep::Pause { micros }) == (BusAction::Pause { micros }),
{
}

/// A failure names the write that was refused, and its report the register, the
/// value and, at the end, the cause. Before that stand the words of the stage, of
/// which drawing has none.
pub proof fn law_failure_is_told(reg: u8, value: u8, stage: Stage, cause: String)
    ensures
        ({
            let failure = failure_of(BusStep::Write { reg, value, stage }, cause);
            let words = failure.words();
            let start = stage_words(stage).len() as int;
            &&& failure == (WriteFailure { stage, reg, value, cause })
            &&& words.len() == start + 41 + cause@.len()
            &&& words.take(start) == stage_words(stage)
            &&& words.subrange(start + 25, start + 27) == hex_byte(reg)
            &&& words.subrange(start + 36, start + 38) == hex_byte(value)
            &&& ends_with(words, cause@)
            &&& stage is Drawing ==> start == 0
            &&& !(stage is Drawing) ==> start > 0
        }),
{
    reveal_strlit("");
    reveal_strlit("Failed to write shutdown register: ");
    reveal_strlit("Failed to write display option register: ");
    reveal_strlit("Failed to write picture display register: ");
    reveal_strlit("Failed to clear frame: ");
    reveal_strlit("I²C write failed (reg: 0x");
    reveal_strlit(", val: 0x");
    reveal_strlit("): ");
    let failure = failure_of(BusStep::Write { reg, value, stage }, cause);
    let words = failure.words();
    let start = stage_words(stage).len() as int;
    assert(words.take(start) =~= stage_words(stage));
    assert(words.subrange(start + 25, start + 27) =~= hex_byte(reg));
    assert(words.subrange(start + 36, start + 38) =~= hex_byte(value));
    assert(words.skip(words.len() - cause@.len()) =~= cause@);
}

/// What is performed from `position` on and how it ends, where the bus answers
/// the step at each position with `answers`.
pub open spec fn run(
    steps: Seq<BusStep>,
    position: int,
    refusal: Option<String>,
    answers: spec_fn(int) -> Option<String>,
) -> (Seq<BusAction>, BusAction)
    decreases steps.len() - position,
{
    let action = next_action(steps, position, refusal);
    if position < 0 || position >= steps.len() || action is Failed {
        (seq![], action)
    } else {
        let (rest, end) = run(
            steps,
            next_position(steps, position, refusal),
            answers(position),
            answers,
        );
        (seq![action] + rest, end)
    }
}

/// The actions that perform the steps from position `from` up to `to`.
pub open spec fn actions(steps: Seq<BusStep>, from: int, to: int) -> Seq<BusAction> {
    Seq::new((to - from) as nat, |i: int| action_of(steps[from + i]))
}

/// Where the bus refuses no write, every step is performed, in order.
pub proof fn law_transfer_completes(steps: Seq<BusStep>, answers: spec_fn(int) -> Option<String>)
    requires
        forall|i: int|
            0 <= i < steps.len() && steps[i] is Write ==> (#[trigger] answers(i)) is None,
    ensures
        run(steps, 0, None, answers) == (actions(steps, 0, steps.len() as int), BusAction::Done),
{
    lemma_run_completes(steps, 0, None, answers);
}

proof fn lemma_run_completes(
    steps: Seq<BusStep>,
    position: int,
    refusal: Option<String>,
    answers: spec_fn(int) -> Option<String>,
)
    requires
        0 <= position <= steps.len(),
        !refused(steps, position, refusal),
        forall|i: int|
            0 <= i < steps.len() && steps[i] is Write ==> (#[trigger] answers(i)) is None,
    ensures
        run(steps, position, refusal, answers) == (
            actions(steps, position, steps.len() as int),
            BusAction::Done,
        ),
    decreases steps.len() - position,
{
    let n = steps.len() as int;
    if position < n {
        lemma_run_completes(steps, position + 1, answers(position), answers);
        assert(seq![action_of(steps[position])] + actions(steps, position + 1, n) =~= actions(
            steps,
            position,
            n,
        ));
    } else {
        assert(actions(steps, n, n) =~= seq![]);
    }
}

/// The first write that the bus refuses is the last step performed, and the
/// transfer fails with that write and the cause of its refusal.
pub proof fn law_transfer_stops_at_first_refusal(
    steps: Seq<BusStep>,
    k: int,
    answers: spec_fn(int) -> Option<String>,
)
    requires
        0 <= k < steps.len(),
        steps[k] is Write,
        answers(k) is Some,
        forall|i: int| 0 <= i < k && steps[i] is Write ==> (#[trigger] answers(i)) is None,
    ensures
        run(steps, 0, None, answers) == (
            actions(steps, 0, k + 1),
            BusAction::Failed { failure: failure_of(steps[k], answers(k)->0) },
        ),
{
    lemma_run_stops(steps, 0, None, k, answers);
}

proof fn lemma_run_stops(
    steps: Seq<BusStep>,
    position: int,
    refusal: Option<String>,
    k: int,
    answers: spec_fn(int) -> Option<String>,
)
    requires
        0 <= position <= k < steps.len(),
        !refused(steps, position, refusal),
        steps[k] is Write,
        answers(k) is Some,
        forall|i: int| 0 <= i < k && steps[i] is Write ==> (#[trigger] answers(i)) is None,
    ensures
        run(steps, position, refusal, answers) == (
            actions(steps, position, k + 1),
            BusAction::Failed { failure: failure_of(steps[k], answers(k)->0) },
        ),
    decreases k - position,
{
    if position < k {
        lemma_run_stops(steps, position + 1, answers(position), k, answers);
        assert(seq![action_of(steps[position])] + actions(steps, position + 1, k + 1) =~= actions(
            steps,
            position,
            k + 1,
        ));
    } else {
        let end = BusAction::Failed { failure: failure_of(steps[k], answers(k)->0) };
        assert(run(steps, k + 1, answers(k), answers) == (Seq::<BusAction>::empty(), end));
        assert(seq![action_of(steps[k])] + Seq::<BusAction>::empty() =~= actions(steps, k, k + 1));
    }
}

} // verus!
