//! The run over the variations of a picture: one file after the other, up to the first that
//! cannot be written.

use crate::orb::{copy_shape, OrbShape};
use crate::scene::{
    variation_file, variation_file_text, variation_rendered, variation_task, VariationTask,
};
use crate::style::SoftnessPreset;
use crate::text::{decimal, push_decimal};
use crate::variations::VariationSpec;
use vstd::prelude::*;
use vstd::string::*;

verus! {

/// What is to be done next.
#[derive(Debug)]
pub enum VariationStep {
    /// Tell the user the notice, render the task and write it to the file.
    Render { notice: String, file: String, task: VariationTask },
    /// Nothing: all variations are written, or one could not be.
    End,
}

/// A run over variations that share background, shape and softness.
#[derive(Debug)]
pub struct VariationRun {
    pub specs: Vec<VariationSpec>,
    pub background: [u8; 4],
    pub shape: OrbShape,
    pub softness: SoftnessPreset,
    /// How many are written.
    pub written: usize,
    /// Whether the one behind them could not be written.
    pub failed: bool,
}

/// What the user is told before a variation is rendered.
pub open spec fn variation_notice_text(i: nat, total: nat, file: Seq<char>) -> Seq<char> {
    "orber: variation "@ + decimal(i) + "/"@ + decimal(total) + " ("@ + file + ")"@
}

/// What the user is told of a variation that could not be written.
pub open spec fn variation_failed_text(i: nat, file: Seq<char>, why: Seq<char>) -> Seq<char> {
    "orber: variation "@ + decimal(i) + " ("@ + file + ") failed: "@ + why
}

/// Where a run over `total` variations stands after one more was tried: how many are written,
/// and whether one could not be.
pub open spec fn run_step(total: nat, state: (nat, bool), good: bool) -> (nat, bool) {
    if state.1 || state.0 >= total {
        state
    } else if good {
        (state.0 + 1, false)
    } else {
        (state.0, true)
    }
}

/// Where a run stands after the outcomes.
pub open spec fn run_state(total: nat, outcomes: Seq<bool>) -> (nat, bool)
    decreases outcomes.len(),
{
    if outcomes.len() == 0 {
        (0, false)
    } else {
        run_step(total, run_state(total, outcomes.drop_last()), outcomes.last())
    }
}

/// A run writes the variations in their order and nothing behind one that failed: those
/// written are the ones that the outcomes begin with, it fails exactly where the next
/// outcome is a failure, and otherwise goes on until all are written.
pub proof fn lemma_run_in_order(total: nat, outcomes: Seq<bool>)
    ensures
        ({
            let (written, failed) = run_state(total, outcomes);
            &&& written <= total
            &&& written <= outcomes.len()
            &&& forall|i: int| 0 <= i < written ==> #[trigger] outcomes[i]
            &&& failed <==> written < total && written < outcomes.len() && !outcomes[written as int]
            &&& !failed && written < total ==> written == outcomes.len()
        }),
    decreases outcomes.len(),
{
    if outcomes.len() > 0 {
        let front = outcomes.drop_last();
        lemma_run_in_order(total, front);
        let (before, _) = run_state(total, front);
        assert forall|i: int| 0 <= i < before implies #[trigger] outcomes[i] by {
            assert(front[i] == outcomes[i]);
        }
    }
}

impl VariationRun {
    pub open spec fn wf(self) -> bool {
        &&& self.written <= self.specs@.len()
        &&& self.failed ==> self.written < self.specs@.len()
    }

    pub open spec fn state(self) -> (nat, bool) {
        (self.written as nat, self.failed)
    }

    /// Whether nothing is left to do.
    pub open spec fn ended(self) -> bool {
        self.failed || self.written == self.specs@.len()
    }

    /// The variation that is tried next.
    pub open spec fn current(self) -> VariationSpec {
        self.specs@[self.written as int]
    }

    /// The file of the variation that is tried next.
    pub open spec fn current_file(self) -> Seq<char> {
        variation_file_text(self.written as nat + 1, self.current().label@, self.current().kind)
    }

    /// A run that has yet to write its first variation.
    pub fn new(
        specs: Vec<VariationSpec>,
        background: [u8; 4],
        shape: OrbShape,
        softness: SoftnessPreset,
    ) -> (r: VariationRun)
        ensures
            r.wf(),
            r.specs == specs,
            r.background == background,
            r.shape == shape,
            r.softness == softness,
            r.state() == run_state(specs@.len(), Seq::empty()),
    {
        VariationRun { specs, background, shape, softness, written: 0, failed: false }
    }

    /// What is to be done next.
    pub fn next_step(&self) -> (r: VariationStep)
        requires
            self.wf(),
        ensures
            match r {
                VariationStep::End => self.ended(),
                VariationStep::Render { notice, file, task } => {
                    &&& !self.ended()
                    &&& notice@ == variation_notice_text(
                        self.written as nat + 1,
                        self.specs@.len(),
                        self.current_file(),
                    )
                    &&& file@ == self.current_file()
                    &&& variation_rendered(
                        self.current(),
                        self.background,
                        self.shape,
                        self.softness,
                        task,
                    )
                },
            },
    {
        if self.failed || self.written == self.specs.len() {
            return VariationStep::End;
        }
        let spec: &VariationSpec = &self.specs[self.written];
        let file = variation_file(self.written + 1, spec);
        let mut notice = String::from_str("orber: variation ");
        push_decimal(&mut notice, (self.written + 1) as u64);
        notice.append("/");
        push_decimal(&mut notice, self.specs.len() as u64);
        notice.append(" (");
        notice.append(file.as_str());
        notice.append(")");
        let task = variation_task(
            spec,
            self.background,
            copy_shape(&self.shape),
            self.softness,
        );
        VariationStep::Render { notice, file, task }
    }

    /// Takes note of how the writing went, and returns what to tell the user of a failure.
    pub fn file_done(&mut self, outcome: Result<(), String>) -> (r: Result<(), String>)
        requires
            old(self).wf(),
            !old(self).ended(),
        ensures
            final(self).wf(),
            final(self).specs == old(self).specs,
            final(self).background == old(self).background,
            final(self).shape == old(self).shape,
            final(self).softness == old(self).softness,
            final(self).state() == run_step(
                old(self).specs@.len(),
                old(self).state(),
                outcome is Ok,
            ),
            match outcome {
                Ok(_) => r is Ok,
                Err(why) => r matches Err(e) && e@ == variation_failed_text(
                    old(self).written as nat + 1,
                    old(self).current_file(),
                    why@,
                ),
            },
    {
        assert(self.written < self.specs.len());
        match outcome {
            Ok(_) => {
                self.written = self.written + 1;
                Ok(())
            },
            Err(why) => {
                let file = variation_file(self.written + 1, &self.specs[self.written]);
                let mut e = String::from_str("orber: variation ");
                push_decimal(&mut e, (self.written + 1) as u64);
                e.append(" (");
                e.append(file.as_str());
                e.append(") failed: ");
                e.append(why.as_str());
                self.failed = true;
                Err(e)
            },
        }
    }
}

} // verus!
