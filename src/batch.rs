//! The decisions of a batch run: what each file's result means for the run,
//! and the progress tally that the workers share.

use crate::backend::{Outcome, SkipReason};
use crate::catalog::{resolve, resolved};
use crate::ranges::{
    parse_unicode_ranges, parsed_as, selection, token_error, tokens_selection, views, RangeError,
    UnicodeValue,
};
use vstd::prelude::*;
use vstd::string::*;

verus! {

/// Whether the run goes on after a file.
#[derive(Clone, Copy, Debug, PartialEq, Eq, Structural)]
pub enum Step {
    Continue,
    /// End the run with a failure status.
    Abort,
}

/// The step that follows a file's outcome: only a fatal one ends the run.
pub open spec fn step_after(o: Outcome) -> Step {
    if o is Fatal {
        Step::Abort
    } else {
        Step::Continue
    }
}

/// The tally after one more file completes with the given outcome.
pub open spec fn after(p: Progress, o: Outcome) -> Progress {
    Progress {
        completed: (p.completed + 1) as usize,
        written: (p.written + if o is Written {
            1int
        } else {
            0
        }) as usize,
        skipped: (p.skipped + if o is Skipped {
            1int
        } else {
            0
        }) as usize,
        fatal: (p.fatal + if o is Fatal {
            1int
        } else {
            0
        }) as usize,
        ..p
    }
}

/// The tally after the files complete with the given outcomes, in order.
pub open spec fn tally(p: Progress, os: Seq<Outcome>) -> Progress
    decreases os.len(),
{
    if os.len() == 0 {
        p
    } else {
        after(tally(p, os.drop_last()), os.last())
    }
}

/// The number of outcomes that wrote a file.
pub open spec fn count_written(os: Seq<Outcome>) -> nat
    decreases os.len(),
{
    if os.len() == 0 {
        0
    } else {
        count_written(os.drop_last()) + if os.last() is Written {
            1nat
        } else {
            0
        }
    }
}

/// Counts of the files of a run, by outcome.
#[derive(Clone, Copy, Debug, PartialEq, Eq, Structural)]
pub struct Progress {
    pub total: usize,
    pub completed: usize,
    pub written: usize,
    pub skipped: usize,
    pub fatal: usize,
}

impl Progress {
    /// Every completed file is counted under exactly one outcome, and no more
    /// files complete than the run has.
    pub open spec fn wf(&self) -> bool {
        &&& self.written + self.skipped + self.fatal == self.completed
        &&& self.completed <= self.total
    }

    /// The tally of a run of `total` files before any has completed.
    pub fn new(total: usize) -> (r: Progress)
        ensures
            r.wf(),
            r == (Progress { total, completed: 0, written: 0, skipped: 0, fatal: 0 }),
    {
        Progress { total, completed: 0, written: 0, skipped: 0, fatal: 0 }
    }

    /// Counts one more completed file, whatever its outcome, and says
    /// whether the run goes on.
    pub fn record(&mut self, outcome: Outcome) -> (r: Step)
        requires
            old(self).wf(),
            old(self).completed < old(self).total,
        ensures
            final(self).wf(),
            final(self).total == old(self).total,
            final(self).completed == old(self).completed + 1,
            final(self).written == old(self).written + if outcome is Written {
                1int
            } else {
                0
            },
            final(self).skipped == old(self).skipped + if outcome is Skipped {
                1int
            } else {
                0
            },
            final(self).fatal == old(self).fatal + if outcome is Fatal {
                1int
            } else {
                0
            },
            *final(self) == after(*old(self), outcome),
            r == step_after(outcome),
    {
        self.completed = self.completed + 1;
        match outcome {
            Outcome::Written => {
                self.written = self.written + 1;
                Step::Continue
            },
            Outcome::Skipped(_) => {
                self.skipped = self.skipped + 1;
                Step::Continue
            },
            Outcome::Fatal => {
                self.fatal = self.fatal + 1;
                Step::Abort
            },
        }
    }

    /// Whether every file of the run has completed.
    pub fn is_done(&self) -> (r: bool)
        ensures
            r == (self.completed == self.total),
    {
        self.completed == self.total
    }

    /// The process status of the run: 1 once a file failed fatally, else 0.
    pub fn exit_code(&self) -> (r: i32)
        ensures
            r == (if self.fatal > 0 {
                1i32
            } else {
                0i32
            }),
    {
        if self.fatal > 0 {
            1
        } else {
            0
        }
    }
}

/// The outcome of the in-process backend on a file: written where it made an
/// artifact, skipped otherwise. It is never fatal.
pub open spec fn outcome_of(artifact: Result<Vec<u8>, SkipReason>) -> Outcome {
    match artifact {
        Ok(_) => Outcome::Written,
        Err(k) => Outcome::Skipped(k),
    }
}

/// The number of files for which the in-process backend made an artifact.
pub open spec fn count_artifacts(artifacts: Seq<Result<Vec<u8>, SkipReason>>) -> nat
    decreases artifacts.len(),
{
    if artifacts.len() == 0 {
        0
    } else {
        count_artifacts(artifacts.drop_last()) + if artifacts.last() is Ok {
            1nat
        } else {
            0
        }
    }
}

/// The outcome of the in-process backend on a file.
pub fn artifact_outcome(artifact: &Result<Vec<u8>, SkipReason>) -> (r: Outcome)
    ensures
        r == outcome_of(*artifact),
{
    match artifact {
        Ok(_) => Outcome::Written,
        Err(k) => Outcome::Skipped(*k),
    }
}

/// The outcome of the external tool on a file, from its exit code (`None`
/// where it could not be started or ended without one): written on 0, and
/// fatal otherwise.
pub fn external_outcome(exit_code: Option<i32>) -> (r: Outcome)
    ensures
        r == (if exit_code == Some(0i32) {
            Outcome::Written
        } else {
            Outcome::Fatal
        }),
{
    match exit_code {
        Some(0) => Outcome::Written,
        _ => Outcome::Fatal,
    }
}

/// The codepoint selection of the requested subset names: the tokens of the
/// names, each parsed. A token that does not parse ends the run before any
/// file is touched.
pub fn resolve_selection(names: &[String]) -> (r: Result<Vec<UnicodeValue>, RangeError>)
    ensures
        ({
            let ts = resolved(views(names@));
            &&& r is Ok <==> forall|i: int| 0 <= i < ts.len() ==> token_error(#[trigger] ts[i]) is None
            &&& r matches Ok(vs) ==> vs@.len() == ts.len() && forall|i: int|
                0 <= i < ts.len() ==> parsed_as(#[trigger] ts[i], Ok(vs@[i]))
            &&& r matches Ok(vs) ==> selection(vs@) == tokens_selection(ts)
            &&& r matches Err(e) ==> e.index < ts.len() && parsed_as(ts[e.index as int], Err(e.kind))
                && forall|j: int| 0 <= j < e.index ==> token_error(#[trigger] ts[j]) is None
        }),
{
    let tokens = resolve(names);
    let r = parse_unicode_ranges(tokens.as_slice());
    proof {
        let ts = resolved(views(names@));
        assert forall|i: int| 0 <= i < ts.len() implies ts[i] == (#[trigger] tokens@[i])@ by {
            assert(views(tokens@)[i] == tokens@[i]@);
        }
        assert(views(tokens@) == ts);
        if r is Err {
            assert forall|j: int| 0 <= j < r->Err_0.index implies token_error(#[trigger] ts[j]) is None by {
                assert(ts[j] == tokens@[j]@);
            }
        }
    }
    r
}

/// The status line shown while a file is in flight.
pub fn status_message(file: &str) -> (r: String)
    ensures
        r@ == "Subsetting 'input/"@ + file@ + "'"@,
{
    let mut r = String::from_str("Subsetting 'input/");
    r.append(file);
    r.append("'");
    r
}

/// The line shown once every file has been attempted.
pub fn finish_message() -> (r: String)
    ensures
        r@ == "Font subsetting complete."@,
{
    String::from_str("Font subsetting complete.")
}

proof fn lemma_tally_without_fatal(p: Progress, os: Seq<Outcome>)
    requires
        p.wf(),
        p.completed + os.len() <= p.total,
        forall|i: int| 0 <= i < os.len() ==> !(#[trigger] os[i] is Fatal),
    ensures
        tally(p, os).wf(),
        tally(p, os).total == p.total,
        tally(p, os).completed == p.completed + os.len(),
        tally(p, os).written == p.written + count_written(os),
        tally(p, os).fatal == p.fatal,
    decreases os.len(),
{
    if os.len() > 0 {
        let init = os.drop_last();
        assert forall|i: int| 0 <= i < init.len() implies !(#[trigger] init[i] is Fatal) by {
            assert(init[i] == os[i]);
        }
        lemma_tally_without_fatal(p, init);
        assert(!(os[os.len() - 1] is Fatal));
    }
}

/// In a batch of in-process results, a file that is skipped (malformed, or
/// declined by the engine or the compressor) stops nothing: every file is
/// recorded, the run never aborts nor fails, and exactly the files with an
/// artifact are counted as written. So with one malformed file among `n`
/// whose others all have an artifact, `n - 1` are written.
pub proof fn lemma_skipped_files_do_not_stop_batch(artifacts: Seq<Result<Vec<u8>, SkipReason>>)
    requires
        artifacts.len() <= usize::MAX,
    ensures
        ({
            let os = artifacts.map_values(|a: Result<Vec<u8>, SkipReason>| outcome_of(a));
            let start = Progress {
                total: artifacts.len() as usize,
                completed: 0,
                written: 0,
                skipped: 0,
                fatal: 0,
            };
            &&& forall|i: int| 0 <= i < os.len() ==> step_after(#[trigger] os[i]) == Step::Continue
            &&& tally(start, os).completed == artifacts.len()
            &&& tally(start, os).written == count_artifacts(artifacts)
            &&& tally(start, os).skipped == artifacts.len() - count_artifacts(artifacts)
            &&& tally(start, os).fatal == 0
        }),
    decreases artifacts.len(),
{
    let os = artifacts.map_values(|a: Result<Vec<u8>, SkipReason>| outcome_of(a));
    let start = Progress {
        total: artifacts.len() as usize,
        completed: 0,
        written: 0,
        skipped: 0,
        fatal: 0,
    };
    assert forall|i: int| 0 <= i < os.len() implies step_after(#[trigger] os[i]) == Step::Continue
        && !(os[i] is Fatal) by {
        assert(os[i] == outcome_of(artifacts[i]));
    }
    lemma_tally_without_fatal(start, os);
    lemma_count_written(artifacts);
}

proof fn lemma_count_written(artifacts: Seq<Result<Vec<u8>, SkipReason>>)
    ensures
        count_written(artifacts.map_values(|a: Result<Vec<u8>, SkipReason>| outcome_of(a)))
            == count_artifacts(artifacts),
        count_artifacts(artifacts) <= artifacts.len(),
    decreases artifacts.len(),
{
    if artifacts.len() > 0 {
        let os = artifacts.map_values(|a: Result<Vec<u8>, SkipReason>| outcome_of(a));
        assert(os.drop_last() =~= artifacts.drop_last().map_values(
            |a: Result<Vec<u8>, SkipReason>| outcome_of(a),
        ));
        lemma_count_written(artifacts.drop_last());
    }
}

} // verus!
