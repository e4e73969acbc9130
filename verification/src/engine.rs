//! The orchestration engine: walks the plan's subflakes in sorted name
//! order, applies the selector and platform-compatibility filters, schedules
//! every (subflake, step, system) triple strictly in sequence, and aggregates
//! the outcomes — aborting the whole run at the first failing step.
//!
//! The engine never runs a step itself. A caller asks `next_action` what to
//! do, performs the scheduled step, and hands the outcome back through
//! `apply`; `finish` then yields either the aggregate result of a fully
//! successful run or the first error.

use vstd::prelude::*;

use crate::bytes::clone_bytes;
use crate::config::{
    compatible, entry_views, is_attempted, name_sorted, names_unique, selected, Entry, EntryView,
    OmConfig,
};
use crate::error::{CiError, CiErrorView};

verus! {

/// What the caller observed when it performed one scheduled step.
pub enum StepOutcome {
    Passed,
    Failed { diagnostic: Vec<u8> },
}

/// One executed (step, system) pair of a subflake, in execution order.
pub struct StepRun {
    pub step: Vec<u8>,
    pub system: Vec<u8>,
}

/// Mathematical image of a `StepRun`.
pub struct StepRunView {
    pub step: Seq<u8>,
    pub system: Seq<u8>,
}

impl View for StepRun {
    type V = StepRunView;

    open spec fn view(&self) -> StepRunView {
        StepRunView { step: self.step@, system: self.system@ }
    }
}

/// The outcome collection of one fully executed subflake: every scheduled
/// (step, system) pair, each of which passed.
pub struct StepsOutcome {
    pub runs: Vec<StepRun>,
}

/// One completed subflake with its outcome collection.
pub struct SubResult {
    pub name: Vec<u8>,
    pub outcome: StepsOutcome,
}

/// Mathematical image of a `SubResult`.
pub struct SubResultView {
    pub name: Seq<u8>,
    pub runs: Seq<StepRunView>,
}

/// The images of a sequence of step runs.
pub open spec fn run_views(s: Seq<StepRun>) -> Seq<StepRunView> {
    Seq::new(s.len(), |i: int| s[i]@)
}

impl View for SubResult {
    type V = SubResultView;

    open spec fn view(&self) -> SubResultView {
        SubResultView { name: self.name@, runs: run_views(self.outcome.runs@) }
    }
}

/// The images of a sequence of completed subflakes.
pub open spec fn sub_views(s: Seq<SubResult>) -> Seq<SubResultView> {
    Seq::new(s.len(), |i: int| s[i]@)
}

/// Why a subflake was passed over. A skip is an observation for the
/// operator's log only: it never aborts a run and never enters the result.
#[derive(PartialEq, Eq, Structural, Clone, Copy, Debug)]
pub enum SkipReason {
    /// A selector named some other subflake.
    Deselected,
    /// The subflake supports none of the resolved platforms.
    IncompatibleSystem,
}

/// One skipped subflake with the reason.
pub struct SkipRecord {
    pub name: Vec<u8>,
    pub reason: SkipReason,
}

/// Mathematical image of a `SkipRecord`.
pub struct SkipRecordView {
    pub name: Seq<u8>,
    pub reason: SkipReason,
}

impl View for SkipRecord {
    type V = SkipRecordView;

    open spec fn view(&self) -> SkipRecordView {
        SkipRecordView { name: self.name@, reason: self.reason }
    }
}

/// The images of a sequence of skip records.
pub open spec fn skip_views(s: Seq<SkipRecord>) -> Seq<SkipRecordView> {
    Seq::new(s.len(), |i: int| s[i]@)
}

/// What the engine asks its caller to do next.
pub enum Action {
    /// Execute this step of this subflake against this system and report
    /// the outcome through `apply`.
    Run { subflake: Vec<u8>, dir: Vec<u8>, step: Vec<u8>, system: Vec<u8> },
    /// Every scheduled triple passed; `finish` yields the run result.
    Done,
    /// A step failed; the run is aborted and `finish` yields the error.
    Aborted,
}

/// The aggregate report of a fully successful run.
pub struct RunResult {
    /// The resolved platform set the run was built for.
    pub systems: Vec<Vec<u8>>,
    /// The configuration reference the plan was computed from.
    pub flake: Vec<u8>,
    /// One entry per subflake that was actually attempted, in attempt
    /// order; skipped subflakes are absent.
    pub result: Vec<SubResult>,
}

/// Mathematical image of a `RunResult`.
pub struct RunResultView {
    pub systems: Seq<Seq<u8>>,
    pub flake: Seq<u8>,
    pub result: Seq<SubResultView>,
}

impl View for RunResult {
    type V = RunResultView;

    open spec fn view(&self) -> RunResultView {
        RunResultView {
            systems: self.systems.deep_view(),
            flake: self.flake@,
            result: sub_views(self.result@),
        }
    }
}

/// The (step, system) pairs one step contributes: the step is executed once
/// against each resolved platform, in platform order.
pub open spec fn runs_of_step(step: Seq<u8>, systems: Seq<Seq<u8>>) -> Seq<StepRunView>
    decreases systems.len(),
{
    if systems.len() == 0 {
        Seq::empty()
    } else {
        runs_of_step(step, systems.drop_last()).push(
            StepRunView { step, system: systems.last() },
        )
    }
}

/// The full outcome collection of one subflake: its steps in declared
/// order, each against every resolved platform.
pub open spec fn outcome_of(steps: Seq<Seq<u8>>, systems: Seq<Seq<u8>>) -> Seq<StepRunView>
    decreases steps.len(),
{
    if steps.len() == 0 {
        Seq::empty()
    } else {
        outcome_of(steps.drop_last(), systems) + runs_of_step(steps.last(), systems)
    }
}

/// The subflakes a run attempts: those of the (sorted) plan that pass both
/// the selector filter and the platform-compatibility filter, in plan order.
pub open spec fn attempts_of(
    s: Seq<EntryView>,
    selector: Option<Seq<u8>>,
    systems: Seq<Seq<u8>>,
) -> Seq<EntryView>
    decreases s.len(),
{
    if s.len() == 0 {
        Seq::empty()
    } else {
        let prev = attempts_of(s.drop_last(), selector, systems);
        if is_attempted(s.last(), selector, systems) {
            prev.push(s.last())
        } else {
            prev
        }
    }
}

/// The subflakes a run skips, each with its reason, in plan order.
pub open spec fn skips_of(
    s: Seq<EntryView>,
    selector: Option<Seq<u8>>,
    systems: Seq<Seq<u8>>,
) -> Seq<SkipRecordView>
    decreases s.len(),
{
    if s.len() == 0 {
        Seq::empty()
    } else {
        let prev = skips_of(s.drop_last(), selector, systems);
        let e = s.last();
        if !selected(selector, e.name) {
            prev.push(SkipRecordView { name: e.name, reason: SkipReason::Deselected })
        } else if !compatible(e.subflake, systems) {
            prev.push(SkipRecordView { name: e.name, reason: SkipReason::IncompatibleSystem })
        } else {
            prev
        }
    }
}

/// The result mapping of a fully successful run over the given attempts.
pub open spec fn results_of(atts: Seq<EntryView>, systems: Seq<Seq<u8>>) -> Seq<SubResultView>
    decreases atts.len(),
{
    if atts.len() == 0 {
        Seq::empty()
    } else {
        results_of(atts.drop_last(), systems).push(
            SubResultView {
                name: atts.last().name,
                runs: outcome_of(atts.last().subflake.steps, systems),
            },
        )
    }
}

/// The number of executed triples a partial result stands for.
pub open spec fn flat_len(rs: Seq<SubResultView>) -> int
    decreases rs.len(),
{
    if rs.len() == 0 {
        0
    } else {
        flat_len(rs.drop_last()) + rs.last().runs.len()
    }
}

proof fn lemma_runs_of_step_len(step: Seq<u8>, systems: Seq<Seq<u8>>)
    ensures
        runs_of_step(step, systems).len() == systems.len(),
    decreases systems.len(),
{
    if systems.len() > 0 {
        lemma_runs_of_step_len(step, systems.drop_last());
    }
}

proof fn lemma_outcome_take_le(steps: Seq<Seq<u8>>, systems: Seq<Seq<u8>>, s: int)
    requires
        0 <= s <= steps.len(),
    ensures
        outcome_of(steps.take(s), systems).len() <= outcome_of(steps, systems).len(),
    decreases steps.len() - s,
{
    if s == steps.len() {
        assert(steps.take(s) =~= steps);
    } else {
        assert(steps.take(s + 1).drop_last() =~= steps.take(s));
        assert(steps.take(s + 1).last() == steps[s]);
        lemma_runs_of_step_len(steps[s], systems);
        assert(outcome_of(steps.take(s + 1), systems).len() == outcome_of(steps.take(s), systems).len()
            + systems.len());
        lemma_outcome_take_le(steps, systems, s + 1);
    }
}

proof fn lemma_flat_take_le(atts: Seq<EntryView>, systems: Seq<Seq<u8>>, a: int)
    requires
        0 <= a <= atts.len(),
    ensures
        flat_len(results_of(atts.take(a), systems)) <= flat_len(results_of(atts, systems)),
        a < atts.len() ==> flat_len(results_of(atts.take(a), systems)) + outcome_of(
            atts[a].subflake.steps,
            systems,
        ).len() <= flat_len(results_of(atts, systems)),
    decreases atts.len() - a,
{
    if a == atts.len() {
        assert(atts.take(a) =~= atts);
    } else {
        assert(atts.take(a + 1).drop_last() =~= atts.take(a));
        assert(atts.take(a + 1).last() == atts[a]);
        let sub = SubResultView {
            name: atts[a].name,
            runs: outcome_of(atts[a].subflake.steps, systems),
        };
        let r1 = results_of(atts.take(a + 1), systems);
        let r0 = results_of(atts.take(a), systems);
        assert(r1 == r0.push(sub));
        assert(r1.drop_last() =~= r0);
        assert(r1.last() == sub);
        assert(flat_len(r1) == flat_len(r0) + outcome_of(atts[a].subflake.steps, systems).len());
        lemma_flat_take_le(atts, systems, a + 1);
    }
}

/// The orchestration state machine of one run.
pub struct Engine {
    systems: Vec<Vec<u8>>,
    flake: Vec<u8>,
    attempts: Vec<Entry>,
    skips: Vec<SkipRecord>,
    a_idx: usize,
    s_idx: usize,
    y_idx: usize,
    results: Vec<SubResult>,
    current_runs: Vec<StepRun>,
    failure: Option<CiError>,
}

impl Engine {
    /// The resolved platform set.
    pub closed spec fn systems_v(&self) -> Seq<Seq<u8>> {
        self.systems.deep_view()
    }

    /// The configuration reference of the run.
    pub closed spec fn flake_v(&self) -> Seq<u8> {
        self.flake@
    }

    /// The subflakes the run attempts, in attempt order.
    pub closed spec fn attempts_v(&self) -> Seq<EntryView> {
        entry_views(self.attempts@)
    }

    /// The subflakes the run skips, with reasons.
    pub closed spec fn skips_v(&self) -> Seq<SkipRecordView> {
        skip_views(self.skips@)
    }

    /// The completed portion of the result mapping.
    pub closed spec fn results_v(&self) -> Seq<SubResultView> {
        sub_views(self.results@)
    }

    /// The error the run aborted with, if any.
    pub closed spec fn failure_v(&self) -> Option<CiErrorView> {
        match self.failure {
            None => None,
            Some(e) => Some(e@),
        }
    }

    /// The run aborted on a failed step.
    pub open spec fn failed(&self) -> bool {
        self.failure_v() is Some
    }

    /// Every scheduled triple has been executed.
    pub closed spec fn done(&self) -> bool {
        self.a_idx as int == self.attempts_v().len()
    }

    /// The cursor: current attempt, step within it, system within the step.
    pub closed spec fn cursor(&self) -> (int, int, int) {
        (self.a_idx as int, self.s_idx as int, self.y_idx as int)
    }

    /// The subflake the cursor stands on.
    pub open spec fn cur_name(&self) -> Seq<u8> {
        self.attempts_v()[self.cursor().0].name
    }

    /// Its source directory.
    pub open spec fn cur_dir(&self) -> Seq<u8> {
        self.attempts_v()[self.cursor().0].subflake.dir
    }

    /// The step the cursor stands on.
    pub open spec fn cur_step(&self) -> Seq<u8> {
        self.attempts_v()[self.cursor().0].subflake.steps[self.cursor().1]
    }

    /// The system the cursor stands on.
    pub open spec fn cur_system(&self) -> Seq<u8> {
        self.systems_v()[self.cursor().2]
    }

    /// How many triples have been executed so far.
    pub closed spec fn consumed(&self) -> int {
        flat_len(self.results_v()) + run_views(self.current_runs@).len()
    }

    /// How many triples the whole run schedules: the flattened size of the
    /// result mapping a fully successful run would aggregate.
    pub open spec fn total(&self) -> int {
        flat_len(results_of(self.attempts_v(), self.systems_v()))
    }

    proof fn lemma_done_consumed(&self)
        requires
            self.inv(),
        ensures
            self.consumed() <= self.total(),
            self.done() <==> self.consumed() == self.total(),
    {
        let atts = self.attempts_v();
        let sysv = self.systems_v();
        let a = self.a_idx as int;
        if a == atts.len() {
            assert(atts.take(a) =~= atts);
            assert(run_views(self.current_runs@).len() == 0);
        } else {
            let steps = atts[a].subflake.steps;
            let s = self.s_idx as int;
            let y = self.y_idx as int;
            lemma_runs_of_step_len(steps[s], sysv.take(y));
            assert(sysv.take(y).len() == y);
            assert(run_views(self.current_runs@).len() == outcome_of(steps.take(s), sysv).len()
                + y);
            assert(steps.take(s + 1).drop_last() =~= steps.take(s));
            assert(steps.take(s + 1).last() == steps[s]);
            lemma_runs_of_step_len(steps[s], sysv);
            assert(outcome_of(steps.take(s + 1), sysv).len() == outcome_of(steps.take(s), sysv).len()
                + sysv.len());
            lemma_outcome_take_le(steps, sysv, s + 1);
            assert(run_views(self.current_runs@).len() < outcome_of(steps, sysv).len());
            lemma_flat_take_le(atts, sysv, a);
            assert(self.consumed() < self.total());
        }
    }

    spec fn loose_inv(&self) -> bool {
        let atts = self.attempts_v();
        let sysv = self.systems_v();
        &&& self.a_idx as int <= atts.len()
        &&& self.results_v() == results_of(atts.take(self.a_idx as int), sysv)
        &&& (self.a_idx as int) < atts.len() ==> {
            let steps = atts[self.a_idx as int].subflake.steps;
            &&& self.s_idx as int <= steps.len()
            &&& self.y_idx as int <= sysv.len()
            &&& (self.s_idx as int) < steps.len() ==> run_views(self.current_runs@) == outcome_of(
                steps.take(self.s_idx as int),
                sysv,
            ) + runs_of_step(steps[self.s_idx as int], sysv.take(self.y_idx as int))
            &&& (self.s_idx as int) == steps.len() ==> (self.y_idx == 0 && run_views(
                self.current_runs@,
            ) == outcome_of(steps, sysv))
        }
        &&& (self.a_idx as int == atts.len() ==> self.current_runs@.len() == 0)
    }

    /// The engine's internal consistency: the completed results are exactly
    /// those of the attempts before the cursor, and the cursor stands on a
    /// real (step, system) position whenever work remains.
    pub closed spec fn inv(&self) -> bool {
        let atts = self.attempts_v();
        &&& self.loose_inv()
        &&& (self.a_idx as int) < atts.len() ==> {
            let steps = atts[self.a_idx as int].subflake.steps;
            (self.s_idx as int) < steps.len() && (self.y_idx as int) < self.systems_v().len()
        }
    }

    /// Advances the cursor past finished steps and attempts, completing any
    /// attempt whose scheduled triples are exhausted (in particular one with
    /// no steps at all), until it stands on a real position or the run is
    /// done.
    fn normalize(&mut self)
        requires
            old(self).loose_inv(),
        ensures
            final(self).inv(),
            final(self).attempts_v() == old(self).attempts_v(),
            final(self).skips_v() == old(self).skips_v(),
            final(self).systems_v() == old(self).systems_v(),
            final(self).flake_v() == old(self).flake_v(),
            final(self).failure_v() == old(self).failure_v(),
            final(self).consumed() == old(self).consumed(),
    {
        while self.a_idx < self.attempts.len() && (self.s_idx
            == self.attempts[self.a_idx].subflake.steps.len() || self.y_idx == self.systems.len())
            invariant
                self.loose_inv(),
                self.attempts_v() == old(self).attempts_v(),
                self.skips_v() == old(self).skips_v(),
                self.systems_v() == old(self).systems_v(),
                self.flake_v() == old(self).flake_v(),
                self.failure_v() == old(self).failure_v(),
                self.consumed() == old(self).consumed(),
            decreases
                    self.attempts@.len() - self.a_idx,
                    (if (self.a_idx as int) < self.attempts@.len() {
                        self.attempts_v()[self.a_idx as int].subflake.steps.len() + 1
                            - self.s_idx
                    } else {
                        0
                    }),
    {
            let ghost atts = self.attempts_v();
            let ghost sysv = self.systems_v();
            let ghost a = self.a_idx as int;
            let ghost steps = atts[a].subflake.steps;
            proof {
                assert(atts[a].subflake.steps == self.attempts@[a]@.subflake.steps);
                let cur = self.attempts@[a];
                assert(cur@.subflake.steps.len() == cur.subflake.steps@.len());
            }
            if self.s_idx == self.attempts[self.a_idx].subflake.steps.len() {
                let ghost pre_results = self.results_v();
                let ghost pre_runs = run_views(self.current_runs@);
                let name = clone_bytes(&self.attempts[self.a_idx].name);
                let mut runs: Vec<StepRun> = Vec::new();
                core::mem::swap(&mut runs, &mut self.current_runs);
                self.results.push(SubResult { name, outcome: StepsOutcome { runs } });
                self.a_idx = self.a_idx + 1;
                self.s_idx = 0;
                self.y_idx = 0;
                proof {
                    let taken = atts.take(a + 1);
                    assert(taken.drop_last() =~= atts.take(a));
                    assert(taken.last() == atts[a]);
                    assert(self.results_v() =~= pre_results.push(
                        SubResultView { name: atts[a].name, runs: pre_runs },
                    ));
                    assert(self.results_v() == results_of(taken, sysv));
                    assert(self.results_v().drop_last() =~= pre_results);
                    assert(flat_len(self.results_v()) == flat_len(pre_results)
                        + pre_runs.len());
                    assert(run_views(self.current_runs@) =~= Seq::<StepRunView>::empty());
                }
            } else {
                // every system has run for this step: move to the next step
                let ghost s = self.s_idx as int;
                self.s_idx = self.s_idx + 1;
                self.y_idx = 0;
                proof {
                    assert(sysv.take(sysv.len() as int) =~= sysv);
                    let taken = steps.take(s + 1);
                    assert(taken.drop_last() =~= steps.take(s));
                    assert(taken.last() == steps[s]);
                    assert(outcome_of(taken, sysv) == outcome_of(steps.take(s), sysv)
                        + runs_of_step(steps[s], sysv));
                    if (self.s_idx as int) < steps.len() {
                        assert(sysv.take(0) =~= Seq::<Seq<u8>>::empty());
                        assert(runs_of_step(steps[self.s_idx as int], sysv.take(0))
                            =~= Seq::<StepRunView>::empty());
                        assert(run_views(self.current_runs@) =~= outcome_of(taken, sysv)
                            + runs_of_step(steps[self.s_idx as int], sysv.take(0)));
                    } else {
                        assert(steps.take(s + 1) =~= steps);
                    }
                }
            }
        }
    }

    /// Builds the engine for one run: extracts the selector, sorts the plan
    /// by subflake name, and splits it into the attempts (in deterministic
    /// order) and the skips, each skip with its reason.
    pub fn new(cfg: OmConfig, systems: Vec<Vec<u8>>) -> (e: Engine)
        ensures
            e.inv(),
            !e.failed(),
            e.consumed() == 0,
            e.consumed() <= e.total(),
            e.done() <==> e.consumed() == e.total(),
            e.systems_v() == systems.deep_view(),
            e.flake_v() == cfg.flake_url@,
            exists|srt: Seq<EntryView>|
                {
                    &&& #[trigger] name_sorted(srt)
                    &&& srt.to_multiset() == cfg.subflakes@.to_multiset()
                    &&& e.attempts_v() == attempts_of(
                        srt,
                        cfg.spec_selector(),
                        systems.deep_view(),
                    )
                    &&& e.skips_v() == skips_of(srt, cfg.spec_selector(), systems.deep_view())
                },
    {
        let ghost selv = cfg.spec_selector();
        let ghost sysv = systems.deep_view();
        let OmConfig { flake_url, mut attrs, subflakes } = cfg;
        let selector: Option<Vec<u8>> = if attrs.len() == 0 {
            None
        } else {
            Some(attrs.remove(0))
        };
        proof {
            match &selector {
                None => assert(selv is None),
                Some(s) => assert(selv == Some(s@)),
            }
        }
        let mut rest = subflakes.sorted_entries();
        let ghost srt = entry_views(rest@);
        let mut attempts: Vec<Entry> = Vec::new();
        let mut skips: Vec<SkipRecord> = Vec::new();
        let ghost total = srt.len() as int;
        proof {
            assert(srt.take(0) =~= Seq::<EntryView>::empty());
            assert(entry_views(rest@) =~= srt.skip(0));
        }
        while rest.len() > 0
            invariant
                entry_views(rest@) == srt.skip(total - rest@.len()),
                0 <= total - rest@.len() <= total,
                total == srt.len(),
                sysv == systems.deep_view(),
                (match selector {
                    None => selv is None,
                    Some(s) => selv == Some(s@),
                }),
                entry_views(attempts@) == attempts_of(srt.take(total - rest@.len()), selv, sysv),
                skip_views(skips@) == skips_of(srt.take(total - rest@.len()), selv, sysv),
            decreases rest@.len(),
        {
            let ghost i = total - rest@.len();
            let ghost pre_attempts = entry_views(attempts@);
            let ghost pre_skips = skip_views(skips@);
            let ghost pre_rest = rest@;
            let e = rest.remove(0);
            proof {
                assert(entry_views(pre_rest)[0] == srt.skip(i)[0]);
                assert(srt.skip(i)[0] == srt[i]);
                assert(e@ == srt[i]);
                assert forall|k: int| 0 <= k < rest@.len() implies entry_views(rest@)[k]
                    == srt.skip(i + 1)[k] by {
                    assert(rest@[k] == pre_rest[k + 1]);
                    assert(entry_views(pre_rest)[k + 1] == srt.skip(i)[k + 1]);
                    assert(srt.skip(i)[k + 1] == srt[i + 1 + k]);
                    assert(srt.skip(i + 1)[k] == srt[i + 1 + k]);
                }
                assert(entry_views(rest@) =~= srt.skip(i + 1));
                assert(srt.take(i + 1).drop_last() =~= srt.take(i));
                assert(srt.take(i + 1).last() == srt[i]);
            }
            let is_sel = match &selector {
                None => true,
                Some(s) => crate::bytes::bytes_eq(s, &e.name),
            };
            if !is_sel {
                skips.push(SkipRecord { name: e.name, reason: SkipReason::Deselected });
                proof {
                    assert(skip_views(skips@) =~= pre_skips.push(
                        SkipRecordView { name: srt[i].name, reason: SkipReason::Deselected },
                    ));
                    assert(!selected(selv, srt[i].name));
                }
            } else if !e.subflake.can_run_on(&systems) {
                skips.push(SkipRecord { name: e.name, reason: SkipReason::IncompatibleSystem });
                proof {
                    assert(skip_views(skips@) =~= pre_skips.push(
                        SkipRecordView {
                            name: srt[i].name,
                            reason: SkipReason::IncompatibleSystem,
                        },
                    ));
                    assert(selected(selv, srt[i].name));
                    assert(!compatible(srt[i].subflake, sysv));
                }
            } else {
                attempts.push(e);
                proof {
                    assert(entry_views(attempts@) =~= pre_attempts.push(srt[i]));
                    assert(is_attempted(srt[i], selv, sysv));
                }
            }
        }
        proof {
            assert(srt.take(total) =~= srt);
        }
        let mut engine = Engine {
            systems,
            flake: flake_url,
            attempts,
            skips,
            a_idx: 0,
            s_idx: 0,
            y_idx: 0,
            results: Vec::new(),
            current_runs: Vec::new(),
            failure: None,
        };
        proof {
            let sv = engine.systems_v();
            assert(engine.attempts_v().take(0) =~= Seq::<EntryView>::empty());
            assert(engine.results_v() =~= Seq::<SubResultView>::empty());
            assert(results_of(Seq::<EntryView>::empty(), sv) == Seq::<SubResultView>::empty());
            assert(outcome_of(Seq::<Seq<u8>>::empty(), sv) == Seq::<StepRunView>::empty());
            assert(run_views(engine.current_runs@) =~= Seq::<StepRunView>::empty());
            if engine.attempts_v().len() > 0 {
                let steps = engine.attempts_v()[0].subflake.steps;
                assert(steps.take(0) =~= Seq::<Seq<u8>>::empty());
                assert(sv.take(0) =~= Seq::<Seq<u8>>::empty());
                if steps.len() > 0 {
                    assert(runs_of_step(steps[0], Seq::<Seq<u8>>::empty())
                        == Seq::<StepRunView>::empty());
                    assert(run_views(engine.current_runs@) =~= outcome_of(steps.take(0), sv)
                        + runs_of_step(steps[0], sv.take(0)));
                } else {
                    assert(steps =~= Seq::<Seq<u8>>::empty());
                    assert(run_views(engine.current_runs@) =~= outcome_of(steps, sv));
                }
            }
            assert(engine.loose_inv());
        }
        engine.normalize();
        proof {
            engine.lemma_done_consumed();
        }
        engine
    }

    /// What to do next: run the triple under the cursor, or stop — `Done`
    /// after every scheduled triple passed, `Aborted` after a failure.
    pub fn next_action(&self) -> (a: Action)
        requires
            self.inv(),
        ensures
            self.failed() ==> a is Aborted,
            !self.failed() && self.done() ==> a is Done,
            !self.failed() && !self.done() ==> (a matches Action::Run {
                subflake,
                dir,
                step,
                system,
            } && subflake@ == self.cur_name() && dir@ == self.cur_dir() && step@ == self.cur_step()
                && system@ == self.cur_system()),
    {
        if self.failure.is_some() {
            return Action::Aborted;
        }
        if self.a_idx == self.attempts.len() {
            return Action::Done;
        }
        let entry = &self.attempts[self.a_idx];
        let subflake = clone_bytes(&entry.name);
        let dir = clone_bytes(&entry.subflake.dir);
        let step = clone_bytes(&entry.subflake.steps[self.s_idx].name);
        let system = clone_bytes(&self.systems[self.y_idx]);
        proof {
            let a = self.a_idx as int;
            let cur = self.attempts@[a];
            assert(self.attempts_v()[a] == cur@);
            assert(self.attempts_v()[a].subflake.steps[self.s_idx as int] == cur.subflake.steps@[
                self.s_idx as int]@);
            assert(self.systems_v()[self.y_idx as int] == self.systems@[self.y_idx as int]@);
        }
        Action::Run { subflake, dir, step, system }
    }

    /// Records the outcome of the triple under the cursor. A passed step
    /// advances the run by exactly that one triple; a failed step freezes
    /// the run — the remaining steps, systems and subflakes are never
    /// attempted — and pins the failure to this very triple (fail-fast).
    pub fn apply(&mut self, outcome: StepOutcome)
        requires
            old(self).inv(),
            !old(self).failed(),
            !old(self).done(),
        ensures
            final(self).inv(),
            final(self).attempts_v() == old(self).attempts_v(),
            final(self).skips_v() == old(self).skips_v(),
            final(self).systems_v() == old(self).systems_v(),
            final(self).flake_v() == old(self).flake_v(),
            final(self).total() == old(self).total(),
            final(self).consumed() <= final(self).total(),
            final(self).done() <==> final(self).consumed() == final(self).total(),
            outcome is Passed ==> !final(self).failed() && final(self).consumed() == old(
                self,
            ).consumed() + 1,
            (outcome matches StepOutcome::Failed { diagnostic } ==> {
                &&& final(self).failure_v() == Some(
                    CiErrorView::StepExecutionError {
                        subflake: old(self).cur_name(),
                        step: old(self).cur_step(),
                        system: old(self).cur_system(),
                        diagnostic: diagnostic@,
                    },
                )
                &&& final(self).results_v() == old(self).results_v()
                &&& final(self).consumed() == old(self).consumed()
                &&& final(self).cursor() == old(self).cursor()
            }),
    {
        let ghost atts = self.attempts_v();
        let ghost sysv = self.systems_v();
        let ghost a = self.a_idx as int;
        let ghost s = self.s_idx as int;
        let ghost y = self.y_idx as int;
        let ghost steps = atts[a].subflake.steps;
        let entry = &self.attempts[self.a_idx];
        let step = clone_bytes(&entry.subflake.steps[self.s_idx].name);
        let system = clone_bytes(&self.systems[self.y_idx]);
        proof {
            assert(atts[a] == self.attempts@[a]@);
            assert(steps[s] == self.attempts@[a].subflake.steps@[s]@);
            assert(sysv[y] == self.systems@[y]@);
        }
        match outcome {
            StepOutcome::Passed => {
                let ghost pre_runs = run_views(self.current_runs@);
                self.current_runs.push(StepRun { step, system });
                let sys_len = self.systems.len();
                proof {
                    assert(self.y_idx as int == y && y < sysv.len());
                    assert(sysv.len() == self.systems@.len());
                    assert(self.y_idx < sys_len);
                }
                self.y_idx = self.y_idx + 1;
                proof {
                    assert(run_views(self.current_runs@) =~= pre_runs.push(
                        StepRunView { step: steps[s], system: sysv[y] },
                    ));
                    let taken = sysv.take(y + 1);
                    assert(taken.drop_last() =~= sysv.take(y));
                    assert(taken.last() == sysv[y]);
                    assert(runs_of_step(steps[s], taken) == runs_of_step(
                        steps[s],
                        sysv.take(y),
                    ).push(StepRunView { step: steps[s], system: sysv[y] }));
                    assert(run_views(self.current_runs@) =~= outcome_of(steps.take(s), sysv)
                        + runs_of_step(steps[s], sysv.take(y + 1)));
                    assert(self.loose_inv());
                }
                self.normalize();
                proof {
                    self.lemma_done_consumed();
                }
            },
            StepOutcome::Failed { diagnostic } => {
                let name = clone_bytes(&self.attempts[self.a_idx].name);
                self.failure = Some(
                    CiError::StepExecutionError { subflake: name, step, system, diagnostic },
                );
                proof {
                    self.lemma_done_consumed();
                }
            },
        }
    }

    /// The skipped subflakes with their reasons, for the operator's log.
    pub fn skips(&self) -> (r: &Vec<SkipRecord>)
        ensures
            skip_views(r@) == self.skips_v(),
    {
        &self.skips
    }

    /// Closes the run: the first error if a step failed, otherwise — once
    /// every scheduled triple passed — the aggregate run result, whose
    /// mapping holds exactly the attempted subflakes.
    pub fn finish(self) -> (r: Result<RunResult, CiError>)
        requires
            self.inv(),
            self.failed() || self.done(),
        ensures
            self.failed() ==> (r matches Err(e) && Some(e@) == self.failure_v()),
            !self.failed() ==> (r matches Ok(res) && res@ == (RunResultView {
                systems: self.systems_v(),
                flake: self.flake_v(),
                result: results_of(self.attempts_v(), self.systems_v()),
            })),
    {
        let Engine { systems, flake, results, failure, .. } = self;
        match failure {
            Some(e) => Err(e),
            None => {
                proof {
                    assert(self.attempts_v().take(self.attempts_v().len() as int)
                        =~= self.attempts_v());
                }
                Ok(RunResult { systems, flake, result: results })
            },
        }
    }
}

/// An empty plan succeeds and yields a run result with an empty mapping:
/// nothing is attempted, nothing is skipped, whatever the selector and the
/// resolved platform set.
pub proof fn lemma_empty_plan(selector: Option<Seq<u8>>, systems: Seq<Seq<u8>>)
    ensures
        attempts_of(Seq::empty(), selector, systems) == Seq::<EntryView>::empty(),
        skips_of(Seq::empty(), selector, systems) == Seq::<SkipRecordView>::empty(),
        results_of(attempts_of(Seq::empty(), selector, systems), systems)
            == Seq::<SubResultView>::empty(),
{
}

/// A plan every subflake of which is filtered out — deselected or
/// platform-incompatible — runs to the same empty-result success as an
/// empty plan, wherever it executes: nothing is attempted and the result
/// mapping is empty.
pub proof fn lemma_all_skipped_empty_result(
    s: Seq<EntryView>,
    selector: Option<Seq<u8>>,
    systems: Seq<Seq<u8>>,
)
    requires
        forall|i: int| 0 <= i < s.len() ==> !is_attempted(#[trigger] s[i], selector, systems),
    ensures
        attempts_of(s, selector, systems) == Seq::<EntryView>::empty(),
        results_of(attempts_of(s, selector, systems), systems) == Seq::<SubResultView>::empty(),
    decreases s.len(),
{
    if s.len() > 0 {
        assert forall|i: int| 0 <= i < s.drop_last().len() implies !is_attempted(
            #[trigger] s.drop_last()[i],
            selector,
            systems,
        ) by {
            assert(s.drop_last()[i] == s[i]);
        }
        lemma_all_skipped_empty_result(s.drop_last(), selector, systems);
        assert(!is_attempted(s.last(), selector, systems));
    }
}

/// Every attempted subflake comes out of the plan and passed both filters.
pub proof fn lemma_attempts_from_plan(
    s: Seq<EntryView>,
    selector: Option<Seq<u8>>,
    systems: Seq<Seq<u8>>,
    e: EntryView,
)
    requires
        attempts_of(s, selector, systems).contains(e),
    ensures
        s.contains(e),
        is_attempted(e, selector, systems),
    decreases s.len(),
{
    if s.len() > 0 {
        let prev = attempts_of(s.drop_last(), selector, systems);
        let atts = attempts_of(s, selector, systems);
        let k = choose|k: int| 0 <= k < atts.len() && atts[k] == e;
        if is_attempted(s.last(), selector, systems) && k == prev.len() {
            assert(e == s.last());
            assert(s[s.len() - 1] == e);
        } else {
            assert(prev[k] == e);
            assert(prev.contains(e));
            lemma_attempts_from_plan(s.drop_last(), selector, systems, e);
            let j = choose|j: int| 0 <= j < s.drop_last().len() && s.drop_last()[j] == e;
            assert(s[j] == e);
        }
    }
}

/// A subflake of the plan that passes both filters is attempted.
pub proof fn lemma_attempted_in(
    s: Seq<EntryView>,
    selector: Option<Seq<u8>>,
    systems: Seq<Seq<u8>>,
    e: EntryView,
)
    requires
        s.contains(e),
        is_attempted(e, selector, systems),
    ensures
        attempts_of(s, selector, systems).contains(e),
    decreases s.len(),
{
    let k = choose|k: int| 0 <= k < s.len() && s[k] == e;
    let prev = attempts_of(s.drop_last(), selector, systems);
    let atts = attempts_of(s, selector, systems);
    if k == s.len() - 1 {
        assert(s.last() == e);
        assert(atts == prev.push(e));
        assert(atts[prev.len() as int] == e);
    } else {
        assert(s.drop_last()[k] == e);
        assert(s.drop_last().contains(e));
        lemma_attempted_in(s.drop_last(), selector, systems, e);
        let j = choose|j: int| 0 <= j < prev.len() && prev[j] == e;
        if is_attempted(s.last(), selector, systems) {
            assert(atts[j] == e);
        } else {
            assert(atts[j] == e);
        }
    }
}

/// Deterministic order, first half: the engine walks a sorted plan's
/// attempts in sorted name order.
pub proof fn lemma_attempts_sorted(
    s: Seq<EntryView>,
    selector: Option<Seq<u8>>,
    systems: Seq<Seq<u8>>,
)
    requires
        name_sorted(s),
    ensures
        name_sorted(attempts_of(s, selector, systems)),
    decreases s.len(),
{
    if s.len() > 0 {
        let d = s.drop_last();
        assert forall|i: int, j: int| 0 <= i < j < d.len() implies crate::bytes::lex_le(
            d[i].name,
            d[j].name,
        ) by {
            assert(d[i] == s[i] && d[j] == s[j]);
        }
        lemma_attempts_sorted(d, selector, systems);
        let prev = attempts_of(d, selector, systems);
        if is_attempted(s.last(), selector, systems) {
            let atts = attempts_of(s, selector, systems);
            assert forall|i: int, j: int| 0 <= i < j < atts.len() implies crate::bytes::lex_le(
                atts[i].name,
                atts[j].name,
            ) by {
                if j < prev.len() {
                    assert(atts[i] == prev[i] && atts[j] == prev[j]);
                } else {
                    assert(atts[j] == s.last());
                    assert(atts[i] == prev[i]);
                    assert(prev.contains(prev[i]));
                    lemma_attempts_from_plan(d, selector, systems, prev[i]);
                    let k = choose|k: int| 0 <= k < d.len() && d[k] == prev[i];
                    assert(s[k] == prev[i]);
                    if k < s.len() - 1 {
                        assert(crate::bytes::lex_le(s[k].name, s.last().name));
                    } else {
                        crate::bytes::lemma_lex_lt_irreflexive(s.last().name);
                    }
                }
            }
        }
    }
}

/// Deterministic order, second half: two sorted plans that hold the same
/// entries — however the configuration documents ordered them — are
/// attempted identically.
pub proof fn lemma_deterministic_order(
    p: Seq<EntryView>,
    q: Seq<EntryView>,
    selector: Option<Seq<u8>>,
    systems: Seq<Seq<u8>>,
)
    requires
        name_sorted(p),
        name_sorted(q),
        names_unique(p),
        p.to_multiset() == q.to_multiset(),
    ensures
        attempts_of(p, selector, systems) == attempts_of(q, selector, systems),
{
    crate::config::lemma_sorted_unique_by_name(p, q);
}

/// The result mapping holds exactly one entry per attempted subflake, in
/// attempt order, each carrying the subflake's full outcome collection.
pub proof fn lemma_results_shape(atts: Seq<EntryView>, systems: Seq<Seq<u8>>)
    ensures
        results_of(atts, systems).len() == atts.len(),
        forall|i: int|
            0 <= i < atts.len() ==> results_of(atts, systems)[i] == (SubResultView {
                name: atts[i].name,
                runs: outcome_of(atts[i].subflake.steps, systems),
            }),
    decreases atts.len(),
{
    if atts.len() > 0 {
        lemma_results_shape(atts.drop_last(), systems);
        let rs = results_of(atts, systems);
        let prev = results_of(atts.drop_last(), systems);
        assert forall|i: int| 0 <= i < atts.len() implies rs[i] == (SubResultView {
            name: atts[i].name,
            runs: outcome_of(atts[i].subflake.steps, systems),
        }) by {
            if i < atts.len() - 1 {
                assert(rs[i] == prev[i]);
                assert(atts.drop_last()[i] == atts[i]);
            } else {
                assert(rs[i] == rs.last());
            }
        }
    }
}

/// Selector exclusivity: with a selector naming subflake `x`, only `x` is
/// ever attempted, and only `x` can stand as a key of the result mapping;
/// every other subflake is attempted zero times.
pub proof fn lemma_selector_exclusive(s: Seq<EntryView>, x: Seq<u8>, systems: Seq<Seq<u8>>)
    ensures
        forall|i: int|
            #![auto]
            0 <= i < attempts_of(s, Some(x), systems).len() ==> attempts_of(
                s,
                Some(x),
                systems,
            )[i].name == x,
        forall|i: int|
            #![auto]
            0 <= i < results_of(attempts_of(s, Some(x), systems), systems).len() ==> results_of(
                attempts_of(s, Some(x), systems),
                systems,
            )[i].name == x,
{
    let atts = attempts_of(s, Some(x), systems);
    assert forall|i: int| #![auto] 0 <= i < atts.len() implies atts[i].name == x by {
        assert(atts.contains(atts[i]));
        lemma_attempts_from_plan(s, Some(x), systems, atts[i]);
        assert(selected(Some(x), atts[i].name));
    }
    lemma_results_shape(atts, systems);
}

/// Platform filtering: a subflake of the plan that supports none of the
/// resolved platforms is never attempted and — the names being unique —
/// absent from the result mapping, while a selected, compatible subflake is
/// always attempted.
pub proof fn lemma_platform_filtering(
    s: Seq<EntryView>,
    selector: Option<Seq<u8>>,
    systems: Seq<Seq<u8>>,
    e: EntryView,
)
    requires
        s.contains(e),
        names_unique(s),
    ensures
        is_attempted(e, selector, systems) ==> attempts_of(s, selector, systems).contains(e),
        !compatible(e.subflake, systems) ==> forall|i: int|
            #![auto]
            0 <= i < results_of(attempts_of(s, selector, systems), systems).len() ==> results_of(
                attempts_of(s, selector, systems),
                systems,
            )[i].name != e.name,
{
    if is_attempted(e, selector, systems) {
        lemma_attempted_in(s, selector, systems, e);
    }
    if !compatible(e.subflake, systems) {
        let atts = attempts_of(s, selector, systems);
        let rs = results_of(atts, systems);
        lemma_results_shape(atts, systems);
        assert forall|i: int| #![auto] 0 <= i < rs.len() implies rs[i].name != e.name by {
            if rs[i].name == e.name {
                assert(atts[i].name == e.name);
                assert(atts.contains(atts[i]));
                lemma_attempts_from_plan(s, selector, systems, atts[i]);
                let k = choose|k: int| 0 <= k < s.len() && s[k] == atts[i];
                let m = choose|m: int| 0 <= m < s.len() && s[m] == e;
                if k != m {
                    assert(s[k].name != s[m].name);
                    assert(false);
                }
                assert(atts[i] == e);
                assert(compatible(e.subflake, systems));
                assert(false);
            }
        }
    }
}

} // verus!

