//! Two-sided online monitoring.
//!
//! A [`Monitor`] pairs a *prover* running on the complement of the property
//! machine with a *falsifier* running on the machine itself.  Each side is a
//! [`PartialMonitor`]: a current concrete configuration, the machine, and
//! the reachability map produced by the analyzer, used as the pruning
//! oracle.  A side commits as soon as its next configuration falls outside
//! the oracle — no accepting location is reachable from there any more.

use vstd::prelude::*;

use crate::analysis::safe_view;
use crate::analysis::smap_get;
use crate::analysis::smap_has;
use crate::analysis::spec_analyze;
use crate::bound::TransitionBound;
use crate::machine::Machine;
use crate::machine::State;
use crate::machine::Update;

verus! {

/// Errors that can occur during monitor construction or operation.
#[derive(Debug)]
pub enum MonitorError {
    TransitionFailed(String),
    ConstructionFailed(String),
}

/// A single-sided stepwise monitor: a current concrete configuration, the
/// machine it runs, and the reachability oracle for pruning.
pub struct PartialMonitor<U> {
    pub state: State,
    pub machine: Machine<U>,
    pub non_empty_states: Vec<(String, TransitionBound)>,
}

impl<U: Update> PartialMonitor<U> {
    /// Structural invariant carried by every partial monitor.
    pub open spec fn wf(self) -> bool {
        &&& self.machine.wf()
        &&& crate::machine::keys_unique(self.non_empty_states@)
    }

    /// The frontier one step ahead of the current configuration.
    pub open spec fn spec_next_frontier(self, i: U::I) -> Seq<(Seq<char>, u32)> {
        self.machine.spec_step_state(self.state.location@, self.state.data, i)
    }

    /// The configuration is inside the pruning oracle: acceptance may still
    /// be reachable from it.
    pub open spec fn spec_in_oracle(self, c: (Seq<char>, u32)) -> bool {
        &&& smap_has(safe_view(self.non_empty_states@), c.0)
        &&& smap_get(safe_view(self.non_empty_states@), c.0).spec_contains(c.1)
    }

    /// This side commits on input `i`: the unique next configuration has
    /// left the oracle (meaningful when the next frontier is a singleton).
    pub open spec fn spec_commits(self, i: U::I) -> bool {
        !self.spec_in_oracle(self.spec_next_frontier(i)[0])
    }

    /// Builds the falsifier side: runs the analyzer on `machine` from
    /// `location` and starts at `(location, data)`.
    fn falsify_from(location: &str, data: u32, machine: Machine<U>) -> (r: Result<
        Self,
        MonitorError,
    >)
        requires
            machine.wf(),
        ensures
            r matches Ok(pm) && pm.machine == machine && pm.state.location@ == location@
                && pm.state.data == data && safe_view(pm.non_empty_states@) == spec_analyze(
                machine,
                location@,
            ) && pm.wf(),
    {
        let location = location.to_owned();
        let non_empty_states = match machine.find_non_empty(location.as_str()) {
            Ok(safe) => safe,
            Err(_) => {
                return Err(
                    MonitorError::ConstructionFailed("partial monitor: analysis failed".to_owned()),
                );
            },
        };
        let state = State { location, data };
        Ok(PartialMonitor { state, machine, non_empty_states })
    }

    /// Builds the prover side: complements `machine` first, then builds a
    /// falsifier on the complement.
    fn prove_from(location: &str, data: u32, machine: Machine<U>) -> (r: Result<
        Self,
        MonitorError,
    >)
        requires
            machine.wf(),
        ensures
            r matches Ok(pm) && pm.machine.locations == machine.locations && pm.state.location@
                == location@ && pm.state.data == data && safe_view(pm.non_empty_states@)
                == spec_analyze(pm.machine, location@) && pm.wf() && (forall|l: Seq<char>|
                #[trigger] pm.machine.spec_accepting(l) <==> (machine.spec_mentioned(l)
                    && !machine.spec_accepting(l))),
    {
        let complement = match machine.complement() {
            Ok(c) => c,
            Err(_) => {
                return Err(
                    MonitorError::ConstructionFailed("complement failed".to_owned()),
                );
            },
        };
        PartialMonitor::falsify_from(location, data, complement)
    }

    /// Advances this side by one input.  Demands a deterministic and total
    /// machine: a next frontier that is not a singleton is an error.
    /// Returns `Ok(true)` when this side commits (the next configuration
    /// cannot reach acceptance), `Ok(false)` when it is still inconclusive,
    /// in which case the configuration advances.
    fn next(&mut self, input: &U::I) -> (r: Result<bool, MonitorError>)
        requires
            old(self).wf(),
        ensures
            final(self).wf(),
            final(self).machine == old(self).machine,
            final(self).non_empty_states == old(self).non_empty_states,
            ({
                let nxt = old(self).spec_next_frontier(*input);
                if nxt.len() == 1 {
                    if old(self).spec_in_oracle(nxt[0]) {
                        r == Ok::<bool, MonitorError>(false) && final(self).state@ == nxt[0]
                    } else {
                        r == Ok::<bool, MonitorError>(true) && final(self).state == old(self).state
                    }
                } else {
                    (r matches Err(e) && e matches MonitorError::TransitionFailed(_)) && final(self).state == old(self).state
                }
            }),
    {
        let mut states: Vec<State> = Vec::new();
        states.push(self.state.clone());
        proof {
            let fv = states@.map_values(|s: State| s@);
            assert(fv =~= seq![old(self).state@]);
            assert(fv.drop_last() =~= Seq::<(Seq<char>, u32)>::empty());
            assert(self.machine.spec_step_frontier(fv, *input) == self.machine.spec_step_frontier(
                fv.drop_last(),
                *input,
            ) + self.machine.spec_step_state(fv.last().0, fv.last().1, *input));
            assert(self.machine.spec_step_frontier(fv, *input) =~= old(self).spec_next_frontier(
                *input,
            ));
        }
        let mut next = self.machine.transition(input, states);
        let ghost nxt = old(self).spec_next_frontier(*input);
        if next.len() == 1 {
            let nstate = match next.pop() {
                Some(s) => s,
                None => {
                    return Err(
                        MonitorError::TransitionFailed("empty next frontier".to_owned()),
                    );
                },
            };
            proof {
                assert(next@.push(nstate).map_values(|s: State| s@) == nxt);
                assert(next@.push(nstate).map_values(|s: State| s@)[0] == nstate@);
                assert(nstate@ == nxt[0]);
                crate::analysis::lemma_safe_view_get(self.non_empty_states@, nstate.location@);
            }
            let in_oracle = match crate::machine::assoc_get(
                &self.non_empty_states,
                &nstate.location,
            ) {
                Some(bound) => bound.contains(&nstate.data),
                None => false,
            };
            if in_oracle {
                // Still inconclusive: acceptance may be reachable.
                self.state = nstate;
                return Ok(false);
            }
            // The next configuration cannot reach an accepting condition:
            // conclusive verdict for this side.
            return Ok(true);
        }
        // The machine is non-deterministic or not total here.
        Err(MonitorError::TransitionFailed("length of states is not 1".to_owned()))
    }
}

/// An inconclusive step of a partial monitor keeps its configuration
/// actually reached: when the next frontier is the singleton the monitor
/// advances to, the new configuration is reached by the word read so far
/// extended with the consumed input.  Applied once per `Ok(false)` step of
/// [`PartialMonitor::next`], this discharges the `spec_reaches` hypothesis
/// of the verdict laws below for any run of the monitor.
pub proof fn lemma_monitor_step_reaches<U: Update>(
    pm0: PartialMonitor<U>,
    pm1: PartialMonitor<U>,
    l0: Seq<char>,
    d0: u32,
    p: Seq<U::I>,
    i: U::I,
)
    requires
        pm0.machine.spec_reaches(l0, d0, p, pm0.state.location@, pm0.state.data),
        pm1.machine == pm0.machine,
        pm0.spec_next_frontier(i).len() == 1,
        pm1.state@ == pm0.spec_next_frontier(i)[0],
    ensures
        pm1.machine.spec_reaches(l0, d0, p.push(i), pm1.state.location@, pm1.state.data),
{
    let c = pm0.spec_next_frontier(i)[0];
    assert(pm0.spec_next_frontier(i).contains(c));
    crate::machine::lemma_reaches_extend::<U>(
        pm0.machine,
        l0,
        d0,
        p,
        pm0.state.location@,
        pm0.state.data,
        i,
        c,
    );
}

/// [Verdict soundness, falsifier side.]  The falsifier's oracle is the
/// completed analysis of the property machine `m` from `l0`; its current
/// configuration `(l, d)` was reached from `(l0, d0)` by the word read so
/// far; the machine's updates have sound symbolic lifts and its guards
/// respect the declared bounds.  When the falsifier commits — `(l, d)`
/// has left the oracle — no input word produces an accepting run from
/// `(l, d)`; and for a deterministic machine, no extension of the word
/// read so far is in the machine's language.
pub proof fn lemma_false_verdict_rejects<U: Update>(
    m: Machine<U>,
    l0: Seq<char>,
    d0: u32,
    p: Seq<U::I>,
    l: Seq<char>,
    d: u32,
    e: Seq<U::I>,
)
    requires
        m.wf(),
        crate::analysis::machine_lift_sound(m),
        crate::machine::guards_within_bounds(m),
        crate::analysis::spec_search_complete(m, l0),
        m.spec_reaches(l0, d0, p, l, d),
        !(smap_has(spec_analyze(m, l0), l) && smap_get(spec_analyze(m, l0), l).spec_contains(d)),
    ensures
        !m.spec_exec(l, d, e),
        m.deterministic() ==> !m.spec_exec(l0, d0, p + e),
{
    crate::analysis::lemma_uncovered_rejects::<U>(m, l0, d0, p, l, d, e);
    crate::machine::lemma_exec_iff_has_run::<U>(m, l, d, e);
    if m.deterministic() {
        crate::machine::lemma_exec_iff_has_run::<U>(m, l0, d0, p + e);
        if m.spec_has_run(l0, d0, p + e) {
            crate::machine::lemma_det_run_split::<U>(m, l0, d0, p, l, d, e);
        }
    }
}

/// [Verdict soundness, prover side.]  The prover runs on the complement
/// machine `mc` of a deterministic and total property machine `m`; its
/// oracle is the completed analysis of `mc` from `l0`.  When the prover
/// commits — the reached configuration `(l, d)` has left the complement's
/// oracle — every input word is accepted from `(l, d)`, and every
/// extension of the word read so far is in the machine's language.
pub proof fn lemma_true_verdict_accepts<U: Update>(
    m: Machine<U>,
    mc: Machine<U>,
    l0: Seq<char>,
    d0: u32,
    p: Seq<U::I>,
    l: Seq<char>,
    d: u32,
    e: Seq<U::I>,
)
    requires
        m.wf(),
        mc.wf(),
        forall|l2: Seq<char>| #[trigger] mc.spec_transitions(l2) == m.spec_transitions(l2),
        forall|l2: Seq<char>|
            #[trigger] mc.spec_accepting(l2) <==> (m.spec_mentioned(l2) && !m.spec_accepting(
                l2,
            )),
        crate::analysis::machine_lift_sound(m),
        crate::machine::guards_within_bounds(m),
        m.deterministic(),
        m.total(),
        crate::machine::map_has(m.locations@, l0),
        crate::analysis::spec_search_complete(mc, l0),
        m.spec_reaches(l0, d0, p, l, d),
        !(smap_has(spec_analyze(mc, l0), l) && smap_get(spec_analyze(mc, l0), l).spec_contains(
            d,
        )),
    ensures
        m.spec_exec(l, d, e),
        m.spec_exec(l0, d0, p + e),
{
    assert forall|l2: Seq<char>, t: crate::machine::Transition<U>| #[trigger] mc.spec_transitions(
        l2,
    ).contains(t) implies crate::machine::lift_sound(t.update) by {
        assert(m.spec_transitions(l2).contains(t));
    }
    assert forall|l2: Seq<char>, t: crate::machine::Transition<U>, d2: u32, i: U::I|
        mc.spec_transitions(l2).contains(t) && t.update.enable_spec(d2, i) implies t.bound.spec_contains(
        d2,
    ) by {
        assert(m.spec_transitions(l2).contains(t));
    }
    crate::machine::lemma_reaches_same_transitions::<U>(m, mc, l0, d0, p, l, d);
    crate::analysis::lemma_uncovered_rejects::<U>(mc, l0, d0, p, l, d, e);
    crate::machine::lemma_reaches_keeps_keys::<U>(m, l0, d0, p, l, d);
    crate::machine::lemma_complement_has_run::<U>(m, mc, l, d, e);
    assert(m.spec_has_run(l, d, e));
    crate::machine::lemma_exec_iff_has_run::<U>(m, l, d, e);
    crate::machine::lemma_reaches_then_run::<U>(m, l0, d0, p, l, d, e);
    crate::machine::lemma_exec_iff_has_run::<U>(m, l0, d0, p + e);
}

/// [Verdict stickiness, falsifier side.]  Once the falsifier has
/// committed at `(l, d)`, the verdict stays semantically `false`:
/// wherever any further word drives the machine from `(l, d)`, still no
/// input word produces an accepting run.
pub proof fn lemma_false_verdict_sticky<U: Update>(
    m: Machine<U>,
    l0: Seq<char>,
    d0: u32,
    p: Seq<U::I>,
    l: Seq<char>,
    d: u32,
    e1: Seq<U::I>,
    l1: Seq<char>,
    d1: u32,
    e2: Seq<U::I>,
)
    requires
        m.wf(),
        crate::analysis::machine_lift_sound(m),
        crate::machine::guards_within_bounds(m),
        crate::analysis::spec_search_complete(m, l0),
        m.spec_reaches(l0, d0, p, l, d),
        m.spec_reaches(l, d, e1, l1, d1),
        !(smap_has(spec_analyze(m, l0), l) && smap_get(spec_analyze(m, l0), l).spec_contains(d)),
    ensures
        !m.spec_exec(l1, d1, e2),
{
    crate::analysis::lemma_uncovered_rejects::<U>(m, l0, d0, p, l, d, e1 + e2);
    crate::machine::lemma_exec_iff_has_run::<U>(m, l1, d1, e2);
    if m.spec_has_run(l1, d1, e2) {
        crate::machine::lemma_reaches_then_run::<U>(m, l, d, e1, l1, d1, e2);
        assert(false);
    }
}

/// [Verdict stickiness, prover side.]  Once the prover has committed at
/// `(l, d)`, the verdict stays semantically `true`: wherever any further
/// word drives the machine from `(l, d)`, every input word is accepted.
pub proof fn lemma_true_verdict_sticky<U: Update>(
    m: Machine<U>,
    mc: Machine<U>,
    l0: Seq<char>,
    d0: u32,
    p: Seq<U::I>,
    l: Seq<char>,
    d: u32,
    e1: Seq<U::I>,
    l1: Seq<char>,
    d1: u32,
    e2: Seq<U::I>,
)
    requires
        m.wf(),
        mc.wf(),
        forall|l2: Seq<char>| #[trigger] mc.spec_transitions(l2) == m.spec_transitions(l2),
        forall|l2: Seq<char>|
            #[trigger] mc.spec_accepting(l2) <==> (m.spec_mentioned(l2) && !m.spec_accepting(
                l2,
            )),
        crate::analysis::machine_lift_sound(m),
        crate::machine::guards_within_bounds(m),
        m.deterministic(),
        m.total(),
        crate::machine::map_has(m.locations@, l0),
        crate::analysis::spec_search_complete(mc, l0),
        m.spec_reaches(l0, d0, p, l, d),
        m.spec_reaches(l, d, e1, l1, d1),
        !(smap_has(spec_analyze(mc, l0), l) && smap_get(spec_analyze(mc, l0), l).spec_contains(
            d,
        )),
    ensures
        m.spec_exec(l1, d1, e2),
{
    lemma_true_verdict_accepts::<U>(m, mc, l0, d0, p, l, d, e1 + e2);
    crate::machine::lemma_exec_iff_has_run::<U>(m, l, d, e1 + e2);
    crate::machine::lemma_det_run_split::<U>(m, l, d, e1, l1, d1, e2);
    crate::machine::lemma_exec_iff_has_run::<U>(m, l1, d1, e2);
}

/// A two-sided monitor: the prover runs on the complement machine and
/// commits `true`, the falsifier runs on the property machine and commits
/// `false`.
pub struct Monitor<U> {
    pub prover: PartialMonitor<U>,
    pub falsifier: PartialMonitor<U>,
}

impl<U: Update> Monitor<U> {
    /// Both sides are well-formed.
    pub open spec fn wf(self) -> bool {
        self.prover.wf() && self.falsifier.wf()
    }

    /// Creates a monitor for `machine` starting at `(location, data)`: a
    /// falsifier on the machine and a prover on its complement, both from
    /// the same initial configuration.
    pub fn new(location: &str, data: u32, machine: Machine<U>) -> (r: Result<Self, MonitorError>)
        requires
            machine.wf(),
        ensures
            r matches Ok(mon) && {
                &&& mon.wf()
                &&& mon.falsifier.machine == machine
                &&& mon.falsifier.state.location@ == location@
                &&& mon.falsifier.state.data == data
                &&& safe_view(mon.falsifier.non_empty_states@) == spec_analyze(machine, location@)
                &&& mon.prover.state.location@ == location@
                &&& mon.prover.state.data == data
                &&& safe_view(mon.prover.non_empty_states@) == spec_analyze(
                    mon.prover.machine,
                    location@,
                )
                &&& forall|l: Seq<char>|
                    #[trigger] mon.prover.machine.spec_transitions(l) == machine.spec_transitions(
                        l,
                    )
                &&& forall|l: Seq<char>|
                    #[trigger] mon.prover.machine.spec_accepting(l) <==> (
                    machine.spec_mentioned(l) && !machine.spec_accepting(l))
            },
    {
        let duplicate = machine.clone();
        proof {
            crate::machine::lemma_same_graph_equiv(machine, duplicate);
        }
        let prover = match PartialMonitor::prove_from(location, data, duplicate) {
            Ok(p) => p,
            Err(e) => {
                return Err(e);
            },
        };
        let falsifier = match PartialMonitor::falsify_from(location, data, machine) {
            Ok(f) => f,
            Err(e) => {
                return Err(e);
            },
        };
        Ok(Monitor { prover, falsifier })
    }

    /// Processes the next input.  Returns `Ok(Some(true))` when the prover
    /// commits (property satisfied), `Ok(Some(false))` when only the
    /// falsifier commits (property violated), `Ok(None)` while both sides
    /// are inconclusive.  The prover is consulted first and short-circuits
    /// the falsifier.
    pub fn next(&mut self, input: &U::I) -> (r: Result<Option<bool>, MonitorError>)
        requires
            old(self).wf(),
        ensures
            final(self).wf(),
            final(self).prover.machine == old(self).prover.machine,
            final(self).prover.non_empty_states == old(self).prover.non_empty_states,
            final(self).falsifier.machine == old(self).falsifier.machine,
            final(self).falsifier.non_empty_states == old(self).falsifier.non_empty_states,
            ({
                let pn = old(self).prover.spec_next_frontier(*input);
                let fln = old(self).falsifier.spec_next_frontier(*input);
                if pn.len() != 1 {
                    (r matches Err(e) && e matches MonitorError::TransitionFailed(_)) && final(self).prover.state == old(self).prover.state && final(self).falsifier == old(self).falsifier
                } else if old(self).prover.spec_commits(*input) {
                    r == Ok::<Option<bool>, MonitorError>(Some(true)) && final(self).prover.state
                        == old(self).prover.state && final(self).falsifier == old(self).falsifier
                } else {
                    final(self).prover.state@ == pn[0] && (if fln.len() != 1 {
                        (r matches Err(e) && e matches MonitorError::TransitionFailed(_)) && final(self).falsifier.state == old(self).falsifier.state
                    } else if old(self).falsifier.spec_commits(*input) {
                        r == Ok::<Option<bool>, MonitorError>(Some(false)) && final(self).falsifier.state == old(self).falsifier.state
                    } else {
                        r == Ok::<Option<bool>, MonitorError>(None) && final(self).falsifier.state@
                            == fln[0]
                    })
                }
            }),
    {
        let mut verdict: Option<bool> = None;
        match self.prover.next(input) {
            Ok(true) => {
                // Prover found satisfaction.
                verdict = Some(true);
            },
            Ok(false) => {
                match self.falsifier.next(input) {
                    Ok(true) => {
                        // Falsifier found violation.
                        verdict = Some(false);
                    },
                    Ok(false) => {},
                    Err(e) => {
                        return Err(e);
                    },
                }
            },
            Err(e) => {
                return Err(e);
            },
        }
        Ok(verdict)
    }
}

} // verus!
