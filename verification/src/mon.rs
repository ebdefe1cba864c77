//! An early sketch of two-sided monitoring, kept for its constructors.
//!
//! This module only assembles the two sides from a property machine and its
//! complement; it commits no verdict.  The working monitor lives in
//! [`crate::monitor`].

use vstd::prelude::*;

use crate::machine::Machine;
use crate::machine::Transition;
use crate::machine::Update;

verus! {

/// Errors that can occur while assembling a monitor.
#[derive(Clone, Copy, Debug)]
pub enum MonitorConstructionError {
    ComplementationFailed,
}

/// One side of the monitor: the transition table it watches and the set of
/// locations it would reject in.
pub struct PartialMonitor<U> {
    pub locations: Vec<(String, Vec<Transition<U>>)>,
    pub rejecting: Vec<String>,
}

impl<U: Update> PartialMonitor<U> {
    fn from_machine(machine: Machine<U>) -> (r: Result<Self, MonitorConstructionError>)
        ensures
            r matches Ok(pm) && pm.locations == machine.locations && pm.rejecting@ == Seq::<
                String,
            >::empty(),
    {
        Ok(PartialMonitor { locations: machine.locations, rejecting: Vec::new() })
    }
}

/// A prover paired with a falsifier, not yet stepping.
pub struct Monitor<U> {
    pub prover: PartialMonitor<U>,
    pub falsifier: PartialMonitor<U>,
}

impl<U: Update> Monitor<U> {
    /// This sketch never commits a verdict.
    pub fn next(self, input: &U::I) -> (r: Option<bool>)
        ensures
            r is None,
    {
        None
    }

    /// Builds the two sides: the prover from the complement of `property`,
    /// the falsifier from `property` itself.
    pub fn from_machine(property: Machine<U>) -> (r: Result<Self, MonitorConstructionError>)
        requires
            property.wf(),
        ensures
            r matches Ok(m) && m.falsifier.locations == property.locations
                && m.falsifier.rejecting@ == Seq::<String>::empty() && m.prover.rejecting@ == Seq::<
                String,
            >::empty() && (forall|l: Seq<char>|
                #[trigger] crate::machine::table_transitions(m.prover.locations@, l)
                    == crate::machine::table_transitions(property.locations@, l)),
    {
        let duplicate = property.clone();
        proof {
            crate::machine::lemma_same_graph_equiv(property, duplicate);
        }
        let complement = match duplicate.complement() {
            Ok(c) => c,
            Err(_) => {
                return Err(MonitorConstructionError::ComplementationFailed);
            },
        };
        let prover = match PartialMonitor::from_machine(complement) {
            Ok(p) => p,
            Err(e) => {
                return Err(e);
            },
        };
        let falsifier = match PartialMonitor::from_machine(property) {
            Ok(f) => f,
            Err(e) => {
                return Err(e);
            },
        };
        Ok(Monitor { prover, falsifier })
    }
}

} // verus!
