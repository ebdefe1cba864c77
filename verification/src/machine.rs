//! The machine model: transitions, locations, and the executor.
//!
//! A [`Machine`] is a finite directed multigraph of named locations.  Each
//! edge ([`Transition`]) carries a target location, an interval bound over
//! the `u32` register (used by the reachability analyzer), and an update
//! object that both gates the edge on the concrete `(register, input)` pair
//! and computes the next register value.  Fan-out from a location is kept in
//! insertion order, which the executor follows.

use vstd::prelude::*;

use crate::bound::TransitionBound;

verus! {

/// A transition's update capability, supplied by the user of the library.
///
/// An implementation decides when a transition may fire (`enable`), computes
/// the next register value (`update`), and lifts that computation to whole
/// intervals (`update_interval`).  Each executable method is pinned to a
/// spec-level counterpart so that machine runs have exact contracts.
///
/// The library never checks that `update_interval` over-approximates
/// `update`; that obligation is stated by [`lift_sound`] and is a
/// hypothesis of the reachability soundness lemmas.
pub trait Update: Sized + Copy {
    /// The input symbol type consumed by the machine.
    type I;

    /// When a transition carrying this update may fire.
    spec fn enable_spec(self, data: u32, input: Self::I) -> bool;

    /// The register value after the transition fires.
    spec fn update_spec(self, data: u32, input: Self::I) -> u32;

    /// The symbolic lift of `update_spec` to intervals.
    spec fn interval_spec(self, interval: TransitionBound) -> TransitionBound;

    /// Decides whether the transition is enabled for `(data, input)`.
    fn enable(&self, data: &u32, input: &Self::I) -> (r: bool)
        ensures
            r == self.enable_spec(*data, *input),
    ;

    /// Computes the next register value.
    fn update(&self, data: u32, input: &Self::I) -> (r: u32)
        ensures
            r == self.update_spec(data, *input),
    ;

    /// Applies the symbolic lift to an interval.
    fn update_interval(&self, interval: TransitionBound) -> (r: TransitionBound)
        ensures
            r == self.interval_spec(interval),
    ;
}

/// The update's symbolic lift over-approximates its concrete step: starting
/// anywhere inside an interval, the updated register lands inside the lifted
/// interval.  User obligation; hypothesis of the reachability lemmas.
pub open spec fn lift_sound<U: Update>(u: U) -> bool {
    forall|b: TransitionBound, d: u32, i: U::I|
        b.spec_contains(d) ==> #[trigger] u.interval_spec(b).spec_contains(u.update_spec(d, i))
}

/// An update that adds a fixed amount to the register (saturating at
/// `u32::MAX`) and never gates a transition.
pub struct AddUpdate<I> {
    pub amount: u32,
    pub phantom: core::marker::PhantomData<I>,
}

impl<I> AddUpdate<I> {
    /// An update adding `amount` to the register on every step.
    pub fn new(amount: u32) -> (r: Self)
        ensures
            r.amount == amount,
    {
        AddUpdate { amount, phantom: core::marker::PhantomData }
    }
}

impl<I> Clone for AddUpdate<I> {
    fn clone(&self) -> (r: Self)
        ensures
            r == *self,
    {
        AddUpdate { amount: self.amount, phantom: core::marker::PhantomData }
    }
}

impl<I> Copy for AddUpdate<I> {

}

impl<I> Update for AddUpdate<I> {
    type I = I;

    open spec fn enable_spec(self, data: u32, input: I) -> bool {
        true
    }

    open spec fn update_spec(self, data: u32, input: I) -> u32 {
        if data + self.amount > u32::MAX {
            u32::MAX
        } else {
            (data + self.amount) as u32
        }
    }

    open spec fn interval_spec(self, interval: TransitionBound) -> TransitionBound {
        TransitionBound {
            lower: Some(
                if interval.lo() + self.amount > u32::MAX {
                    u32::MAX
                } else {
                    (interval.lo() + self.amount) as u32
                },
            ),
            upper: if interval.hi() + self.amount > u32::MAX {
                None
            } else {
                Some((interval.hi() + self.amount) as u32)
            },
        }
    }

    fn enable(&self, data: &u32, input: &I) -> bool {
        true
    }

    fn update(&self, data: u32, input: &I) -> u32 {
        data.saturating_add(self.amount)
    }

    fn update_interval(&self, interval: TransitionBound) -> TransitionBound {
        let (lower, upper) = interval.as_explicit();
        TransitionBound {
            lower: Some(lower.saturating_add(self.amount)),
            upper: upper.checked_add(self.amount),
        }
    }
}

/// The symbolic lift of [`AddUpdate`] over-approximates its concrete step.
pub proof fn lemma_add_update_lift_sound<I>(u: AddUpdate<I>)
    ensures
        lift_sound(u),
{
}

/// An update described entirely by data, so that machines can be assembled
/// from plain values.  The transition is enabled when the input matches
/// `input_eq` / `input_ne` (when set) and the register is at least
/// `data_min` (when set).  The register is then set to `set` (when set),
/// or increased by the input (`add_input`), or by `add`, saturating at
/// `u32::MAX`.
#[derive(Clone, Copy, Debug)]
pub struct RuleUpdate {
    pub input_eq: Option<u32>,
    pub input_ne: Option<u32>,
    pub data_min: Option<u32>,
    pub set: Option<u32>,
    pub add_input: bool,
    pub add: u32,
}

impl RuleUpdate {
    /// A rule that always fires and leaves the register unchanged.
    pub fn identity() -> (r: Self)
        ensures
            r == (RuleUpdate {
                input_eq: None,
                input_ne: None,
                data_min: None,
                set: None,
                add_input: false,
                add: 0u32,
            }),
    {
        RuleUpdate { input_eq: None, input_ne: None, data_min: None, set: None, add_input: false, add: 0 }
    }
}

impl Update for RuleUpdate {
    type I = u32;

    open spec fn enable_spec(self, data: u32, input: u32) -> bool {
        &&& match self.input_eq {
            Some(v) => input == v,
            None => true,
        }
        &&& match self.input_ne {
            Some(v) => input != v,
            None => true,
        }
        &&& match self.data_min {
            Some(v) => data >= v,
            None => true,
        }
    }

    open spec fn update_spec(self, data: u32, input: u32) -> u32 {
        match self.set {
            Some(v) => v,
            None => {
                let amount = if self.add_input {
                    input
                } else {
                    self.add
                };
                if data + amount > u32::MAX {
                    u32::MAX
                } else {
                    (data + amount) as u32
                }
            },
        }
    }

    open spec fn interval_spec(self, interval: TransitionBound) -> TransitionBound {
        match self.set {
            Some(v) => TransitionBound { lower: Some(v), upper: Some(v) },
            None => {
                if self.add_input {
                    TransitionBound {
                        lower: if interval.lower is Some {
                            interval.lower
                        } else {
                            Some(0u32)
                        },
                        upper: None,
                    }
                } else {
                    TransitionBound {
                        lower: Some(
                            if interval.lo() + self.add > u32::MAX {
                                u32::MAX
                            } else {
                                (interval.lo() + self.add) as u32
                            },
                        ),
                        upper: if interval.hi() + self.add > u32::MAX {
                            None
                        } else {
                            Some((interval.hi() + self.add) as u32)
                        },
                    }
                }
            },
        }
    }

    fn enable(&self, data: &u32, input: &u32) -> bool {
        let eq_ok = match self.input_eq {
            Some(v) => *input == v,
            None => true,
        };
        let ne_ok = match self.input_ne {
            Some(v) => *input != v,
            None => true,
        };
        let min_ok = match self.data_min {
            Some(v) => *data >= v,
            None => true,
        };
        eq_ok && ne_ok && min_ok
    }

    fn update(&self, data: u32, input: &u32) -> u32 {
        match self.set {
            Some(v) => v,
            None => {
                let amount = if self.add_input {
                    *input
                } else {
                    self.add
                };
                data.saturating_add(amount)
            },
        }
    }

    fn update_interval(&self, interval: TransitionBound) -> TransitionBound {
        match self.set {
            Some(v) => TransitionBound { lower: Some(v), upper: Some(v) },
            None => {
                if self.add_input {
                    let (lower, _) = interval.as_explicit();
                    TransitionBound { lower: Some(lower), upper: None }
                } else {
                    let (lower, upper) = interval.as_explicit();
                    TransitionBound {
                        lower: Some(lower.saturating_add(self.add)),
                        upper: upper.checked_add(self.add),
                    }
                }
            },
        }
    }
}

/// The symbolic lift of [`RuleUpdate`] over-approximates its concrete step.
pub proof fn lemma_rule_update_lift_sound(u: RuleUpdate)
    ensures
        lift_sound(u),
{
}

/// A single transition out of an implicit source location.
pub struct Transition<U> {
    pub to_location: String,
    pub bound: TransitionBound,
    pub update: U,
}

impl<U: Update> Clone for Transition<U> {
    fn clone(&self) -> (r: Self)
        ensures
            r == *self,
    {
        Transition { to_location: self.to_location.clone(), bound: self.bound, update: self.update }
    }
}

/// A configuration: a location paired with a concrete register value.
pub struct State {
    pub location: String,
    pub data: u32,
}

impl View for State {
    type V = (Seq<char>, u32);

    open spec fn view(&self) -> (Seq<char>, u32) {
        (self.location@, self.data)
    }
}

impl Clone for State {
    fn clone(&self) -> (r: Self)
        ensures
            r == *self,
    {
        State { location: self.location.clone(), data: self.data }
    }
}

/// A location paired with a register interval.
pub struct StateInterval {
    pub location: String,
    pub interval: TransitionBound,
}

impl Clone for StateInterval {
    fn clone(&self) -> (r: Self)
        ensures
            r == *self,
    {
        StateInterval { location: self.location.clone(), interval: self.interval }
    }
}

/// Errors surfaced by machine-level analyses.
#[derive(Clone, Copy, Debug)]
pub enum MachineError {
    Undecidable,
    FindNonEmptyFailed,
}

/// There is an entry for `key` in the association list.
pub open spec fn map_has<V>(entries: Seq<(String, V)>, key: Seq<char>) -> bool {
    exists|i: int| 0 <= i < entries.len() && entries[i].0@ == key
}

/// The index of the entry for `key` (meaningful when `map_has` holds and
/// keys are unique).
pub open spec fn map_idx<V>(entries: Seq<(String, V)>, key: Seq<char>) -> int {
    choose|i: int| 0 <= i < entries.len() && entries[i].0@ == key
}

/// The value stored for `key` (meaningful when `map_has` holds).
pub open spec fn map_get<V>(entries: Seq<(String, V)>, key: Seq<char>) -> V {
    entries[map_idx(entries, key)].1
}

/// No two entries share a key.
pub open spec fn keys_unique<V>(entries: Seq<(String, V)>) -> bool {
    forall|i: int, j: int|
        0 <= i < j < entries.len() ==> (#[trigger] entries[i]).0@ != (#[trigger] entries[j]).0@
}

/// Under unique keys, the entry at a matching index is the entry `map_get`
/// speaks of.
pub proof fn lemma_map_idx<V>(entries: Seq<(String, V)>, key: Seq<char>, i: int)
    requires
        keys_unique(entries),
        0 <= i < entries.len(),
        entries[i].0@ == key,
    ensures
        map_has(entries, key),
        map_idx(entries, key) == i,
        map_get(entries, key) == entries[i].1,
{
    assert(map_has(entries, key));
    let j = map_idx(entries, key);
    if i < j {
        assert(entries[i].0@ != entries[j].0@);
    } else if j < i {
        assert(entries[j].0@ != entries[i].0@);
    }
}

/// The sequence holds a string whose characters are `key`.
pub open spec fn contains_str(names: Seq<String>, key: Seq<char>) -> bool {
    exists|i: int| 0 <= i < names.len() && names[i]@ == key
}

/// Some listed transition targets `l` — among the transitions of entries
/// before `i`, or of entry `i` before index `j`.
pub open spec fn target_before<U>(
    entries: Seq<(String, Vec<Transition<U>>)>,
    i: int,
    j: int,
    l: Seq<char>,
) -> bool {
    exists|k: int, j2: int|
        #![trigger entries[k].1@[j2]]
        0 <= k < entries.len() && 0 <= j2 < entries[k].1@.len() && (k < i || (k == i && j2 < j))
            && entries[k].1@[j2].to_location@ == l
}

/// Appending an entry with a fresh key extends the table and leaves every
/// other key's entry unchanged.
pub proof fn lemma_table_push<V>(entries: Seq<(String, V)>, e: (String, V))
    requires
        keys_unique(entries),
        !map_has(entries, e.0@),
    ensures
        keys_unique(entries.push(e)),
        map_has(entries.push(e), e.0@),
        map_get(entries.push(e), e.0@) == e.1,
        forall|l: Seq<char>| l != e.0@ ==> map_has(entries.push(e), l) == map_has(entries, l),
        forall|l: Seq<char>|
            l != e.0@ && map_has(entries, l) ==> map_get(entries.push(e), l) == map_get(entries, l),
{
    let s = entries.push(e);
    let n = entries.len() as int;
    assert(s[n] == e);
    assert forall|i: int, j: int| 0 <= i < j < s.len() implies (#[trigger] s[i]).0@ != (
    #[trigger] s[j]).0@ by {
        if j < n {
            assert(entries[i].0@ != entries[j].0@);
        } else {
            assert(s[i] == entries[i]);
            if entries[i].0@ == e.0@ {
                assert(map_has(entries, e.0@));
            }
        }
    }
    lemma_map_idx(s, e.0@, n);
    assert forall|l: Seq<char>| l != e.0@ implies map_has(s, l) == map_has(entries, l) by {
        if map_has(s, l) {
            let k = choose|k: int| 0 <= k < s.len() && s[k].0@ == l;
            assert(k < n);
            assert(entries[k].0@ == l);
            assert(map_has(entries, l));
        }
        if map_has(entries, l) {
            let k = choose|k: int| 0 <= k < entries.len() && entries[k].0@ == l;
            assert(s[k].0@ == l);
            assert(map_has(s, l));
        }
    }
    assert forall|l: Seq<char>| l != e.0@ && map_has(entries, l) implies map_get(s, l) == map_get(
        entries,
        l,
    ) by {
        let k = choose|k: int| 0 <= k < entries.len() && entries[k].0@ == l;
        lemma_map_idx(entries, l, k);
        lemma_map_idx(s, l, k);
    }
}

/// Replacing the payload of one entry, keeping its key, changes only that
/// key's entry.
pub proof fn lemma_table_update<V>(entries: Seq<(String, V)>, i: int, v: V)
    requires
        keys_unique(entries),
        0 <= i < entries.len(),
    ensures
        keys_unique(entries.update(i, (entries[i].0, v))),
        forall|l: Seq<char>|
            map_has(entries.update(i, (entries[i].0, v)), l) == map_has(entries, l),
        map_get(entries.update(i, (entries[i].0, v)), entries[i].0@) == v,
        forall|l: Seq<char>|
            l != entries[i].0@ && map_has(entries, l) ==> map_get(
                entries.update(i, (entries[i].0, v)),
                l,
            ) == map_get(entries, l),
{
    let s = entries.update(i, (entries[i].0, v));
    assert forall|p: int, q: int| 0 <= p < q < s.len() implies (#[trigger] s[p]).0@ != (
    #[trigger] s[q]).0@ by {
        assert(s[p].0 == entries[p].0);
        assert(s[q].0 == entries[q].0);
    }
    assert forall|l: Seq<char>| map_has(s, l) == map_has(entries, l) by {
        if map_has(s, l) {
            let k = choose|k: int| 0 <= k < s.len() && s[k].0@ == l;
            assert(entries[k].0@ == l);
            assert(map_has(entries, l));
        }
        if map_has(entries, l) {
            let k = choose|k: int| 0 <= k < entries.len() && entries[k].0@ == l;
            assert(s[k].0@ == l);
            assert(map_has(s, l));
        }
    }
    lemma_map_idx(s, entries[i].0@, i);
    assert forall|l: Seq<char>| l != entries[i].0@ && map_has(entries, l) implies map_get(s, l)
        == map_get(entries, l) by {
        let k = choose|k: int| 0 <= k < entries.len() && entries[k].0@ == l;
        lemma_map_idx(entries, l, k);
        assert(k != i);
        assert(s[k] == entries[k]);
        lemma_map_idx(s, l, k);
    }
}

/// The outgoing transitions recorded for `loc` in a location table.
pub open spec fn table_transitions<U>(
    entries: Seq<(String, Vec<Transition<U>>)>,
    loc: Seq<char>,
) -> Seq<Transition<U>> {
    if map_has(entries, loc) {
        map_get(entries, loc)@
    } else {
        Seq::empty()
    }
}

/// Looks a string up in a vector of names.
fn vec_contains_string(names: &Vec<String>, key: &String) -> (r: bool)
    ensures
        r == contains_str(names@, key@),
{
    let n = names.len();
    let mut i: usize = 0;
    while i < n
        invariant
            n == names@.len(),
            0 <= i <= n,
            forall|j: int| 0 <= j < i ==> (#[trigger] names@[j])@ != key@,
        decreases n - i,
    {
        if names[i] == *key {
            return true;
        }
        i = i + 1;
    }
    false
}

/// Looks `key` up in an association list with unique keys.
pub(crate) fn assoc_get<'a, V>(entries: &'a Vec<(String, V)>, key: &String) -> (r: Option<&'a V>)
    requires
        keys_unique(entries@),
    ensures
        match r {
            Some(v) => map_has(entries@, key@) && *v == map_get(entries@, key@),
            None => !map_has(entries@, key@),
        },
{
    let n = entries.len();
    let mut i: usize = 0;
    while i < n
        invariant
            n == entries@.len(),
            0 <= i <= n,
            keys_unique(entries@),
            forall|j: int| 0 <= j < i ==> (#[trigger] entries@[j]).0@ != key@,
        decreases n - i,
    {
        if entries[i].0 == *key {
            proof {
                lemma_map_idx(entries@, key@, i as int);
            }
            return Some(&entries[i].1);
        }
        i = i + 1;
    }
    None
}

/// Describes an EFSM.  In most cases, use the [builder](MachineBuilder) to
/// specify a machine.
pub struct Machine<U> {
    pub locations: Vec<(String, Vec<Transition<U>>)>,
    pub accepting: Vec<String>,
}

impl<U: Update> Machine<U> {
    /// Structural invariant: location keys and accepting names are unique.
    pub open spec fn wf(self) -> bool {
        &&& keys_unique(self.locations@)
        &&& forall|i: int, j: int|
            0 <= i < j < self.accepting@.len() ==> (#[trigger] self.accepting@[i])@ != (
            #[trigger] self.accepting@[j])@
    }

    /// The outgoing transitions of `loc`, in insertion order; empty when the
    /// location has none.
    pub open spec fn spec_transitions(self, loc: Seq<char>) -> Seq<Transition<U>> {
        table_transitions(self.locations@, loc)
    }

    /// Whether `loc` is an accepting location.
    pub open spec fn spec_accepting(self, loc: Seq<char>) -> bool {
        contains_str(self.accepting@, loc)
    }

    /// `loc` is mentioned in the transition graph: it has an entry in the
    /// location table, or some listed transition targets it.
    pub open spec fn spec_mentioned(self, loc: Seq<char>) -> bool {
        map_has(self.locations@, loc) || target_before(
            self.locations@,
            self.locations@.len() as int,
            0,
            loc,
        )
    }

    /// The children produced from register `d` on input `i` by the listed
    /// transitions, in list order: one `(target location, updated register)`
    /// pair for each enabled transition.
    pub open spec fn spec_step_trans(ts: Seq<Transition<U>>, d: u32, i: U::I) -> Seq<
        (Seq<char>, u32),
    >
        decreases ts.len(),
    {
        if ts.len() == 0 {
            Seq::empty()
        } else {
            Self::spec_step_trans(ts.drop_last(), d, i) + (if ts.last().update.enable_spec(
                d,
                i,
            ) {
                seq![(ts.last().to_location@, ts.last().update.update_spec(d, i))]
            } else {
                Seq::empty()
            })
        }
    }

    /// The children of the configuration `(loc, d)` on input `i`.
    pub open spec fn spec_step_state(self, loc: Seq<char>, d: u32, i: U::I) -> Seq<
        (Seq<char>, u32),
    > {
        Self::spec_step_trans(self.spec_transitions(loc), d, i)
    }

    /// One synchronous step of the whole frontier on input `i`, preserving
    /// the frontier's order.
    pub open spec fn spec_step_frontier(self, fv: Seq<(Seq<char>, u32)>, i: U::I) -> Seq<
        (Seq<char>, u32),
    >
        decreases fv.len(),
    {
        if fv.len() == 0 {
            Seq::empty()
        } else {
            self.spec_step_frontier(fv.drop_last(), i) + self.spec_step_state(
                fv.last().0,
                fv.last().1,
                i,
            )
        }
    }

    /// The frontier after consuming the whole input word `w`.
    pub open spec fn spec_run_frontier(self, fv: Seq<(Seq<char>, u32)>, w: Seq<U::I>) -> Seq<
        (Seq<char>, u32),
    >
        decreases w.len(),
    {
        if w.len() == 0 {
            fv
        } else {
            self.spec_step_frontier(self.spec_run_frontier(fv, w.drop_last()), w.last())
        }
    }

    /// Some member of the frontier sits at an accepting location.
    pub open spec fn spec_frontier_accepts(self, fv: Seq<(Seq<char>, u32)>) -> bool {
        exists|k: int| 0 <= k < fv.len() && self.spec_accepting(fv[k].0)
    }

    /// The word `w` drives the machine from `(loc, d)` into an accepting
    /// location: the meaning of [`Machine::exec`].
    pub open spec fn spec_exec(self, loc: Seq<char>, d: u32, w: Seq<U::I>) -> bool {
        self.spec_frontier_accepts(self.spec_run_frontier(seq![(loc, d)], w))
    }

    /// The word `w` drives the machine along enabled transitions from
    /// `(loc, d)` to exactly `(loc2, d2)`.
    pub open spec fn spec_reaches(
        self,
        loc: Seq<char>,
        d: u32,
        w: Seq<U::I>,
        loc2: Seq<char>,
        d2: u32,
    ) -> bool
        decreases w.len(),
    {
        if w.len() == 0 {
            loc2 == loc && d2 == d
        } else {
            exists|t: Transition<U>|
                #![auto]
                self.spec_transitions(loc).contains(t) && t.update.enable_spec(d, w[0])
                    && self.spec_reaches(
                    t.to_location@,
                    t.update.update_spec(d, w[0]),
                    w.drop_first(),
                    loc2,
                    d2,
                )
        }
    }

    /// At most one transition is enabled from any configuration on any
    /// input: every frontier stays at most a singleton.
    pub open spec fn deterministic(self) -> bool {
        forall|l: Seq<char>, d: u32, i: U::I| #![auto] self.spec_step_state(l, d, i).len() <= 1
    }

    /// From every location of the transition table, every configuration has
    /// an enabled transition on every input, and transitions never leave
    /// the table.
    pub open spec fn total(self) -> bool {
        &&& forall|l: Seq<char>, d: u32, i: U::I|
            #![auto]
            map_has(self.locations@, l) ==> self.spec_step_state(l, d, i).len() >= 1
        &&& forall|l: Seq<char>, t: Transition<U>|
            #[trigger] self.spec_transitions(l).contains(t) ==> map_has(
                self.locations@,
                t.to_location@,
            )
    }

    /// Trace semantics: some sequence of enabled transitions consumes `w`
    /// from `(loc, d)` and ends at an accepting location.
    pub open spec fn spec_has_run(self, loc: Seq<char>, d: u32, w: Seq<U::I>) -> bool
        decreases w.len(),
    {
        if w.len() == 0 {
            self.spec_accepting(loc)
        } else {
            exists|t: Transition<U>|
                #![auto]
                self.spec_transitions(loc).contains(t) && t.update.enable_spec(d, w[0])
                    && self.spec_has_run(
                    t.to_location@,
                    t.update.update_spec(d, w[0]),
                    w.drop_first(),
                )
        }
    }

    fn new(locations: Vec<(String, Vec<Transition<U>>)>, accepting: Vec<String>) -> (r: Self)
        ensures
            r.locations == locations,
            r.accepting == accepting,
    {
        Machine { locations, accepting }
    }

    /// Read-only access to the location table.
    pub fn get_locations(&self) -> (r: &Vec<(String, Vec<Transition<U>>)>)
        ensures
            r == &self.locations,
    {
        &self.locations
    }

    /// Read-only access to the accepting set.
    pub fn get_accepting(&self) -> (r: &Vec<String>)
        ensures
            r == &self.accepting,
    {
        &self.accepting
    }

    /// The outgoing transitions of `location`, if any were declared.
    pub fn get_transitions(&self, location: &String) -> (r: Option<&Vec<Transition<U>>>)
        requires
            self.wf(),
        ensures
            match r {
                Some(ts) => map_has(self.locations@, location@) && ts@
                    == self.spec_transitions(location@),
                None => !map_has(self.locations@, location@),
            },
    {
        assoc_get(&self.locations, location)
    }

    /// Same as [`Machine::get_transitions`], under the name used by graph
    /// consumers.
    pub fn get_transitions_from(&self, location: &String) -> (r: Option<&Vec<Transition<U>>>)
        requires
            self.wf(),
        ensures
            match r {
                Some(ts) => map_has(self.locations@, location@) && ts@
                    == self.spec_transitions(location@),
                None => !map_has(self.locations@, location@),
            },
    {
        assoc_get(&self.locations, location)
    }

    /// Whether `location` is accepting.
    pub fn is_accepting(&self, location: &String) -> (r: bool)
        ensures
            r == self.spec_accepting(location@),
    {
        let n = self.accepting.len();
        let mut i: usize = 0;
        while i < n
            invariant
                n == self.accepting@.len(),
                0 <= i <= n,
                forall|j: int| 0 <= j < i ==> (#[trigger] self.accepting@[j])@ != location@,
            decreases n - i,
        {
            if self.accepting[i] == *location {
                return true;
            }
            i = i + 1;
        }
        false
    }

    /// Advances every configuration of `states` by one input, appending the
    /// children of each configuration in insertion order of the transitions.
    pub fn transition(&self, i: &U::I, states: Vec<State>) -> (r: Vec<State>)
        requires
            self.wf(),
        ensures
            r@.map_values(|s: State| s@) == self.spec_step_frontier(
                states@.map_values(|s: State| s@),
                *i,
            ),
    {
        let ghost fv = states@.map_values(|s: State| s@);
        let mut next_states: Vec<State> = Vec::new();
        let n = states.len();
        let mut idx: usize = 0;
        while idx < n
            invariant
                self.wf(),
                n == states@.len(),
                fv == states@.map_values(|s: State| s@),
                0 <= idx <= n,
                next_states@.map_values(|s: State| s@) == self.spec_step_frontier(
                    fv.take(idx as int),
                    *i,
                ),
            decreases n - idx,
        {
            let state = &states[idx];
            let ghost prev = next_states@.map_values(|s: State| s@);
            proof {
                assert(fv[idx as int] == states@[idx as int]@);
            }
            match self.get_transitions(&state.location) {
                Some(transitions) => {
                    let ghost ts = transitions@;
                    let m = transitions.len();
                    let mut j: usize = 0;
                    while j < m
                        invariant
                            self.wf(),
                            m == ts.len(),
                            ts == transitions@,
                            0 <= j <= m,
                            transitions@ == self.spec_transitions(state@.0),
                            next_states@.map_values(|s: State| s@) == prev
                                + Self::spec_step_trans(ts.take(j as int), state.data, *i),
                        decreases m - j,
                    {
                        let t = &transitions[j];
                        let ghost before = next_states@.map_values(|s: State| s@);
                        if t.update.enable(&state.data, i) {
                            let new_data = t.update.update(state.data, i);
                            next_states.push(
                                State { location: t.to_location.clone(), data: new_data },
                            );
                            proof {
                                assert(next_states@.map_values(|s: State| s@) =~= before.push(
                                    (
                                        ts[j as int].to_location@,
                                        ts[j as int].update.update_spec(state.data, *i),
                                    ),
                                ));
                            }
                        }
                        proof {
                            assert(ts.take(j as int + 1).drop_last() =~= ts.take(j as int));
                            assert(ts.take(j as int + 1).last() == ts[j as int]);
                            assert(Self::spec_step_trans(ts.take(j as int + 1), state.data, *i)
                                == Self::spec_step_trans(ts.take(j as int), state.data, *i) + (
                            if ts[j as int].update.enable_spec(state.data, *i) {
                                seq![
                                    (
                                        ts[j as int].to_location@,
                                        ts[j as int].update.update_spec(state.data, *i),
                                    ),
                                ]
                            } else {
                                Seq::<(Seq<char>, u32)>::empty()
                            }));
                            assert(next_states@.map_values(|s: State| s@) =~= prev
                                + Self::spec_step_trans(ts.take(j as int + 1), state.data, *i));
                        }
                        j = j + 1;
                    }
                    proof {
                        assert(ts.take(m as int) =~= ts);
                        assert(self.spec_step_state(fv[idx as int].0, fv[idx as int].1, *i)
                            == Self::spec_step_trans(ts, state.data, *i));
                    }
                },
                None => {
                    proof {
                        assert(self.spec_transitions(state@.0) =~= Seq::<Transition<U>>::empty());
                        assert(self.spec_step_state(fv[idx as int].0, fv[idx as int].1, *i) =~= Seq::<
                            (Seq<char>, u32),
                        >::empty());
                        assert(next_states@.map_values(|s: State| s@) =~= prev + self.spec_step_state(
                            fv[idx as int].0,
                            fv[idx as int].1,
                            *i,
                        ));
                    }
                },
            }
            proof {
                assert(fv.take(idx as int + 1).drop_last() =~= fv.take(idx as int));
                assert(fv.take(idx as int + 1).last() == fv[idx as int]);
                assert(next_states@.map_values(|s: State| s@) =~= self.spec_step_frontier(
                    fv.take(idx as int + 1),
                    *i,
                ));
            }
            idx = idx + 1;
        }
        proof {
            assert(fv.take(n as int) =~= fv);
        }
        next_states
    }

    /// Checks whether the input word `input` belongs to the language defined
    /// by this machine when started at `(location, data)`.
    pub fn exec(&self, location: &str, data: u32, input: Vec<U::I>) -> (r: bool)
        requires
            self.wf(),
        ensures
            r == self.spec_exec(location@, data, input@),
    {
        let mut states: Vec<State> = Vec::new();
        states.push(State { location: location.to_owned(), data });
        let ghost init = seq![(location@, data)];
        proof {
            assert(states@.map_values(|s: State| s@) =~= init);
        }
        let n = input.len();
        let mut idx: usize = 0;
        while idx < n
            invariant
                self.wf(),
                n == input@.len(),
                0 <= idx <= n,
                states@.map_values(|s: State| s@) == self.spec_run_frontier(
                    init,
                    input@.take(idx as int),
                ),
            decreases n - idx,
        {
            states = self.transition(&input[idx], states);
            proof {
                assert(input@.take(idx as int + 1).drop_last() =~= input@.take(idx as int));
                assert(input@.take(idx as int + 1).last() == input@[idx as int]);
            }
            idx = idx + 1;
        }
        proof {
            assert(input@.take(n as int) =~= input@);
        }
        let ghost fv = states@.map_values(|s: State| s@);
        let mut acc = false;
        let k_end = states.len();
        let mut k: usize = 0;
        while k < k_end
            invariant
                k_end == states@.len(),
                fv == states@.map_values(|s: State| s@),
                0 <= k <= k_end,
                acc == exists|t: int| 0 <= t < k && self.spec_accepting(fv[t].0),
            decreases k_end - k,
        {
            proof {
                assert(fv[k as int] == states@[k as int]@);
            }
            if self.is_accepting(&states[k].location) {
                acc = true;
            }
            k = k + 1;
        }
        acc
    }

    /// Records `name` as rejecting unless it is accepting or already
    /// recorded.
    fn push_rejecting(&self, rejecting: &mut Vec<String>, name: &String)
        requires
            forall|p: int, q: int|
                0 <= p < q < old(rejecting)@.len() ==> (#[trigger] old(rejecting)@[p])@ != (
                #[trigger] old(rejecting)@[q])@,
        ensures
            forall|p: int, q: int|
                0 <= p < q < final(rejecting)@.len() ==> (#[trigger] final(rejecting)@[p])@ != (
                #[trigger] final(rejecting)@[q])@,
            forall|l: Seq<char>|
                #[trigger] contains_str(final(rejecting)@, l) <==> (contains_str(
                    old(rejecting)@,
                    l,
                ) || (l == name@ && !self.spec_accepting(l))),
    {
        let ghost names0 = rejecting@;
        if !self.is_accepting(name) && !vec_contains_string(rejecting, name) {
            rejecting.push(name.clone());
            proof {
                assert forall|l: Seq<char>| #[trigger] contains_str(rejecting@, l) implies (
                contains_str(names0, l) || (l == name@ && !self.spec_accepting(l))) by {
                    let k = choose|k: int| 0 <= k < rejecting@.len() && rejecting@[k]@ == l;
                    if k < names0.len() {
                        assert(contains_str(names0, l));
                    } else {
                        assert(rejecting@[k]@ == name@);
                    }
                }
                assert forall|l: Seq<char>|
                    (contains_str(names0, l) || (l == name@ && !self.spec_accepting(
                        l,
                    ))) implies #[trigger] contains_str(rejecting@, l) by {
                    if contains_str(names0, l) {
                        let k = choose|k: int| 0 <= k < names0.len() && names0[k]@ == l;
                        assert(rejecting@[k]@ == l);
                    } else {
                        assert(rejecting@[names0.len() as int]@ == l);
                    }
                }
                assert forall|p: int, q: int| 0 <= p < q < rejecting@.len() implies (
                #[trigger] rejecting@[p])@ != (#[trigger] rejecting@[q])@ by {
                    if q == names0.len() as int {
                        assert(!contains_str(names0, name@));
                        assert(names0[p]@ != name@);
                    }
                }
            }
        } else {
            proof {
                assert forall|l: Seq<char>|
                    (l == name@ && !self.spec_accepting(l)) implies #[trigger] contains_str(
                    rejecting@,
                    l,
                ) by {
                    assert(contains_str(rejecting@, name@));
                }
            }
        }
    }

    /// Swaps the accepting set for all other locations mentioned in the
    /// transition graph: the keys of the location table and the targets of
    /// its transitions.  Preconditions (documented, not checked): the
    /// machine is deterministic and total; otherwise the complement is
    /// still produced but its language is not the complement language.
    pub fn complement(self) -> (r: Result<Machine<U>, MachineError>)
        requires
            self.wf(),
        ensures
            r matches Ok(m) && m.locations == self.locations && m.wf() && (forall|l: Seq<char>|
                #[trigger] m.spec_accepting(l) <==> (self.spec_mentioned(l)
                    && !self.spec_accepting(l))),
    {
        let mut rejecting: Vec<String> = Vec::new();
        let n = self.locations.len();
        // First pass: every non-accepting key of the location table.
        let mut i: usize = 0;
        while i < n
            invariant
                self.wf(),
                n == self.locations@.len(),
                0 <= i <= n,
                forall|p: int, q: int|
                    0 <= p < q < rejecting@.len() ==> (#[trigger] rejecting@[p])@ != (
                    #[trigger] rejecting@[q])@,
                forall|l: Seq<char>|
                    #[trigger] contains_str(rejecting@, l) <==> ((exists|k: int|
                        0 <= k < i && (#[trigger] self.locations@[k]).0@ == l)
                        && !self.spec_accepting(l)),
            decreases n - i,
        {
            let ghost prev = rejecting@;
            self.push_rejecting(&mut rejecting, &self.locations[i].0);
            proof {
                assert forall|l: Seq<char>| #[trigger] contains_str(rejecting@, l) implies ((
                exists|k: int|
                    0 <= k < i + 1 && (#[trigger] self.locations@[k]).0@ == l)
                    && !self.spec_accepting(l)) by {
                    if contains_str(prev, l) {
                    } else {
                        assert(self.locations@[i as int].0@ == l);
                    }
                }
                assert forall|l: Seq<char>|
                    ((exists|k: int| 0 <= k < i + 1 && (#[trigger] self.locations@[k]).0@ == l)
                        && !self.spec_accepting(l)) implies #[trigger] contains_str(
                    rejecting@,
                    l,
                ) by {
                    let k = choose|k: int|
                        0 <= k < i + 1 && (#[trigger] self.locations@[k]).0@ == l;
                    if k < i {
                        assert(contains_str(prev, l));
                    } else {
                        assert(l == self.locations@[i as int].0@);
                    }
                }
            }
            i = i + 1;
        }
        proof {
            assert forall|l: Seq<char>| #[trigger] contains_str(rejecting@, l) == ((map_has(
                self.locations@,
                l,
            ) || target_before(self.locations@, 0, 0, l)) && !self.spec_accepting(l)) by {
                if contains_str(rejecting@, l) {
                    let k = choose|k: int|
                        0 <= k < n && (#[trigger] self.locations@[k]).0@ == l;
                    assert(map_has(self.locations@, l));
                }
                if map_has(self.locations@, l) {
                    let k = choose|k: int|
                        0 <= k < self.locations@.len() && (#[trigger] self.locations@[k]).0@ == l;
                    assert(0 <= k < n && self.locations@[k].0@ == l);
                }
            }
        }
        // Second pass: every non-accepting transition target.
        let mut i2: usize = 0;
        while i2 < n
            invariant
                self.wf(),
                n == self.locations@.len(),
                0 <= i2 <= n,
                forall|p: int, q: int|
                    0 <= p < q < rejecting@.len() ==> (#[trigger] rejecting@[p])@ != (
                    #[trigger] rejecting@[q])@,
                forall|l: Seq<char>|
                    #[trigger] contains_str(rejecting@, l) <==> ((map_has(self.locations@, l)
                        || target_before(self.locations@, i2 as int, 0, l))
                        && !self.spec_accepting(l)),
            decreases n - i2,
        {
            let entry_ts = &self.locations[i2].1;
            let m_end = entry_ts.len();
            let mut j: usize = 0;
            while j < m_end
                invariant
                    self.wf(),
                    n == self.locations@.len(),
                    (i2 as int) < n,
                    m_end == entry_ts@.len(),
                    entry_ts@ == self.locations@[i2 as int].1@,
                    0 <= j <= m_end,
                    forall|p: int, q: int|
                        0 <= p < q < rejecting@.len() ==> (#[trigger] rejecting@[p])@ != (
                        #[trigger] rejecting@[q])@,
                    forall|l: Seq<char>|
                        #[trigger] contains_str(rejecting@, l) <==> ((map_has(self.locations@, l)
                            || target_before(self.locations@, i2 as int, j as int, l))
                            && !self.spec_accepting(l)),
                decreases m_end - j,
            {
                let ghost prev = rejecting@;
                self.push_rejecting(&mut rejecting, &entry_ts[j].to_location);
                proof {
                    let tl = self.locations@[i2 as int].1@[j as int].to_location@;
                    assert forall|l: Seq<char>| #[trigger] contains_str(rejecting@, l) implies ((
                    map_has(self.locations@, l) || target_before(
                        self.locations@,
                        i2 as int,
                        j as int + 1,
                        l,
                    )) && !self.spec_accepting(l)) by {
                        if contains_str(prev, l) {
                            if target_before(self.locations@, i2 as int, j as int, l) {
                                let (k, j2) = choose|k: int, j2: int|
                                    #![trigger self.locations@[k].1@[j2]]
                                    0 <= k < self.locations@.len() && 0 <= j2
                                        < self.locations@[k].1@.len() && (k < i2 as int || (k
                                        == i2 as int && j2 < j as int))
                                        && self.locations@[k].1@[j2].to_location@ == l;
                                assert(target_before(
                                    self.locations@,
                                    i2 as int,
                                    j as int + 1,
                                    l,
                                ));
                            }
                        } else {
                            assert(l == tl);
                            assert(self.locations@[i2 as int].1@[j as int].to_location@ == l);
                            assert(target_before(self.locations@, i2 as int, j as int + 1, l));
                        }
                    }
                    assert forall|l: Seq<char>|
                        ((map_has(self.locations@, l) || target_before(
                            self.locations@,
                            i2 as int,
                            j as int + 1,
                            l,
                        )) && !self.spec_accepting(l)) implies #[trigger] contains_str(
                        rejecting@,
                        l,
                    ) by {
                        if map_has(self.locations@, l) {
                            assert(contains_str(prev, l));
                        } else {
                            let (k, j2) = choose|k: int, j2: int|
                                #![trigger self.locations@[k].1@[j2]]
                                0 <= k < self.locations@.len() && 0 <= j2
                                    < self.locations@[k].1@.len() && (k < i2 as int || (k
                                    == i2 as int && j2 < j as int + 1))
                                    && self.locations@[k].1@[j2].to_location@ == l;
                            if k < i2 as int || (k == i2 as int && j2 < j as int) {
                                assert(target_before(self.locations@, i2 as int, j as int, l));
                                assert(contains_str(prev, l));
                            } else {
                                assert(l == tl);
                            }
                        }
                    }
                }
                j = j + 1;
            }
            proof {
                assert forall|l: Seq<char>|
                    target_before(self.locations@, i2 as int, m_end as int, l) == target_before(
                    self.locations@,
                    i2 as int + 1,
                    0,
                    l,
                ) by {
                    if target_before(self.locations@, i2 as int, m_end as int, l) {
                        let (k, j2) = choose|k: int, j2: int|
                            #![trigger self.locations@[k].1@[j2]]
                            0 <= k < self.locations@.len() && 0 <= j2
                                < self.locations@[k].1@.len() && (k < i2 as int || (k == i2 as int
                                && j2 < m_end as int)) && self.locations@[k].1@[j2].to_location@
                                == l;
                        assert(target_before(self.locations@, i2 as int + 1, 0, l));
                    }
                    if target_before(self.locations@, i2 as int + 1, 0, l) {
                        let (k, j2) = choose|k: int, j2: int|
                            #![trigger self.locations@[k].1@[j2]]
                            0 <= k < self.locations@.len() && 0 <= j2
                                < self.locations@[k].1@.len() && (k < i2 as int + 1 || (k == i2
                                as int + 1 && j2 < 0)) && self.locations@[k].1@[j2].to_location@
                                == l;
                        assert(target_before(self.locations@, i2 as int, m_end as int, l));
                    }
                }
            }
            i2 = i2 + 1;
        }
        Ok(Machine { locations: self.locations, accepting: rejecting })
    }
}

/// Two machines with pairwise equal location keys, equal transition lists,
/// and equal accepting names describe the same graph; [`Machine::clone`]
/// establishes this relation.
pub open spec fn same_graph<U: Update>(a: Machine<U>, b: Machine<U>) -> bool {
    &&& a.accepting@ == b.accepting@
    &&& a.locations@.len() == b.locations@.len()
    &&& forall|k: int|
        0 <= k < a.locations@.len() ==> (#[trigger] b.locations@[k]).0 == a.locations@[k].0 && (
        #[trigger] b.locations@[k]).1@ == a.locations@[k].1@
}

/// Machines related by [`same_graph`] have the same well-formedness, the
/// same transition relation, and the same accepting locations.
pub proof fn lemma_same_graph_equiv<U: Update>(a: Machine<U>, b: Machine<U>)
    requires
        same_graph(a, b),
        a.wf(),
    ensures
        b.wf(),
        forall|l: Seq<char>| #[trigger] b.spec_transitions(l) == a.spec_transitions(l),
        forall|l: Seq<char>| #[trigger] b.spec_accepting(l) == a.spec_accepting(l),
        forall|l: Seq<char>| #[trigger] map_has(b.locations@, l) == map_has(a.locations@, l),
        forall|l: Seq<char>| #[trigger] b.spec_mentioned(l) == a.spec_mentioned(l),
{
    assert forall|l: Seq<char>|
        target_before(b.locations@, b.locations@.len() as int, 0, l) == target_before(
        a.locations@,
        a.locations@.len() as int,
        0,
        l,
    ) by {
        if target_before(a.locations@, a.locations@.len() as int, 0, l) {
            let (k, j2) = choose|k: int, j2: int|
                #![trigger a.locations@[k].1@[j2]]
                0 <= k < a.locations@.len() && 0 <= j2 < a.locations@[k].1@.len() && (k
                    < a.locations@.len() as int || (k == a.locations@.len() as int && j2 < 0))
                    && a.locations@[k].1@[j2].to_location@ == l;
            assert(b.locations@[k].1@[j2] == a.locations@[k].1@[j2]);
            assert(target_before(b.locations@, b.locations@.len() as int, 0, l));
        }
        if target_before(b.locations@, b.locations@.len() as int, 0, l) {
            let (k, j2) = choose|k: int, j2: int|
                #![trigger b.locations@[k].1@[j2]]
                0 <= k < b.locations@.len() && 0 <= j2 < b.locations@[k].1@.len() && (k
                    < b.locations@.len() as int || (k == b.locations@.len() as int && j2 < 0))
                    && b.locations@[k].1@[j2].to_location@ == l;
            assert(b.locations@[k].1@[j2] == a.locations@[k].1@[j2]);
            assert(target_before(a.locations@, a.locations@.len() as int, 0, l));
        }
    }
    assert forall|l: Seq<char>| #[trigger] map_has(b.locations@, l) == map_has(a.locations@, l) by {
        if map_has(a.locations@, l) {
            let k = choose|k: int|
                0 <= k < a.locations@.len() && (#[trigger] a.locations@[k]).0@ == l;
            assert(b.locations@[k].0@ == l);
        }
        if map_has(b.locations@, l) {
            let k = choose|k: int|
                0 <= k < b.locations@.len() && (#[trigger] b.locations@[k]).0@ == l;
            assert(a.locations@[k].0@ == l);
        }
    }
    assert forall|p: int, q: int| 0 <= p < q < b.locations@.len() implies (
    #[trigger] b.locations@[p]).0@ != (#[trigger] b.locations@[q]).0@ by {
        assert(a.locations@[p].0@ != a.locations@[q].0@);
    }
    assert forall|l: Seq<char>| #[trigger] b.spec_transitions(l) == a.spec_transitions(l) by {
        if map_has(a.locations@, l) {
            let k = choose|k: int|
                0 <= k < a.locations@.len() && (#[trigger] a.locations@[k]).0@ == l;
            lemma_map_idx(a.locations@, l, k);
            lemma_map_idx(b.locations@, l, k);
        }
    }
}

impl<U: Update> Clone for Machine<U> {
    /// A deep value clone of the graph: the clone satisfies
    /// [`same_graph`] with the original.
    fn clone(&self) -> (r: Self)
        ensures
            same_graph(*self, r),
    {
        let mut locations: Vec<(String, Vec<Transition<U>>)> = Vec::new();
        let n = self.locations.len();
        let mut i: usize = 0;
        while i < n
            invariant
                n == self.locations@.len(),
                0 <= i <= n,
                locations@.len() == i,
                forall|k: int|
                    0 <= k < i ==> (#[trigger] locations@[k]).0 == self.locations@[k].0 && (
                    #[trigger] locations@[k]).1@ == self.locations@[k].1@,
            decreases n - i,
        {
            let entry = &self.locations[i];
            let mut ts: Vec<Transition<U>> = Vec::new();
            let m = entry.1.len();
            let mut j: usize = 0;
            while j < m
                invariant
                    m == entry.1@.len(),
                    0 <= j <= m,
                    ts@.len() == j,
                    forall|k: int| 0 <= k < j ==> #[trigger] ts@[k] == entry.1@[k],
                decreases m - j,
            {
                ts.push(entry.1[j].clone());
                j = j + 1;
            }
            proof {
                assert(ts@ =~= entry.1@);
            }
            locations.push((entry.0.clone(), ts));
            i = i + 1;
        }
        let mut accepting: Vec<String> = Vec::new();
        let a_end = self.accepting.len();
        let mut a: usize = 0;
        while a < a_end
            invariant
                a_end == self.accepting@.len(),
                0 <= a <= a_end,
                accepting@.len() == a,
                forall|k: int| 0 <= k < a ==> #[trigger] accepting@[k] == self.accepting@[k],
            decreases a_end - a,
        {
            accepting.push(self.accepting[a].clone());
            a = a + 1;
        }
        proof {
            assert(accepting@ =~= self.accepting@);
        }
        Machine { locations, accepting }
    }
}

/// Helps with specifying [Machines](Machine).
pub struct MachineBuilder<U> {
    pub locations: Vec<(String, Vec<Transition<U>>)>,
    pub accepting: Vec<String>,
}

impl<U: Update> MachineBuilder<U> {
    /// Structural invariant: location keys and accepting names are unique.
    pub open spec fn wf(self) -> bool {
        &&& keys_unique(self.locations@)
        &&& forall|i: int, j: int|
            0 <= i < j < self.accepting@.len() ==> (#[trigger] self.accepting@[i])@ != (
            #[trigger] self.accepting@[j])@
    }

    /// Create a new machine builder.
    pub fn new() -> (r: Self)
        ensures
            r.locations@ == Seq::<(String, Vec<Transition<U>>)>::empty(),
            r.accepting@ == Seq::<String>::empty(),
            r.wf(),
    {
        MachineBuilder { locations: Vec::new(), accepting: Vec::new() }
    }

    /// Add a transition from location `from_location`, appended after the
    /// transitions already recorded there.
    pub fn with_transition(self, from_location: &str, transition: Transition<U>) -> (r: Self)
        requires
            self.wf(),
        ensures
            r.wf(),
            r.accepting == self.accepting,
            table_transitions(r.locations@, from_location@) == table_transitions(
                self.locations@,
                from_location@,
            ).push(transition),
            forall|l: Seq<char>|
                l != from_location@ ==> #[trigger] table_transitions(r.locations@, l)
                    == table_transitions(self.locations@, l),
    {
        let mut this = self;
        let key = from_location.to_owned();
        let ghost entries0 = this.locations@;
        let n = this.locations.len();
        let mut i: usize = 0;
        while i < n
            invariant
                this == self,
                self.wf(),
                entries0 == this.locations@,
                n == entries0.len(),
                0 <= i <= n,
                keys_unique(entries0),
                key@ == from_location@,
                forall|j: int| 0 <= j < i ==> (#[trigger] entries0[j]).0@ != key@,
            decreases n - i,
        {
            if this.locations[i].0 == key {
                proof {
                    lemma_map_idx(entries0, key@, i as int);
                }
                let mut entry = this.locations.remove(i);
                entry.1.push(transition);
                this.locations.insert(i, entry);
                proof {
                    let updated = entries0.update(
                        i as int,
                        (entries0[i as int].0, entry.1),
                    );
                    assert(this.locations@ =~= updated);
                    lemma_table_update(entries0, i as int, entry.1);
                    assert(entry.1@ =~= map_get(entries0, key@)@.push(transition));
                    assert(table_transitions(this.locations@, from_location@)
                        == table_transitions(entries0, from_location@).push(transition));
                    assert forall|l: Seq<char>| l != from_location@ implies #[trigger]
                    table_transitions(this.locations@, l) == table_transitions(entries0, l) by {
                        assert(map_has(updated, l) == map_has(entries0, l));
                    }
                }
                return this;
            }
            i = i + 1;
        }
        let mut ts_new: Vec<Transition<U>> = Vec::new();
        ts_new.push(transition);
        proof {
            assert(!map_has(entries0, key@));
            lemma_table_push(entries0, (key, ts_new));
        }
        let ghost e = (key, ts_new);
        this.locations.push((key, ts_new));
        proof {
            assert(this.locations@ =~= entries0.push(e));
            assert(table_transitions(entries0, from_location@) =~= Seq::<Transition<U>>::empty());
            assert(table_transitions(this.locations@, from_location@) =~= table_transitions(
                entries0,
                from_location@,
            ).push(transition));
        }
        this
    }

    /// Mark location `location` as accepting.
    pub fn with_accepting(self, location: &str) -> (r: Self)
        requires
            self.wf(),
        ensures
            r.wf(),
            r.locations == self.locations,
            forall|l: Seq<char>|
                #[trigger] contains_str(r.accepting@, l) <==> (contains_str(self.accepting@, l)
                    || l == location@),
    {
        let mut this = self;
        let key = location.to_owned();
        let ghost names0 = this.accepting@;
        if !vec_contains_string(&this.accepting, &key) {
            this.accepting.push(key);
            proof {
                assert forall|l: Seq<char>| #[trigger] contains_str(this.accepting@, l) implies (
                contains_str(names0, l) || l == location@) by {
                    let k = choose|k: int|
                        0 <= k < this.accepting@.len() && (#[trigger] this.accepting@[k])@ == l;
                    if k < names0.len() {
                        assert(contains_str(names0, l));
                    }
                }
                assert forall|l: Seq<char>| (contains_str(names0, l) || l == location@) implies
                    #[trigger] contains_str(this.accepting@, l) by {
                    if contains_str(names0, l) {
                        let k = choose|k: int| 0 <= k < names0.len() && (#[trigger] names0[k])@ == l;
                        assert(this.accepting@[k]@ == l);
                    } else {
                        assert(this.accepting@[names0.len() as int]@ == l);
                    }
                }
                assert forall|p: int, q: int| 0 <= p < q < this.accepting@.len() implies (
                #[trigger] this.accepting@[p])@ != (#[trigger] this.accepting@[q])@ by {
                    if q == names0.len() as int {
                        assert(!contains_str(names0, this.accepting@[q]@));
                        assert(names0[p]@ != this.accepting@[q]@);
                    }
                }
            }
        } else {
            proof {
                assert forall|l: Seq<char>| (contains_str(names0, l) || l == location@) implies
                    #[trigger] contains_str(this.accepting@, l) by {}
            }
        }
        this
    }

    /// Create and return a new machine from the current specification.
    pub fn build(self) -> (m: Machine<U>)
        requires
            self.wf(),
        ensures
            m.locations == self.locations,
            m.accepting == self.accepting,
            m.wf(),
    {
        Machine::new(self.locations, self.accepting)
    }
}

/// A configuration is a child of `(d, i)` under a transition list exactly
/// when some listed, enabled transition produces it.
pub proof fn lemma_step_trans_membership<U: Update>(
    ts: Seq<Transition<U>>,
    d: u32,
    i: U::I,
    c: (Seq<char>, u32),
)
    ensures
        Machine::<U>::spec_step_trans(ts, d, i).contains(c) <==> exists|t: Transition<U>|
            #![auto]
            ts.contains(t) && t.update.enable_spec(d, i) && c == (
                t.to_location@,
                t.update.update_spec(d, i),
            ),
    decreases ts.len(),
{
    if ts.len() == 0 {
    } else {
        lemma_step_trans_membership::<U>(ts.drop_last(), d, i, c);
        let front = Machine::<U>::spec_step_trans(ts.drop_last(), d, i);
        let whole = Machine::<U>::spec_step_trans(ts, d, i);
        let t_last = ts.last();
        if whole.contains(c) {
            let k = choose|k: int| 0 <= k < whole.len() && whole[k] == c;
            if k < front.len() {
                assert(front.contains(c));
                let t = choose|t: Transition<U>|
                    #![auto]
                    ts.drop_last().contains(t) && t.update.enable_spec(d, i) && c == (
                        t.to_location@,
                        t.update.update_spec(d, i),
                    );
                let j = choose|j: int| 0 <= j < ts.drop_last().len() && ts.drop_last()[j] == t;
                assert(ts[j] == t);
                assert(ts.contains(t));
            } else {
                assert(t_last.update.enable_spec(d, i));
                assert(c == (t_last.to_location@, t_last.update.update_spec(d, i)));
                assert(ts.contains(t_last));
            }
        }
        if exists|t: Transition<U>|
            #![auto]
            ts.contains(t) && t.update.enable_spec(d, i) && c == (
                t.to_location@,
                t.update.update_spec(d, i),
            ) {
            let t = choose|t: Transition<U>|
                #![auto]
                ts.contains(t) && t.update.enable_spec(d, i) && c == (
                    t.to_location@,
                    t.update.update_spec(d, i),
                );
            let k = choose|k: int| 0 <= k < ts.len() && ts[k] == t;
            if k < ts.len() - 1 {
                assert(ts.drop_last()[k] == t);
                assert(ts.drop_last().contains(t));
                assert(front.contains(c));
                let j = choose|j: int| 0 <= j < front.len() && front[j] == c;
                assert(whole[j] == c);
                assert(whole.contains(c));
            } else {
                assert(t == t_last);
                assert(whole[front.len() as int] == c);
                assert(whole.contains(c));
            }
        }
    }
}

/// A configuration is in the stepped frontier exactly when it is a child of
/// some frontier member.
pub proof fn lemma_step_frontier_membership<U: Update>(
    m: Machine<U>,
    fv: Seq<(Seq<char>, u32)>,
    i: U::I,
    c: (Seq<char>, u32),
)
    ensures
        m.spec_step_frontier(fv, i).contains(c) <==> exists|k: int|
            0 <= k < fv.len() && #[trigger] m.spec_step_state(fv[k].0, fv[k].1, i).contains(c),
    decreases fv.len(),
{
    if fv.len() == 0 {
    } else {
        lemma_step_frontier_membership::<U>(m, fv.drop_last(), i, c);
        let front = m.spec_step_frontier(fv.drop_last(), i);
        let last_part = m.spec_step_state(fv.last().0, fv.last().1, i);
        let whole = m.spec_step_frontier(fv, i);
        if whole.contains(c) {
            let k = choose|k: int| 0 <= k < whole.len() && whole[k] == c;
            if k < front.len() {
                assert(front.contains(c));
                let p = choose|p: int|
                    0 <= p < fv.drop_last().len() && #[trigger] m.spec_step_state(
                        fv.drop_last()[p].0,
                        fv.drop_last()[p].1,
                        i,
                    ).contains(c);
                assert(fv[p] == fv.drop_last()[p]);
                assert(m.spec_step_state(fv[p].0, fv[p].1, i).contains(c));
            } else {
                assert(last_part[k - front.len()] == c);
                assert(last_part.contains(c));
                assert(fv[fv.len() - 1] == fv.last());
                assert(m.spec_step_state(fv[fv.len() - 1].0, fv[fv.len() - 1].1, i).contains(c));
            }
        }
        if exists|k: int|
            0 <= k < fv.len() && #[trigger] m.spec_step_state(fv[k].0, fv[k].1, i).contains(c) {
            let k = choose|k: int|
                0 <= k < fv.len() && #[trigger] m.spec_step_state(fv[k].0, fv[k].1, i).contains(c);
            if k < fv.len() - 1 {
                assert(fv.drop_last()[k] == fv[k]);
                assert(m.spec_step_state(fv.drop_last()[k].0, fv.drop_last()[k].1, i).contains(c));
                assert(front.contains(c));
                let j = choose|j: int| 0 <= j < front.len() && front[j] == c;
                assert(whole[j] == c);
                assert(whole.contains(c));
            } else {
                let j = choose|j: int| 0 <= j < last_part.len() && last_part[j] == c;
                assert(whole[front.len() + j] == c);
                assert(whole.contains(c));
            }
        }
    }
}

/// Consuming a word is consuming its first input, then the rest.
pub proof fn lemma_run_frontier_cons<U: Update>(
    m: Machine<U>,
    fv: Seq<(Seq<char>, u32)>,
    w: Seq<U::I>,
)
    requires
        w.len() > 0,
    ensures
        m.spec_run_frontier(fv, w) == m.spec_run_frontier(
            m.spec_step_frontier(fv, w[0]),
            w.drop_first(),
        ),
    decreases w.len(),
{
    let sf = m.spec_step_frontier(fv, w[0]);
    if w.len() == 1 {
        assert(w.drop_last() =~= Seq::<U::I>::empty());
        assert(w.drop_first() =~= Seq::<U::I>::empty());
        assert(w.last() == w[0]);
        assert(m.spec_run_frontier(fv, w) == m.spec_step_frontier(
            m.spec_run_frontier(fv, w.drop_last()),
            w.last(),
        ));
        assert(m.spec_run_frontier(fv, w.drop_last()) == fv);
        assert(m.spec_run_frontier(sf, w.drop_first()) == sf);
    } else {
        lemma_run_frontier_cons::<U>(m, fv, w.drop_last());
        assert(w.drop_last()[0] == w[0]);
        assert(w.drop_last().drop_first() =~= w.drop_first().drop_last());
        assert(w.drop_first().last() == w.last());
        assert(w.drop_first().len() > 0);
        assert(m.spec_run_frontier(fv, w) == m.spec_step_frontier(
            m.spec_run_frontier(fv, w.drop_last()),
            w.last(),
        ));
        assert(m.spec_run_frontier(fv, w.drop_last()) == m.spec_run_frontier(
            sf,
            w.drop_last().drop_first(),
        ));
        assert(m.spec_run_frontier(sf, w.drop_first()) == m.spec_step_frontier(
            m.spec_run_frontier(sf, w.drop_first().drop_last()),
            w.drop_first().last(),
        ));
        assert(m.spec_run_frontier(sf, w.drop_first().drop_last()) == m.spec_run_frontier(
            sf,
            w.drop_last().drop_first(),
        ));
    }
}

/// The stepped frontier accepts after the rest of the word exactly when
/// some frontier member has a full run: frontier semantics and trace
/// semantics agree.
pub proof fn lemma_accepts_iff_has_run<U: Update>(
    m: Machine<U>,
    fv: Seq<(Seq<char>, u32)>,
    w: Seq<U::I>,
)
    ensures
        m.spec_frontier_accepts(m.spec_run_frontier(fv, w)) <==> exists|k: int|
            0 <= k < fv.len() && #[trigger] m.spec_has_run(fv[k].0, fv[k].1, w),
    decreases w.len(),
{
    if w.len() == 0 {
        assert(m.spec_run_frontier(fv, w) == fv);
        assert forall|k: int| 0 <= k < fv.len() implies #[trigger] m.spec_has_run(
            fv[k].0,
            fv[k].1,
            w,
        ) == m.spec_accepting(fv[k].0) by {}
        if m.spec_frontier_accepts(fv) {
            let k = choose|k: int| 0 <= k < fv.len() && m.spec_accepting(fv[k].0);
            assert(m.spec_has_run(fv[k].0, fv[k].1, w));
        }
        if exists|k: int| 0 <= k < fv.len() && #[trigger] m.spec_has_run(fv[k].0, fv[k].1, w) {
            let k = choose|k: int|
                0 <= k < fv.len() && #[trigger] m.spec_has_run(fv[k].0, fv[k].1, w);
            assert(m.spec_accepting(fv[k].0));
            assert(m.spec_frontier_accepts(fv));
        }
    } else {
        let i0 = w[0];
        let wrest = w.drop_first();
        let sf = m.spec_step_frontier(fv, i0);
        lemma_run_frontier_cons::<U>(m, fv, w);
        lemma_accepts_iff_has_run::<U>(m, sf, wrest);
        if m.spec_frontier_accepts(m.spec_run_frontier(fv, w)) {
            assert(m.spec_frontier_accepts(m.spec_run_frontier(sf, wrest)));
            assert(exists|kp: int|
                0 <= kp < sf.len() && #[trigger] m.spec_has_run(sf[kp].0, sf[kp].1, wrest));
            let kp = choose|kp: int|
                0 <= kp < sf.len() && #[trigger] m.spec_has_run(sf[kp].0, sf[kp].1, wrest);
            let c = sf[kp];
            assert(sf.contains(c));
            lemma_step_frontier_membership::<U>(m, fv, i0, c);
            let k = choose|k: int|
                0 <= k < fv.len() && #[trigger] m.spec_step_state(fv[k].0, fv[k].1, i0).contains(
                    c,
                );
            lemma_step_trans_membership::<U>(
                m.spec_transitions(fv[k].0),
                fv[k].1,
                i0,
                c,
            );
            let t = choose|t: Transition<U>|
                #![auto]
                m.spec_transitions(fv[k].0).contains(t) && t.update.enable_spec(fv[k].1, i0) && c
                    == (t.to_location@, t.update.update_spec(fv[k].1, i0));
            assert(m.spec_has_run(t.to_location@, t.update.update_spec(fv[k].1, i0), wrest));
            assert(m.spec_has_run(fv[k].0, fv[k].1, w));
        }
        if exists|k: int| 0 <= k < fv.len() && #[trigger] m.spec_has_run(fv[k].0, fv[k].1, w) {
            let k = choose|k: int|
                0 <= k < fv.len() && #[trigger] m.spec_has_run(fv[k].0, fv[k].1, w);
            let t = choose|t: Transition<U>|
                #![auto]
                m.spec_transitions(fv[k].0).contains(t) && t.update.enable_spec(fv[k].1, i0)
                    && m.spec_has_run(t.to_location@, t.update.update_spec(fv[k].1, i0), wrest);
            let c = (t.to_location@, t.update.update_spec(fv[k].1, i0));
            lemma_step_trans_membership::<U>(
                m.spec_transitions(fv[k].0),
                fv[k].1,
                i0,
                c,
            );
            assert(m.spec_step_state(fv[k].0, fv[k].1, i0).contains(c));
            lemma_step_frontier_membership::<U>(m, fv, i0, c);
            let kp = choose|kp: int| 0 <= kp < sf.len() && sf[kp] == c;
            assert(m.spec_has_run(sf[kp].0, sf[kp].1, wrest));
        }
    }
}

/// `exec` returns true exactly when some sequence of enabled transitions
/// consumes the word and ends at an accepting location.
pub proof fn lemma_exec_iff_has_run<U: Update>(
    m: Machine<U>,
    loc: Seq<char>,
    d: u32,
    w: Seq<U::I>,
)
    ensures
        m.spec_exec(loc, d, w) <==> m.spec_has_run(loc, d, w),
{
    let fv = seq![(loc, d)];
    lemma_accepts_iff_has_run::<U>(m, fv, w);
    assert(fv[0] == (loc, d));
    if m.spec_has_run(loc, d, w) {
        assert(m.spec_has_run(fv[0].0, fv[0].1, w));
    }
}

/// On the empty input word, the machine accepts exactly when the initial
/// location is accepting.
pub proof fn lemma_exec_empty_word<U: Update>(m: Machine<U>, loc: Seq<char>, d: u32)
    ensures
        m.spec_exec(loc, d, Seq::<U::I>::empty()) == m.spec_accepting(loc),
{
    let fv = seq![(loc, d)];
    assert(m.spec_run_frontier(fv, Seq::<U::I>::empty()) == fv);
    assert(fv[0] == (loc, d));
    if m.spec_accepting(loc) {
        assert(m.spec_frontier_accepts(fv));
    }
}

/// Determinism: the final frontier is a function of the machine, the
/// initial frontier, and the input word alone.
pub proof fn lemma_run_deterministic<U: Update>(
    m1: Machine<U>,
    m2: Machine<U>,
    fv1: Seq<(Seq<char>, u32)>,
    fv2: Seq<(Seq<char>, u32)>,
    w1: Seq<U::I>,
    w2: Seq<U::I>,
)
    requires
        m1 == m2,
        fv1 == fv2,
        w1 == w2,
    ensures
        m1.spec_run_frontier(fv1, w1) == m2.spec_run_frontier(fv2, w2),
{
}

/// `m2` extends `m1`: every location keeps its transitions (in order,
/// possibly with more appended after them) and its accepting status.
pub open spec fn extends<U: Update>(m1: Machine<U>, m2: Machine<U>) -> bool {
    &&& forall|l: Seq<char>|
        #[trigger] m1.spec_transitions(l).len() <= m2.spec_transitions(l).len()
    &&& forall|l: Seq<char>, k: int|
        0 <= k < m1.spec_transitions(l).len() ==> #[trigger] m2.spec_transitions(l)[k]
            == m1.spec_transitions(l)[k]
    &&& forall|l: Seq<char>| #[trigger] m1.spec_accepting(l) == m2.spec_accepting(l)
}

/// Appending one transition at one location, keeping the accepting set,
/// yields an extension — the shape [`MachineBuilder::with_transition`]
/// produces.
pub proof fn lemma_appended_transition_extends<U: Update>(
    m1: Machine<U>,
    m2: Machine<U>,
    from: Seq<char>,
    t: Transition<U>,
)
    requires
        m2.spec_transitions(from) == m1.spec_transitions(from).push(t),
        forall|l: Seq<char>|
            l != from ==> #[trigger] m2.spec_transitions(l) == m1.spec_transitions(l),
        forall|l: Seq<char>| #[trigger] m1.spec_accepting(l) == m2.spec_accepting(l),
    ensures
        extends(m1, m2),
{
    assert forall|l: Seq<char>| #[trigger] m1.spec_transitions(l).len()
        <= m2.spec_transitions(l).len() by {
        if l == from {
            assert(m2.spec_transitions(l).len() == m1.spec_transitions(l).len() + 1);
        }
    }
    assert forall|l: Seq<char>, k: int| 0 <= k < m1.spec_transitions(l).len() implies #[trigger]
    m2.spec_transitions(l)[k] == m1.spec_transitions(l)[k] by {
        if l == from {
            assert(m2.spec_transitions(l)[k] == m1.spec_transitions(l).push(t)[k]);
        }
    }
}

/// Adding transitions never removes an accepting run: a run of the smaller
/// machine is a run of the extended machine.
pub proof fn lemma_extension_keeps_runs<U: Update>(
    m1: Machine<U>,
    m2: Machine<U>,
    loc: Seq<char>,
    d: u32,
    w: Seq<U::I>,
)
    requires
        extends(m1, m2),
        m1.spec_has_run(loc, d, w),
    ensures
        m2.spec_has_run(loc, d, w),
    decreases w.len(),
{
    if w.len() == 0 {
    } else {
        let t = choose|t: Transition<U>|
            #![auto]
            m1.spec_transitions(loc).contains(t) && t.update.enable_spec(d, w[0])
                && m1.spec_has_run(t.to_location@, t.update.update_spec(d, w[0]), w.drop_first());
        lemma_extension_keeps_runs::<U>(
            m1,
            m2,
            t.to_location@,
            t.update.update_spec(d, w[0]),
            w.drop_first(),
        );
        let k = choose|k: int|
            0 <= k < m1.spec_transitions(loc).len() && m1.spec_transitions(loc)[k] == t;
        assert(m2.spec_transitions(loc)[k] == t);
        assert(m2.spec_transitions(loc).contains(t));
        assert(m2.spec_has_run(loc, d, w));
    }
}

/// Guards and bounds agree: a transition enabled on a concrete register
/// value has that value inside its declared bound.  User obligation, part
/// of the machine's specification; hypothesis of the verdict laws.
pub open spec fn guards_within_bounds<U: Update>(m: Machine<U>) -> bool {
    forall|l: Seq<char>, t: Transition<U>, d: u32, i: U::I|
        #![trigger m.spec_transitions(l).contains(t), t.update.enable_spec(d, i)]
        m.spec_transitions(l).contains(t) && t.update.enable_spec(d, i)
            ==> t.bound.spec_contains(d)
}

/// In a deterministic and total machine, every enabled transition from a
/// configuration leads to the one child the step computes.
pub proof fn lemma_unique_child<U: Update>(m: Machine<U>, l: Seq<char>, d: u32, i: U::I)
    requires
        m.deterministic(),
        m.total(),
        map_has(m.locations@, l),
    ensures
        m.spec_step_state(l, d, i).len() == 1,
        map_has(m.locations@, m.spec_step_state(l, d, i)[0].0),
        forall|t: Transition<U>|
            #![auto]
            m.spec_transitions(l).contains(t) && t.update.enable_spec(d, i) ==> (
            t.to_location@,
            t.update.update_spec(d, i),
        ) == m.spec_step_state(l, d, i)[0],
        exists|t: Transition<U>|
            #![auto]
            m.spec_transitions(l).contains(t) && t.update.enable_spec(d, i) && (
            t.to_location@,
            t.update.update_spec(d, i),
        ) == m.spec_step_state(l, d, i)[0],
{
    let sf = m.spec_step_state(l, d, i);
    assert(sf.len() == 1);
    let c = sf[0];
    assert(sf.contains(c));
    lemma_step_trans_membership::<U>(m.spec_transitions(l), d, i, c);
    let t0 = choose|t: Transition<U>|
        #![auto]
        m.spec_transitions(l).contains(t) && t.update.enable_spec(d, i) && c == (
            t.to_location@,
            t.update.update_spec(d, i),
        );
    assert(map_has(m.locations@, t0.to_location@));
    assert forall|t: Transition<U>|
        m.spec_transitions(l).contains(t) && t.update.enable_spec(d, i) implies (
        t.to_location@,
        t.update.update_spec(d, i),
    ) == c by {
        let c2 = (t.to_location@, t.update.update_spec(d, i));
        lemma_step_trans_membership::<U>(m.spec_transitions(l), d, i, c2);
        assert(sf.contains(c2));
        let k = choose|k: int| 0 <= k < sf.len() && sf[k] == c2;
        assert(k == 0);
    }
}

/// Reached configurations stay inside the transition table of a total
/// machine.
pub proof fn lemma_reaches_keeps_keys<U: Update>(
    m: Machine<U>,
    l0: Seq<char>,
    d0: u32,
    w: Seq<U::I>,
    l: Seq<char>,
    d: u32,
)
    requires
        m.total(),
        map_has(m.locations@, l0),
        m.spec_reaches(l0, d0, w, l, d),
    ensures
        map_has(m.locations@, l),
    decreases w.len(),
{
    if w.len() == 0 {
    } else {
        let t = choose|t: Transition<U>|
            #![auto]
            m.spec_transitions(l0).contains(t) && t.update.enable_spec(d0, w[0])
                && m.spec_reaches(
                t.to_location@,
                t.update.update_spec(d0, w[0]),
                w.drop_first(),
                l,
                d,
            );
        lemma_reaches_keeps_keys::<U>(
            m,
            t.to_location@,
            t.update.update_spec(d0, w[0]),
            w.drop_first(),
            l,
            d,
        );
    }
}

/// One executor step extends a reached-configuration witness: every member
/// of the next frontier of `(l, d)` on input `i` is reached by the word so
/// far extended with `i`.  This is the per-step induction piece that ties
/// a monitor's advancing state to [`Machine::spec_reaches`].
pub proof fn lemma_reaches_extend<U: Update>(
    m: Machine<U>,
    l0: Seq<char>,
    d0: u32,
    p: Seq<U::I>,
    l: Seq<char>,
    d: u32,
    i: U::I,
    c: (Seq<char>, u32),
)
    requires
        m.spec_reaches(l0, d0, p, l, d),
        m.spec_step_state(l, d, i).contains(c),
    ensures
        m.spec_reaches(l0, d0, p.push(i), c.0, c.1),
    decreases p.len(),
{
    if p.len() == 0 {
        lemma_step_trans_membership::<U>(m.spec_transitions(l), d, i, c);
        let t = choose|t: Transition<U>|
            #![auto]
            m.spec_transitions(l).contains(t) && t.update.enable_spec(d, i) && c == (
                t.to_location@,
                t.update.update_spec(d, i),
            );
        assert(p.push(i)[0] == i);
        assert(p.push(i).drop_first() =~= Seq::<U::I>::empty());
        assert(m.spec_reaches(c.0, c.1, p.push(i).drop_first(), c.0, c.1));
        assert(m.spec_reaches(l0, d0, p.push(i), c.0, c.1));
    } else {
        let t = choose|t: Transition<U>|
            #![auto]
            m.spec_transitions(l0).contains(t) && t.update.enable_spec(d0, p[0])
                && m.spec_reaches(
                t.to_location@,
                t.update.update_spec(d0, p[0]),
                p.drop_first(),
                l,
                d,
            );
        lemma_reaches_extend::<U>(
            m,
            t.to_location@,
            t.update.update_spec(d0, p[0]),
            p.drop_first(),
            l,
            d,
            i,
            c,
        );
        assert(p.push(i)[0] == p[0]);
        assert(p.push(i).drop_first() =~= p.drop_first().push(i));
        assert(m.spec_reaches(l0, d0, p.push(i), c.0, c.1));
    }
}

/// Machines with the same transition relation reach the same
/// configurations.
pub proof fn lemma_reaches_same_transitions<U: Update>(
    m: Machine<U>,
    mc: Machine<U>,
    l: Seq<char>,
    d: u32,
    w: Seq<U::I>,
    l2: Seq<char>,
    d2: u32,
)
    requires
        forall|l3: Seq<char>| #[trigger] mc.spec_transitions(l3) == m.spec_transitions(l3),
        m.spec_reaches(l, d, w, l2, d2),
    ensures
        mc.spec_reaches(l, d, w, l2, d2),
    decreases w.len(),
{
    if w.len() == 0 {
    } else {
        let t = choose|t: Transition<U>|
            #![auto]
            m.spec_transitions(l).contains(t) && t.update.enable_spec(d, w[0]) && m.spec_reaches(
                t.to_location@,
                t.update.update_spec(d, w[0]),
                w.drop_first(),
                l2,
                d2,
            );
        lemma_reaches_same_transitions::<U>(
            m,
            mc,
            t.to_location@,
            t.update.update_spec(d, w[0]),
            w.drop_first(),
            l2,
            d2,
        );
        assert(mc.spec_transitions(l).contains(t));
    }
}

/// A run from a reached configuration extends to a run over the whole
/// word.
pub proof fn lemma_reaches_then_run<U: Update>(
    m: Machine<U>,
    l: Seq<char>,
    d: u32,
    w: Seq<U::I>,
    l2: Seq<char>,
    d2: u32,
    e: Seq<U::I>,
)
    requires
        m.spec_reaches(l, d, w, l2, d2),
        m.spec_has_run(l2, d2, e),
    ensures
        m.spec_has_run(l, d, w + e),
    decreases w.len(),
{
    if w.len() == 0 {
        assert(w + e =~= e);
    } else {
        let t = choose|t: Transition<U>|
            #![auto]
            m.spec_transitions(l).contains(t) && t.update.enable_spec(d, w[0]) && m.spec_reaches(
                t.to_location@,
                t.update.update_spec(d, w[0]),
                w.drop_first(),
                l2,
                d2,
            );
        lemma_reaches_then_run::<U>(
            m,
            t.to_location@,
            t.update.update_spec(d, w[0]),
            w.drop_first(),
            l2,
            d2,
            e,
        );
        assert((w + e)[0] == w[0]);
        assert((w + e).drop_first() =~= w.drop_first() + e);
        assert(m.spec_has_run(l, d, w + e));
    }
}

/// In a deterministic machine, a run over a word factors through the
/// configuration actually reached by its prefix.
pub proof fn lemma_det_run_split<U: Update>(
    m: Machine<U>,
    l: Seq<char>,
    d: u32,
    w: Seq<U::I>,
    l2: Seq<char>,
    d2: u32,
    e: Seq<U::I>,
)
    requires
        m.deterministic(),
        m.spec_reaches(l, d, w, l2, d2),
        m.spec_has_run(l, d, w + e),
    ensures
        m.spec_has_run(l2, d2, e),
    decreases w.len(),
{
    if w.len() == 0 {
        assert(w + e =~= e);
    } else {
        assert((w + e)[0] == w[0]);
        assert((w + e).len() > 0);
        let tq = choose|t: Transition<U>|
            #![auto]
            m.spec_transitions(l).contains(t) && t.update.enable_spec(d, w[0]) && m.spec_reaches(
                t.to_location@,
                t.update.update_spec(d, w[0]),
                w.drop_first(),
                l2,
                d2,
            );
        let tr = choose|t: Transition<U>|
            #![auto]
            m.spec_transitions(l).contains(t) && t.update.enable_spec(d, (w + e)[0])
                && m.spec_has_run(
                t.to_location@,
                t.update.update_spec(d, (w + e)[0]),
                (w + e).drop_first(),
            );
        let cq = (tq.to_location@, tq.update.update_spec(d, w[0]));
        let cr = (tr.to_location@, tr.update.update_spec(d, w[0]));
        lemma_step_trans_membership::<U>(m.spec_transitions(l), d, w[0], cq);
        lemma_step_trans_membership::<U>(m.spec_transitions(l), d, w[0], cr);
        let sf = m.spec_step_state(l, d, w[0]);
        assert(sf.contains(cq));
        assert(sf.contains(cr));
        let kq = choose|k: int| 0 <= k < sf.len() && sf[k] == cq;
        let kr = choose|k: int| 0 <= k < sf.len() && sf[k] == cr;
        assert(sf.len() <= 1);
        assert(kq == 0 && kr == 0);
        assert(cq == cr);
        assert((w + e).drop_first() =~= w.drop_first() + e);
        lemma_det_run_split::<U>(
            m,
            cq.0,
            cq.1,
            w.drop_first(),
            l2,
            d2,
            e,
        );
    }
}

/// The complement machine accepts exactly the words the original rejects,
/// provided the original is deterministic and total and the start is in
/// its transition table.
pub proof fn lemma_complement_has_run<U: Update>(
    m: Machine<U>,
    mc: Machine<U>,
    l: Seq<char>,
    d: u32,
    w: Seq<U::I>,
)
    requires
        forall|l2: Seq<char>| #[trigger] mc.spec_transitions(l2) == m.spec_transitions(l2),
        forall|l2: Seq<char>|
            #[trigger] mc.spec_accepting(l2) <==> (m.spec_mentioned(l2) && !m.spec_accepting(
                l2,
            )),
        m.deterministic(),
        m.total(),
        map_has(m.locations@, l),
    ensures
        mc.spec_has_run(l, d, w) == !m.spec_has_run(l, d, w),
    decreases w.len(),
{
    if w.len() == 0 {
        assert(m.spec_mentioned(l));
    } else {
        lemma_unique_child::<U>(m, l, d, w[0]);
        let c = m.spec_step_state(l, d, w[0])[0];
        lemma_complement_has_run::<U>(m, mc, c.0, c.1, w.drop_first());
        // `m` has a run on `w` exactly when the unique child has one on the
        // rest of the word, and the same holds for `mc`, whose transitions
        // are the same.
        let t0 = choose|t: Transition<U>|
            #![auto]
            m.spec_transitions(l).contains(t) && t.update.enable_spec(d, w[0]) && (
                t.to_location@,
                t.update.update_spec(d, w[0]),
            ) == c;
        if m.spec_has_run(c.0, c.1, w.drop_first()) {
            assert(m.spec_has_run(l, d, w));
        }
        if m.spec_has_run(l, d, w) {
            let t = choose|t: Transition<U>|
                #![auto]
                m.spec_transitions(l).contains(t) && t.update.enable_spec(d, w[0])
                    && m.spec_has_run(
                    t.to_location@,
                    t.update.update_spec(d, w[0]),
                    w.drop_first(),
                );
            assert((t.to_location@, t.update.update_spec(d, w[0])) == c);
            assert(m.spec_has_run(c.0, c.1, w.drop_first()));
        }
        if mc.spec_has_run(c.0, c.1, w.drop_first()) {
            assert(mc.spec_transitions(l).contains(t0));
            assert(mc.spec_has_run(l, d, w));
        }
        if mc.spec_has_run(l, d, w) {
            let t = choose|t: Transition<U>|
                #![auto]
                mc.spec_transitions(l).contains(t) && t.update.enable_spec(d, w[0])
                    && mc.spec_has_run(
                    t.to_location@,
                    t.update.update_spec(d, w[0]),
                    w.drop_first(),
                );
            assert(m.spec_transitions(l).contains(t));
            assert((t.to_location@, t.update.update_spec(d, w[0])) == c);
            assert(mc.spec_has_run(c.0, c.1, w.drop_first()));
        }
    }
}

/// Monotonicity of fan-out at the acceptance level: whatever the smaller
/// machine accepts, the extended machine accepts.
pub proof fn lemma_fanout_monotone<U: Update>(
    m1: Machine<U>,
    m2: Machine<U>,
    loc: Seq<char>,
    d: u32,
    w: Seq<U::I>,
)
    requires
        extends(m1, m2),
        m1.spec_exec(loc, d, w),
    ensures
        m2.spec_exec(loc, d, w),
{
    lemma_exec_iff_has_run::<U>(m1, loc, d, w);
    lemma_extension_keeps_runs::<U>(m1, m2, loc, d, w);
    lemma_exec_iff_has_run::<U>(m2, loc, d, w);
}

} // verus!
