//! Tables of states, setups and operations, and maps over states.
//!
//! Each holds a map of the `cranelift_entity` crate. Its functions make one call
//! into that crate each; what they claim of the call is stated over the contents of
//! the map.

use crate::emitter::{Held, Operation, Setup};
use crate::refs::{OpRef, SetupRef, StateRef};
use crate::state::State;
use cranelift_entity::{PrimaryMap, SecondaryMap};
use vstd::prelude::*;

verus! {

/// The states of a driver.
#[verifier::external_body]
pub struct StateTable {
    map: PrimaryMap<StateRef, State>,
}

/// The states that a table holds, each at its index.
pub uninterp spec fn states_of(table: StateTable) -> Seq<State>;

impl View for StateTable {
    type V = Seq<State>;

    open spec fn view(&self) -> Seq<State> {
        states_of(*self)
    }
}

impl StateTable {
    /// Calls `PrimaryMap::new`, which makes an empty map.
    #[verifier::external_body]
    pub(crate) fn new() -> (table: Self)
        ensures
            states_of(table) == Seq::<State>::empty(),
    {
        StateTable { map: PrimaryMap::new() }
    }

    /// Calls `PrimaryMap::push`, which appends the value and returns a key with its
    /// index.
    #[verifier::external_body]
    pub(crate) fn push(&mut self, state: State) -> (key: StateRef)
        requires
            states_of(*old(self)).len() < u32::MAX,
        ensures
            states_of(*final(self)) == states_of(*old(self)).push(state),
            key.0 == states_of(*old(self)).len(),
    {
        self.map.push(state)
    }

    /// Calls `PrimaryMap::len`, which counts the values.
    #[verifier::external_body]
    pub(crate) fn len(&self) -> (len: usize)
        ensures
            len == states_of(*self).len(),
    {
        self.map.len()
    }

    /// Indexes the `PrimaryMap`, which gives the value at the key's index.
    #[verifier::external_body]
    pub(crate) fn at(&self, key: StateRef) -> (state: &State)
        requires
            key.0 < states_of(*self).len(),
        ensures
            *state == states_of(*self)[key.0 as int],
    {
        &self.map[key]
    }
}

/// The setups of a driver.
#[verifier::external_body]
pub struct SetupTable {
    map: PrimaryMap<SetupRef, Held<Box<dyn Setup>>>,
}

/// The setups that a table holds, each at its index.
pub uninterp spec fn setups_of(table: SetupTable) -> Seq<Held<Box<dyn Setup>>>;

impl View for SetupTable {
    type V = Seq<Held<Box<dyn Setup>>>;

    open spec fn view(&self) -> Seq<Held<Box<dyn Setup>>> {
        setups_of(*self)
    }
}

impl SetupTable {
    /// Calls `PrimaryMap::new`, which makes an empty map.
    #[verifier::external_body]
    pub(crate) fn new() -> (table: Self)
        ensures
            setups_of(table) == Seq::<Held<Box<dyn Setup>>>::empty(),
    {
        SetupTable { map: PrimaryMap::new() }
    }

    /// Calls `PrimaryMap::push`, which appends the value and returns a key with its
    /// index.
    #[verifier::external_body]
    pub(crate) fn push(&mut self, setup: Held<Box<dyn Setup>>) -> (key: SetupRef)
        requires
            setups_of(*old(self)).len() < u32::MAX,
        ensures
            setups_of(*final(self)) == setups_of(*old(self)).push(setup),
            key.0 == setups_of(*old(self)).len(),
    {
        self.map.push(setup)
    }

    /// Calls `PrimaryMap::len`, which counts the values.
    #[verifier::external_body]
    pub(crate) fn len(&self) -> (len: usize)
        ensures
            len == setups_of(*self).len(),
    {
        self.map.len()
    }

    /// Indexes the `PrimaryMap`, which gives the value at the key's index.
    #[verifier::external_body]
    pub(crate) fn at(&self, key: SetupRef) -> (setup: &Held<Box<dyn Setup>>)
        requires
            key.0 < setups_of(*self).len(),
        ensures
            *setup == setups_of(*self)[key.0 as int],
    {
        &self.map[key]
    }
}

/// The operations of a driver.
#[verifier::external_body]
pub struct OpTable {
    map: PrimaryMap<OpRef, Operation>,
}

/// The operations that a table holds, each at its index.
pub uninterp spec fn ops_of(table: OpTable) -> Seq<Operation>;

impl View for OpTable {
    type V = Seq<Operation>;

    open spec fn view(&self) -> Seq<Operation> {
        ops_of(*self)
    }
}

impl OpTable {
    /// Calls `PrimaryMap::new`, which makes an empty map.
    #[verifier::external_body]
    pub(crate) fn new() -> (table: Self)
        ensures
            ops_of(table) == Seq::<Operation>::empty(),
    {
        OpTable { map: PrimaryMap::new() }
    }

    /// Calls `PrimaryMap::push`, which appends the value and returns a key with its
    /// index.
    #[verifier::external_body]
    pub(crate) fn push(&mut self, op: Operation) -> (key: OpRef)
        requires
            ops_of(*old(self)).len() < u32::MAX,
        ensures
            ops_of(*final(self)) == ops_of(*old(self)).push(op),
            key.0 == ops_of(*old(self)).len(),
    {
        self.map.push(op)
    }

    /// Calls `PrimaryMap::len`, which counts the values.
    #[verifier::external_body]
    pub(crate) fn len(&self) -> (len: usize)
        ensures
            len == ops_of(*self).len(),
    {
        self.map.len()
    }

    /// Indexes the `PrimaryMap`, which gives the value at the key's index.
    #[verifier::external_body]
    pub(crate) fn at(&self, key: OpRef) -> (op: &Operation)
        requires
            key.0 < ops_of(*self).len(),
        ensures
            *op == ops_of(*self)[key.0 as int],
    {
        &self.map[key]
    }
}

/// A set of states.
#[verifier::external_body]
pub struct StateMarks {
    map: SecondaryMap<StateRef, bool>,
}

/// The states that are marked.
pub uninterp spec fn marked(marks: StateMarks) -> Set<StateRef>;

impl StateMarks {
    /// Calls `SecondaryMap::new`: every key has the default, `false`.
    #[verifier::external_body]
    pub(crate) fn new() -> (marks: Self)
        ensures
            marked(marks) == Set::<StateRef>::empty(),
    {
        StateMarks { map: SecondaryMap::new() }
    }

    /// Indexes the `SecondaryMap`, which gives the key's value or the default.
    #[verifier::external_body]
    pub(crate) fn get(&self, key: StateRef) -> (mark: bool)
        ensures
            mark == marked(*self).contains(key),
    {
        self.map[key]
    }

    /// Assigns through the index of the `SecondaryMap`, which grows as needed.
    #[verifier::external_body]
    pub(crate) fn set(&mut self, key: StateRef)
        requires
            key.valid(),
        ensures
            marked(*final(self)) == marked(*old(self)).insert(key),
    {
        self.map[key] = true;
    }
}

/// For some states, the operation by which they were reached.
#[verifier::external_body]
pub struct Breadcrumbs {
    map: SecondaryMap<StateRef, Option<OpRef>>,
}

/// The states that have an operation, and which.
pub uninterp spec fn crumbs(breadcrumbs: Breadcrumbs) -> Map<StateRef, OpRef>;

impl Breadcrumbs {
    /// Calls `SecondaryMap::new`: every key has the default, `None`.
    #[verifier::external_body]
    pub(crate) fn new() -> (breadcrumbs: Self)
        ensures
            crumbs(breadcrumbs).dom() == Set::<StateRef>::empty(),
    {
        Breadcrumbs { map: SecondaryMap::new() }
    }

    /// Indexes the `SecondaryMap`, which gives the key's value or the default.
    #[verifier::external_body]
    pub(crate) fn get(&self, key: StateRef) -> (op: Option<OpRef>)
        ensures
            op is Some <==> crumbs(*self).contains_key(key),
            op matches Some(o) ==> o == crumbs(*self)[key],
    {
        self.map[key]
    }

    /// Assigns through the index of the `SecondaryMap`, which grows as needed.
    #[verifier::external_body]
    pub(crate) fn set(&mut self, key: StateRef, op: OpRef)
        requires
            key.valid(),
        ensures
            crumbs(*final(self)) == crumbs(*old(self)).insert(key, op),
    {
        self.map[key] = Some(op);
    }
}

} // verus!
