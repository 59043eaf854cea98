//! Putting a driver together.

use crate::driver::Driver;
use crate::emitter::{EmitterState, Held, OpImpl, OpMeta, Operation, RuleOp, Setup};
use crate::refs::{OpRef, SetupRef, StateRef};
use crate::state::State;
use crate::tables::{OpTable, SetupTable, StateTable};
use vstd::prelude::*;
use vstd::utf8::encode_utf8;

verus! {

/// Collects the setups, states and operations of a driver.
pub struct DriverBuilder {
    setups: SetupTable,
    states: StateTable,
    ops: OpTable,
}

impl DriverBuilder {
    /// The setups added so far, each at the index of its reference.
    pub closed spec fn setups(self) -> Seq<Held<Box<dyn Setup>>> {
        self.setups@
    }

    /// The states added so far, each at the index of its reference.
    pub closed spec fn states(self) -> Seq<State> {
        self.states@
    }

    /// The operations added so far, each at the index of its reference.
    pub closed spec fn ops(self) -> Seq<Operation> {
        self.ops@
    }

    /// What has been added is within what references can count, and so are the states
    /// that operations lead to.
    pub open spec fn wf(self) -> bool {
        &&& self.setups().len() <= u32::MAX
        &&& self.states().len() <= u32::MAX
        &&& self.ops().len() <= u32::MAX
        &&& forall|i: int|
            0 <= i < self.ops().len() ==> (#[trigger] self.ops()[i]).meta.output.valid()
    }

    /// Whether all that has been added here is still there later, under the same
    /// references.
    pub open spec fn kept_by(self, later: Self) -> bool {
        &&& self.setups().is_prefix_of(later.setups())
        &&& self.states().is_prefix_of(later.states())
        &&& self.ops().is_prefix_of(later.ops())
    }

    /// What is kept by a builder is kept by all that keep that one.
    pub proof fn law_kept(self, later: Self, last: Self)
        requires
            self.kept_by(later),
            later.kept_by(last),
        ensures
            self.kept_by(last),
    {
        assert(last.setups().take(self.setups().len() as int) =~= self.setups());
        assert(last.states().take(self.states().len() as int) =~= self.states());
        assert(last.ops().take(self.ops().len() as int) =~= self.ops());
    }

    /// Whether `after` is this builder with one state more, of the given name and
    /// extensions.
    pub open spec fn grown_by_state(
        self,
        after: Self,
        name: Seq<char>,
        extensions: Seq<&str>,
    ) -> bool {
        let state = after.states().last();
        &&& after.setups() == self.setups()
        &&& after.states() == self.states().push(state)
        &&& after.ops() == self.ops()
        &&& state.name@ == name
        &&& state.extensions@.len() == extensions.len()
        &&& forall|i: int|
            0 <= i < extensions.len() ==> (#[trigger] state.extensions@[i])@ == extensions[i]@
    }

    /// Whether `after` is this builder with one operation more, of the given metadata.
    pub open spec fn grown_by_op(
        self,
        after: Self,
        name: Seq<char>,
        setup: Option<SetupRef>,
        input: StateRef,
        output: StateRef,
    ) -> bool {
        let op = after.ops().last();
        &&& after.setups() == self.setups()
        &&& after.states() == self.states()
        &&& after.ops() == self.ops().push(op)
        &&& op.meta.name@ == name
        &&& op.meta.setup == setup
        &&& op.meta.input == input
        &&& op.meta.output == output
    }
}

impl Default for DriverBuilder {
    fn default() -> (builder: Self)
        ensures
            builder.wf(),
            builder.setups().len() == 0,
            builder.states().len() == 0,
            builder.ops().len() == 0,
    {
        DriverBuilder { setups: SetupTable::new(), states: StateTable::new(), ops: OpTable::new() }
    }
}

impl DriverBuilder {
    /// Add a state, with the extensions of its files.
    pub fn state(&mut self, name: &str, extensions: &[&str]) -> (state: StateRef)
        requires
            old(self).wf(),
            old(self).states().len() < u32::MAX,
        ensures
            final(self).wf(),
            old(self).kept_by(*final(self)),
            old(self).grown_by_state(*final(self), name@, extensions@),
            state.0 == old(self).states().len(),
            state.valid(),
    {
        let mut list: Vec<String> = Vec::new();
        for i in 0..extensions.len()
            invariant
                list@.len() == i,
                forall|k: int| 0 <= k < i ==> (#[trigger] list@[k])@ == extensions@[k]@,
        {
            list.push(extensions[i].to_string());
        }
        self.states.push(State { name: name.to_string(), extensions: list })
    }

    /// Add an operation.
    fn add_op(
        &mut self,
        name: &str,
        setup: Option<SetupRef>,
        input: StateRef,
        output: StateRef,
        impl_: Held<Box<dyn OpImpl>>,
    ) -> (op: OpRef)
        requires
            old(self).wf(),
            old(self).ops().len() < u32::MAX,
            output.valid(),
        ensures
            final(self).wf(),
            old(self).kept_by(*final(self)),
            old(self).grown_by_op(*final(self), name@, setup, input, output),
            final(self).ops().last().impl_ == impl_,
            op.0 == old(self).ops().len(),
    {
        let meta = OpMeta { name: name.to_string(), setup, input, output };
        self.ops.push(Operation { meta, impl_ })
    }

    /// Add a setup.
    pub fn add_setup(&mut self, setup: Box<dyn Setup>) -> (r: SetupRef)
        requires
            old(self).wf(),
            old(self).setups().len() < u32::MAX,
        ensures
            final(self).wf(),
            old(self).kept_by(*final(self)),
            final(self).setups() == old(self).setups().push(final(self).setups().last()),
            final(self).setups().last().inner == setup,
            final(self).states() == old(self).states(),
            final(self).ops() == old(self).ops(),
            r.0 == old(self).setups().len(),
    {
        let held = Held { inner: setup };
        self.setups.push(held)
    }

    /// Add a setup that a function makes.
    pub fn setup(&mut self, func: Box<dyn Setup>) -> (r: SetupRef)
        requires
            old(self).wf(),
            old(self).setups().len() < u32::MAX,
        ensures
            final(self).wf(),
            old(self).kept_by(*final(self)),
            final(self).setups() == old(self).setups().push(final(self).setups().last()),
            final(self).setups().last().inner == func,
            final(self).states() == old(self).states(),
            final(self).ops() == old(self).ops(),
            r.0 == old(self).setups().len(),
    {
        let held = Held { inner: func };
        self.setups.push(held)
    }

    /// Add an operation with its own way to build.
    pub fn op(
        &mut self,
        name: &str,
        setup: Option<SetupRef>,
        input: StateRef,
        output: StateRef,
        build: Box<dyn OpImpl>,
    ) -> (op: OpRef)
        requires
            old(self).wf(),
            old(self).ops().len() < u32::MAX,
            output.valid(),
        ensures
            final(self).wf(),
            old(self).kept_by(*final(self)),
            old(self).grown_by_op(*final(self), name@, setup, input, output),
            final(self).ops().last().impl_.inner == build,
            op.0 == old(self).ops().len(),
    {
        let held = Held { inner: build };
        self.add_op(name, setup, input, output, held)
    }

    /// Add an operation that applies a Ninja rule.
    pub fn rule(
        &mut self,
        setup: Option<SetupRef>,
        input: StateRef,
        output: StateRef,
        rule_name: &str,
    ) -> (op: OpRef)
        requires
            old(self).wf(),
            old(self).ops().len() < u32::MAX,
            output.valid(),
        ensures
            final(self).wf(),
            old(self).kept_by(*final(self)),
            old(self).grown_by_op(*final(self), rule_name@, setup, input, output),
            final(self).ops().last().applies_rule(rule_name@),
            op.0 == old(self).ops().len(),
    {
        let build: Box<dyn OpImpl> = Box::new(RuleOp { rule_name: rule_name.to_string() });
        let held = Held { inner: build };
        self.add_op(rule_name, setup, input, output, held)
    }

    /// The driver that was put together.
    pub fn build(self) -> (driver: Driver)
        requires
            self.wf(),
        ensures
            driver.wf(),
            driver.setups@ == self.setups(),
            driver.states@ == self.states(),
            driver.ops@ == self.ops(),
    {
        Driver { setups: self.setups, states: self.states, ops: self.ops }
    }
}

impl DriverBuilder {
    /// A builder to which nothing was added builds an empty driver.
    pub proof fn law_empty(builder: DriverBuilder, driver: Driver)
        requires
            call_ensures(DriverBuilder::default, (), builder),
            call_ensures(DriverBuilder::build, (builder,), driver),
        ensures
            driver.setups@.len() == 0,
            driver.states@.len() == 0,
            driver.ops@.len() == 0,
    {
    }

    /// A state that is added stands behind the states added before, under the reference
    /// that is given back, with its name and its extensions as they were given, in the same
    /// order. Nothing else in the driver changes.
    pub proof fn law_state_added(
        builder: &mut DriverBuilder,
        name: &str,
        extensions: &[&str],
        state: StateRef,
        before: Driver,
        after: Driver,
    )
        requires
            call_ensures(DriverBuilder::state, (builder, name, extensions), state),
            call_ensures(DriverBuilder::build, (*old(builder),), before),
            call_ensures(DriverBuilder::build, (*final(builder),), after),
        ensures
            state.0 == before.states@.len(),
            after.states@.len() == before.states@.len() + 1,
            forall|k: int|
                0 <= k < before.states@.len() ==> #[trigger] after.states@[k]
                    == before.states@[k],
            after.states@[state.0 as int].name@ == name@,
            after.states@[state.0 as int].extensions@.len() == extensions@.len(),
            forall|i: int|
                0 <= i < extensions@.len() ==> (
                #[trigger] after.states@[state.0 as int].extensions@[i])@ == extensions@[i]@,
            after.setups@ == before.setups@,
            after.ops@ == before.ops@,
    {
        assert(after.states@.last() == after.states@[state.0 as int]);
    }

    /// A setup that is added stands behind the setups added before, as it was given, under
    /// the reference that is given back. Nothing else in the driver changes. It makes no
    /// difference by which of the two ways it is added.
    pub proof fn law_setup_added(
        args: (&mut DriverBuilder, Box<dyn Setup>),
        r: SetupRef,
        before: Driver,
        after: Driver,
    )
        requires
            call_ensures(DriverBuilder::add_setup, args, r) || call_ensures(
                DriverBuilder::setup,
                args,
                r,
            ),
            call_ensures(DriverBuilder::build, (*old(args.0),), before),
            call_ensures(DriverBuilder::build, (*final(args.0),), after),
        ensures
            r.0 == before.setups@.len(),
            after.setups@.len() == before.setups@.len() + 1,
            forall|k: int|
                0 <= k < before.setups@.len() ==> #[trigger] after.setups@[k]
                    == before.setups@[k],
            after.setups@[r.0 as int].inner == args.1,
            after.states@ == before.states@,
            after.ops@ == before.ops@,
    {
        assert(after.setups@.last() == after.setups@[r.0 as int]);
    }

    /// An operation that is added stands behind the operations added before, under the
    /// reference that is given back, with all that was given for it. Nothing else in the
    /// driver changes.
    pub proof fn law_op_added(
        args: (&mut DriverBuilder, &str, Option<SetupRef>, StateRef, StateRef, Box<dyn OpImpl>),
        op: OpRef,
        before: Driver,
        after: Driver,
    )
        requires
            call_ensures(DriverBuilder::op, args, op),
            call_ensures(DriverBuilder::build, (*old(args.0),), before),
            call_ensures(DriverBuilder::build, (*final(args.0),), after),
        ensures
            op.0 == before.ops@.len(),
            after.ops@.len() == before.ops@.len() + 1,
            forall|k: int|
                0 <= k < before.ops@.len() ==> #[trigger] after.ops@[k] == before.ops@[k],
            after.ops@[op.0 as int].meta.name@ == args.1@,
            after.ops@[op.0 as int].meta.setup == args.2,
            after.ops@[op.0 as int].meta.input == args.3,
            after.ops@[op.0 as int].meta.output == args.4,
            after.ops@[op.0 as int].impl_.inner == args.5,
            after.setups@ == before.setups@,
            after.states@ == before.states@,
    {
        assert(after.ops@.last() == after.ops@[op.0 as int]);
    }

    /// A rule that is added is an operation of the rule's name, which stands behind the
    /// operations added before, under the reference that is given back. For any files it
    /// writes one line and succeeds: `build `, the output file, `: `, the rule, a space, the
    /// input file. Nothing else in the driver changes.
    pub proof fn law_rule_added(
        builder: &mut DriverBuilder,
        setup: Option<SetupRef>,
        input: StateRef,
        output: StateRef,
        rule_name: &str,
        op: OpRef,
        before: Driver,
        after: Driver,
        input_file: Seq<u8>,
        output_file: Seq<u8>,
        start: EmitterState,
        end: EmitterState,
        result: std::io::Result<()>,
    )
        requires
            call_ensures(DriverBuilder::rule, (builder, setup, input, output, rule_name), op),
            call_ensures(DriverBuilder::build, (*old(builder),), before),
            call_ensures(DriverBuilder::build, (*final(builder),), after),
        ensures
            op.0 == before.ops@.len(),
            after.ops@.len() == before.ops@.len() + 1,
            forall|k: int|
                0 <= k < before.ops@.len() ==> #[trigger] after.ops@[k] == before.ops@[k],
            after.ops@[op.0 as int].meta.name@ == rule_name@,
            after.ops@[op.0 as int].meta.setup == setup,
            after.ops@[op.0 as int].meta.input == input,
            after.ops@[op.0 as int].meta.output == output,
            after.ops@[op.0 as int].impl_.inner.emits(input_file, output_file, start, end, result)
                <==> {
                &&& result is Ok
                &&& end.config == start.config
                &&& end.out == start.out + (seq![0x62u8, 0x75, 0x69, 0x6c, 0x64, 0x20]
                    + output_file + seq![0x3au8, 0x20] + encode_utf8(rule_name@) + seq![0x20u8]
                    + input_file + seq![0x0au8])
            },
            after.setups@ == before.setups@,
            after.states@ == before.states@,
    {
        let added = after.ops@[op.0 as int];
        assert(after.ops@.last() == added);
        added.law_applied_rule(rule_name@, input_file, output_file, start, end, result);
    }
}

} // verus!
