//! Turning a plan into text: a listing, a picture, or a Ninja file.

use crate::config::Config;
use crate::driver::{Driver, Plan, Request};
use crate::emitter::{build_text, rule_emits, Emitter, EmitterState, Operation};
use crate::graph::law_walk_connects;
use crate::refs::{OpRef, SetupRef, StateRef};
use crate::text::{decimal, lemma_flatten_next, shown};
use std::collections::{HashMap, HashSet};
use vstd::prelude::*;
use vstd::string::StringExecFns;
use vstd::utf8::encode_utf8;

verus! {

broadcast use vstd::std_specs::hash::group_hash_axioms;

/// A plan to be carried out, with its driver and configuration.
pub struct Run<'a> {
    pub driver: &'a Driver,
    pub plan: Plan,
    pub config: Config,
}

impl<'a> Run<'a> {
    /// A run of the plan.
    pub fn new(driver: &'a Driver, plan: Plan, config: Config) -> (run: Self)
        ensures
            run.driver == driver,
            run.plan == plan,
            run.config == config,
    {
        Run { driver, plan, config }
    }

    /// Every step of the plan applies an operation that the driver has.
    pub open spec fn steps_known(self) -> bool {
        forall|i: int|
            0 <= i < self.plan.steps@.len() ==> (#[trigger] self.plan.steps@[i]).0.0
                < self.driver.ops@.len()
    }

    /// The operation of a step.
    pub open spec fn step_op(self, i: int) -> Operation {
        self.driver.ops@[self.plan.steps@[i].0.0 as int]
    }

    /// The line of a step in the listing.
    pub open spec fn step_line(self, i: int) -> Seq<char> {
        self.plan.steps@[i].0.label() + ": "@ + self.step_op(i).meta.name@ + " -> "@ + shown(
            self.plan.steps@[i].1@,
        ) + "\n"@
    }

    /// The lines of the first `n` steps in the listing.
    pub open spec fn step_lines(self, n: int) -> Seq<char>
        decreases n,
    {
        if n <= 0 {
            Seq::empty()
        } else {
            self.step_lines(n - 1) + self.step_line(n - 1)
        }
    }

    /// List the plan for debugging purposes.
    pub fn show(self) -> (text: String)
        requires
            self.steps_known(),
        ensures
            text@ == "start: "@ + shown(self.plan.start@) + "\n"@ + self.step_lines(
                self.plan.steps@.len() as int,
            ),
    {
        let mut text = "start: ".to_string();
        text.append(self.plan.start.display().as_str());
        text.append("\n");
        let ghost head = text@;
        assert(text@ =~= head + self.step_lines(0));
        for i in 0..self.plan.steps.len()
            invariant
                self.steps_known(),
                text@ == head + self.step_lines(i as int),
        {
            let (op, file) = &self.plan.steps[i];
            text.append(op.text().as_str());
            text.append(": ");
            text.append(self.driver.ops.at(*op).meta.name.as_str());
            text.append(" -> ");
            text.append(file.display().as_str());
            text.append("\n");
            assert(text@ =~= head + (self.step_lines(i as int) + self.step_line(i as int)));
        }
        text
    }

    /// The file that the picture shows in a state, going by the first `n` steps: what
    /// the last step that leads to the state makes, or else the input file in the
    /// state that the plan starts from.
    pub open spec fn file_shown(self, state: StateRef, n: int) -> Option<Seq<char>>
        decreases n,
    {
        if n <= 0 {
            if self.step_op(0).meta.input == state {
                Some(shown(self.plan.start@))
            } else {
                None
            }
        } else if self.step_op(n - 1).meta.output == state {
            Some(shown(self.plan.steps@[n - 1].1@))
        } else {
            self.file_shown(state, n - 1)
        }
    }

    /// The line of a state in the picture.
    pub open spec fn state_line(self, i: int) -> Seq<char> {
        let state = StateRef(i as u32);
        let file = self.file_shown(state, self.plan.steps@.len() as int);
        state_text(state, self.driver.states@[i].name@, file)
    }

    /// The lines of the first `n` states in the picture.
    pub open spec fn state_lines(self, n: int) -> Seq<char>
        decreases n,
    {
        if n <= 0 {
            Seq::empty()
        } else {
            self.state_lines(n - 1) + self.state_line(n - 1)
        }
    }

    /// The line of an operation in the picture.
    pub open spec fn op_line(self, i: int) -> Seq<char> {
        let meta = self.driver.ops@[i].meta;
        op_text(meta.input, meta.output, meta.name@, self.plan.ops().contains(OpRef(i as u32)))
    }

    /// The lines of the first `n` operations in the picture.
    pub open spec fn op_lines(self, n: int) -> Seq<char>
        decreases n,
    {
        if n <= 0 {
            Seq::empty()
        } else {
            self.op_lines(n - 1) + self.op_line(n - 1)
        }
    }

    /// Whether a map from states to texts holds the files shown for the first `n` steps.
    spec fn labelled(self, labels: Map<u32, String>, n: int) -> bool {
        forall|s: u32|
            #![trigger labels.contains_key(s)]
            #![trigger self.file_shown(StateRef(s), n)]
            match self.file_shown(StateRef(s), n) {
                Some(file) => labels.contains_key(s) && labels[s]@ == file,
                None => !labels.contains_key(s),
            }
    }

    /// Collect the files to show, by the indices of their states.
    fn shown_files(&self) -> (labels: HashMap<u32, String>)
        requires
            self.steps_known(),
            self.plan.steps@.len() > 0,
        ensures
            self.labelled(labels@, self.plan.steps@.len() as int),
    {
        let mut labels: HashMap<u32, String> = HashMap::new();
        let first_op = self.plan.steps[0].0;
        labels.insert(self.driver.ops.at(first_op).meta.input.0, self.plan.start.display());
        for i in 0..self.plan.steps.len()
            invariant
                self.steps_known(),
                self.labelled(labels@, i as int),
        {
            let (op, file) = &self.plan.steps[i];
            let output = self.driver.ops.at(*op).meta.output;
            let ghost before = labels@;
            labels.insert(output.0, file.display());
            proof {
                assert forall|s: u32|
                    #![trigger labels@.contains_key(s)]
                    #![trigger self.file_shown(StateRef(s), i + 1)]
                    match self.file_shown(StateRef(s), i + 1) {
                        Some(file) => labels@.contains_key(s) && labels@[s]@ == file,
                        None => !labels@.contains_key(s),
                    } by {
                    assert(before.contains_key(s) || !before.contains_key(s));
                    assert(self.step_op(i as int).meta.output == output);
                }
            }
        }
        labels
    }

    /// Collect the indices of the operations that the plan uses.
    fn used_ops(&self) -> (used: HashSet<u32>)
        ensures
            forall|o: u32| #[trigger]
                used@.contains(o) <==> self.plan.ops().contains(OpRef(o)),
    {
        let mut used: HashSet<u32> = HashSet::new();
        for i in 0..self.plan.steps.len()
            invariant
                forall|o: u32| #[trigger]
                    used@.contains(o) <==> self.plan.ops().take(i as int).contains(OpRef(o)),
        {
            let op = self.plan.steps[i].0;
            used.insert(op.0);
            proof {
                let done = self.plan.ops().take(i as int);
                let next = self.plan.ops().take(i + 1);
                assert(next =~= done.push(op));
                assert forall|o: u32| #[trigger]
                    used@.contains(o) <==> next.contains(OpRef(o)) by {
                    if done.contains(OpRef(o)) {
                        let k = choose|k: int| 0 <= k < done.len() && done[k] == OpRef(o);
                        assert(next[k] == OpRef(o));
                    }
                    assert(next[i as int] == op);
                }
            }
        }
        assert(self.plan.ops().take(self.plan.steps@.len() as int) =~= self.plan.ops());
        used
    }

    /// Draw the plan in the language of GraphViz.
    pub fn show_dot(self) -> (text: String)
        requires
            self.driver.wf(),
            self.steps_known(),
            self.plan.steps@.len() > 0,
        ensures
            text@ == "digraph plan {\n"@ + "  node[shape=box];\n"@ + self.state_lines(
                self.driver.states@.len() as int,
            ) + self.op_lines(self.driver.ops@.len() as int) + "}\n"@,
    {
        let mut text = "digraph plan {\n".to_string();
        text.append("  node[shape=box];\n");

        // Record the states and ops that are actually used in the plan.
        let states = self.shown_files();
        let ops = self.used_ops();

        // Show all states.
        let ghost head = text@;
        assert(text@ =~= head + self.state_lines(0));
        let mut i: u32 = 0;
        while (i as usize) < self.driver.states.len()
            invariant
                self.driver.wf(),
                i <= self.driver.states@.len(),
                self.labelled(states@, self.plan.steps@.len() as int),
                text@ == head + self.state_lines(i as int),
            decreases self.driver.states@.len() - i,
        {
            let state = self.driver.states.at(StateRef(i));
            let file = states.get(&i);
            assert(states@.contains_key(i) || !states@.contains_key(i));
            push_state(&mut text, StateRef(i), state.name.as_str(), file);
            assert(text@ =~= head + (self.state_lines(i as int) + self.state_line(i as int)));
            i = i + 1;
        }

        // Show all operations.
        let ghost listed = text@;
        assert(text@ =~= listed + self.op_lines(0));
        let mut i: u32 = 0;
        while (i as usize) < self.driver.ops.len()
            invariant
                self.driver.wf(),
                i <= self.driver.ops@.len(),
                forall|o: u32| #[trigger]
                    ops@.contains(o) <==> self.plan.ops().contains(OpRef(o)),
                text@ == listed + self.op_lines(i as int),
            decreases self.driver.ops@.len() - i,
        {
            let meta = &self.driver.ops.at(OpRef(i)).meta;
            push_op(&mut text, meta.input, meta.output, meta.name.as_str(), ops.contains(&i));
            assert(text@ =~= listed + (self.op_lines(i as int) + self.op_line(i as int)));
            i = i + 1;
        }
        text.append("}\n");
        text
    }
}

/// How the picture shows a state, with the file in it if there is one.
pub open spec fn state_text(
    state: StateRef,
    name: Seq<char>,
    file: Option<Seq<char>>,
) -> Seq<char> {
    "  "@ + state.label() + " ["@ + (match file {
        Some(f) => "label=\""@ + name + "\n"@ + f + "\" penwidth=3 fillcolor=gray style=filled"@,
        None => "label=\""@ + name + "\""@,
    }) + "];\n"@
}

/// How the picture shows an operation.
pub open spec fn op_text(
    input: StateRef,
    output: StateRef,
    name: Seq<char>,
    used: bool,
) -> Seq<char> {
    "  "@ + input.label() + " -> "@ + output.label() + " [label=\""@ + name + "\""@ + (if used {
        " penwidth=3"@
    } else {
        Seq::empty()
    }) + "];\n"@
}

/// Append the line of a state.
fn push_state(text: &mut String, state: StateRef, name: &str, file: Option<&String>)
    ensures
        final(text)@ == old(text)@ + state_text(
            state,
            name@,
            match file {
                Some(f) => Some(f@),
                None => None,
            },
        ),
{
    text.append("  ");
    text.append(state.text().as_str());
    text.append(" [");
    if let Some(filename) = file {
        text.append("label=\"");
        text.append(name);
        text.append("\n");
        text.append(filename.as_str());
        text.append("\" penwidth=3 fillcolor=gray style=filled");
    } else {
        text.append("label=\"");
        text.append(name);
        text.append("\"");
    }
    text.append("];\n");
    assert(text@ =~= old(text)@ + state_text(
        state,
        name@,
        match file {
            Some(f) => Some(f@),
            None => None,
        },
    ));
}

/// Append the line of an operation.
fn push_op(text: &mut String, input: StateRef, output: StateRef, name: &str, used: bool)
    ensures
        final(text)@ == old(text)@ + op_text(input, output, name@, used),
{
    text.append("  ");
    text.append(input.text().as_str());
    text.append(" -> ");
    text.append(output.text().as_str());
    text.append(" [label=\"");
    text.append(name);
    text.append("\"");
    if used {
        text.append(" penwidth=3");
    }
    text.append("];\n");
    assert(text@ =~= old(text)@ + op_text(input, output, name@, used));
}

/// What stands before the stanza of a setup.
pub open spec fn setup_header(setup: SetupRef) -> Seq<u8> {
    encode_utf8("# "@) + encode_utf8(setup.label()) + encode_utf8("\n"@)
}

/// What marks the last file as the default target.
pub open spec fn default_text(file: Seq<u8>) -> Seq<u8> {
    encode_utf8("\n"@) + encode_utf8("default "@) + file + encode_utf8("\n"@)
}

impl<'a> Run<'a> {
    /// Every setup that a step of the plan needs is one that the driver has.
    pub open spec fn setups_known(self) -> bool {
        forall|i: int|
            0 <= i < self.plan.steps@.len() ==> {
                let setup = (#[trigger] self.step_op(i)).meta.setup;
                setup matches Some(s) ==> s.0 < self.driver.setups@.len()
            }
    }

    /// The setups that the first `n` steps need, each once, in the order of first use.
    pub open spec fn setup_order(self, n: int) -> Seq<SetupRef>
        decreases n,
    {
        if n <= 0 {
            Seq::empty()
        } else {
            let before = self.setup_order(n - 1);
            match self.step_op(n - 1).meta.setup {
                Some(s) if !before.contains(s) => before.push(s),
                _ => before,
            }
        }
    }

    /// The file that a step starts from: what the step before it makes, or the input.
    pub open spec fn step_input(self, i: int) -> Seq<u8> {
        if i <= 0 {
            self.plan.start@
        } else {
            self.plan.steps@[i - 1].1@
        }
    }

    /// A setup was run to its end, between its header and an empty line.
    pub open spec fn ran_setup(
        self,
        setup: SetupRef,
        before: EmitterState,
        after: EmitterState,
    ) -> bool {
        exists|mid: EmitterState|
            {
                &&& #[trigger] self.driver.setups@[setup.0 as int].inner.emits(
                    before.wrote(setup_header(setup)),
                    mid,
                    Ok(()),
                )
                &&& after == mid.wrote(encode_utf8("\n"@))
            }
    }

    /// How the operation of a step may build its file.
    pub open spec fn step_builds(
        self,
        i: int,
        before: EmitterState,
        after: EmitterState,
        result: std::io::Result<()>,
    ) -> bool {
        self.step_op(i).impl_.inner.emits(
            self.step_input(i),
            self.plan.steps@[i].1@,
            before,
            after,
            result,
        )
    }

    /// The setups were run one after the other, as far as `trace` goes.
    pub open spec fn setups_ran(self, trace: Seq<EmitterState>) -> bool {
        let order = self.setup_order(self.plan.steps@.len() as int);
        &&& 0 < trace.len() <= order.len() + 1
        &&& trace[0] == (EmitterState { out: Seq::empty(), config: self.config.data })
        &&& forall|i: int| 0 <= i < trace.len() - 1 ==> #[trigger] self.setup_ran_at(trace, i)
    }

    /// Setup number `i` was run between two states of `trace`.
    pub open spec fn setup_ran_at(self, trace: Seq<EmitterState>, i: int) -> bool {
        let order = self.setup_order(self.plan.steps@.len() as int);
        self.ran_setup(order[i], trace[i], trace[i + 1])
    }

    /// The steps were built one after the other, as far as `trace` goes.
    pub open spec fn steps_built(self, trace: Seq<EmitterState>) -> bool {
        &&& 0 < trace.len() <= self.plan.steps@.len() + 1
        &&& forall|i: int| 0 <= i < trace.len() - 1 ==> #[trigger] self.step_built_at(trace, i)
    }

    /// Step number `i` was built between two states of `trace`.
    pub open spec fn step_built_at(self, trace: Seq<EmitterState>, i: int) -> bool {
        self.step_builds(i, trace[i], trace[i + 1], Ok(()))
    }

    /// How emission goes: first the setups, then the steps, then the default target. It
    /// stops at the first setup or step that fails, and ends as that one did.
    pub open spec fn emission(
        self,
        setup_trace: Seq<EmitterState>,
        build_trace: Seq<EmitterState>,
        after: EmitterState,
        result: std::io::Result<()>,
    ) -> bool {
        let order = self.setup_order(self.plan.steps@.len() as int);
        let k = setup_trace.len() - 1;
        let m = build_trace.len() - 1;
        &&& self.setups_ran(setup_trace)
        &&& if k < order.len() {
            &&& result is Err
            &&& self.driver.setups@[order[k].0 as int].inner.emits(
                setup_trace[k].wrote(setup_header(order[k])),
                after,
                result,
            )
        } else {
            &&& self.steps_built(build_trace)
            &&& build_trace[0] == setup_trace[k].wrote(encode_utf8("# build targets\n"@))
            &&& if m < self.plan.steps@.len() {
                &&& result is Err
                &&& self.step_builds(m, build_trace[m], after, result)
            } else {
                &&& result is Ok
                &&& after == build_trace[m].wrote(
                    default_text(self.step_input(self.plan.steps@.len() as int)),
                )
            }
        }
    }

    /// Whether emission may come out like this.
    pub open spec fn may_emit(self, after: EmitterState, result: std::io::Result<()>) -> bool {
        exists|setup_trace: Seq<EmitterState>, build_trace: Seq<EmitterState>| #[trigger]
            self.emission(setup_trace, build_trace, after, result)
    }

    /// Check that the driver has the operations of all steps.
    pub fn knows_steps(&self) -> (known: bool)
        ensures
            known == self.steps_known(),
    {
        for i in 0..self.plan.steps.len()
            invariant
                forall|k: int|
                    0 <= k < i ==> (#[trigger] self.plan.steps@[k]).0.0 < self.driver.ops@.len(),
        {
            if self.plan.steps[i].0.0 as usize >= self.driver.ops.len() {
                return false;
            }
        }
        true
    }

    /// Check that the driver has the setups of all steps.
    pub fn knows_setups(&self) -> (known: bool)
        requires
            self.steps_known(),
        ensures
            known == self.setups_known(),
    {
        for i in 0..self.plan.steps.len()
            invariant
                self.steps_known(),
                forall|k: int|
                    0 <= k < i ==> ((#[trigger] self.step_op(k)).meta.setup matches Some(s) ==> s.0
                        < self.driver.setups@.len()),
        {
            let op = self.driver.ops.at(self.plan.steps[i].0);
            assert(*op == self.step_op(i as int));
            if let Some(setup) = op.meta.setup {
                if setup.0 as usize >= self.driver.setups.len() {
                    return false;
                }
            }
        }
        true
    }

    /// One more setup was run.
    proof fn lemma_setup_ran(self, trace: Seq<EmitterState>, next: EmitterState)
        requires
            self.setups_ran(trace),
            trace.len() <= self.setup_order(self.plan.steps@.len() as int).len(),
            self.ran_setup(
                self.setup_order(self.plan.steps@.len() as int)[trace.len() - 1],
                trace.last(),
                next,
            ),
        ensures
            self.setups_ran(trace.push(next)),
    {
        let grown = trace.push(next);
        assert forall|i: int| 0 <= i < grown.len() - 1 implies #[trigger] self.setup_ran_at(
            grown,
            i,
        ) by {
            if i < trace.len() - 1 {
                assert(self.setup_ran_at(trace, i));
            }
        }
    }

    /// One more step was built.
    proof fn lemma_step_built(self, trace: Seq<EmitterState>, next: EmitterState)
        requires
            self.steps_built(trace),
            trace.len() <= self.plan.steps@.len(),
            self.step_builds(trace.len() - 1, trace.last(), next, Ok(())),
        ensures
            self.steps_built(trace.push(next)),
    {
        let grown = trace.push(next);
        assert forall|i: int| 0 <= i < grown.len() - 1 implies #[trigger] self.step_built_at(
            grown,
            i,
        ) by {
            if i < trace.len() - 1 {
                assert(self.step_built_at(trace, i));
            }
        }
    }

    /// Emit the setup for each operation used in the plan, only once.
    fn emit_setups(
        driver: &Driver,
        plan: &Plan,
        emitter: &mut Emitter,
        Ghost(run): Ghost<Run<'a>>,
    ) -> (result: std::io::Result<()>)
        requires
            run.driver == driver,
            run.plan == plan,
            run.steps_known(),
            run.setups_known(),
            old(emitter)@ == (EmitterState { out: Seq::empty(), config: run.config.data }),
        ensures
            match result {
                Ok(()) => exists|trace: Seq<EmitterState>|
                    {
                        &&& #[trigger] run.setups_ran(trace)
                        &&& trace.len() == run.setup_order(plan.steps@.len() as int).len() + 1
                        &&& trace.last() == final(emitter)@
                    },
                Err(e) => exists|trace: Seq<EmitterState>|
                    {
                        let order = run.setup_order(plan.steps@.len() as int);
                        let k = trace.len() - 1;
                        &&& #[trigger] run.setups_ran(trace)
                        &&& k < order.len()
                        &&& driver.setups@[order[k].0 as int].inner.emits(
                            trace[k].wrote(setup_header(order[k])),
                            final(emitter)@,
                            result,
                        )
                    },
            },
    {
        let mut done_setups: HashSet<u32> = HashSet::new();
        let ghost total = run.setup_order(plan.steps@.len() as int);
        let ghost mut trace: Seq<EmitterState> = seq![emitter@];
        for i in 0..plan.steps.len()
            invariant
                run.driver == driver,
                run.plan == plan,
                run.steps_known(),
                run.setups_known(),
                total == run.setup_order(plan.steps@.len() as int),
                forall|s: u32| #[trigger]
                    done_setups@.contains(s) <==> run.setup_order(i as int).contains(SetupRef(s)),
                trace.len() == run.setup_order(i as int).len() + 1,
                trace.last() == emitter@,
                run.setups_ran(trace),
        {
            let op = driver.ops.at(plan.steps[i].0);
            assert(*op == run.step_op(i as int));
            if let Some(setup) = op.meta.setup {
                let ghost before = run.setup_order(i as int);
                let ghost next = run.setup_order(i + 1);
                if done_setups.insert(setup.0) {
                    proof {
                        assert(next == before.push(setup));
                        run.lemma_order_grows(i + 1, plan.steps@.len() as int);
                        assert(total[before.len() as int] == next[before.len() as int]);
                    }
                    emitter.write_str("# ");
                    emitter.write_str(setup.text().as_str());
                    emitter.write_str("\n");
                    assert(emitter@ =~= trace.last().wrote(setup_header(setup)));
                    let result = driver.setups.at(setup).inner.setup(emitter);
                    let ghost ended = result;
                    let ghost mid = emitter@;
                    if let Err(e) = result {
                        return Err(e);
                    }
                    assert(ended->Ok_0 == ());
                    emitter.write_str("\n");
                    proof {
                        let last = trace.last();
                        assert(driver.setups@[setup.0 as int].inner.emits(
                            last.wrote(setup_header(setup)),
                            mid,
                            Ok(()),
                        ));
                        assert(run.ran_setup(setup, last, emitter@));
                        run.lemma_setup_ran(trace, emitter@);
                        trace = trace.push(emitter@);
                    }
                }
                proof {
                    assert forall|s: u32| #[trigger]
                        done_setups@.contains(s) <==> next.contains(SetupRef(s)) by {
                        if before.contains(SetupRef(s)) {
                            let k = before.index_of(SetupRef(s));
                            assert(next[k] == SetupRef(s));
                        }
                        if !before.contains(setup) {
                            assert(next[before.len() as int] == setup);
                        }
                    }
                }
            }
        }
        Ok(())
    }

    /// The order of the setups only grows at its end.
    proof fn lemma_order_grows(self, n: int, m: int)
        requires
            0 <= n <= m,
        ensures
            self.setup_order(n).len() <= self.setup_order(m).len(),
            forall|i: int|
                0 <= i < self.setup_order(n).len() ==> self.setup_order(n)[i]
                    == #[trigger] self.setup_order(m)[i],
        decreases m,
    {
        if n < m {
            self.lemma_order_grows(n, m - 1);
        }
    }

    /// Emit the build commands for each step in the plan.
    fn emit_steps(
        driver: &Driver,
        plan: &Plan,
        emitter: &mut Emitter,
        Ghost(run): Ghost<Run<'a>>,
    ) -> (result: std::io::Result<()>)
        requires
            run.driver == driver,
            run.plan == plan,
            run.steps_known(),
        ensures
            exists|trace: Seq<EmitterState>|
                {
                    &&& #[trigger] run.steps_built(trace)
                    &&& trace[0] == old(emitter)@
                    &&& match result {
                        Ok(()) => {
                            &&& trace.len() == plan.steps@.len() + 1
                            &&& trace.last() == final(emitter)@
                        },
                        Err(e) => trace.len() <= plan.steps@.len() && run.step_builds(
                            trace.len() - 1,
                            trace.last(),
                            final(emitter)@,
                            result,
                        ),
                    }
                },
    {
        let ghost mut trace: Seq<EmitterState> = seq![emitter@];
        for i in 0..plan.steps.len()
            invariant
                run.driver == driver,
                run.plan == plan,
                run.steps_known(),
                trace.len() == i + 1,
                trace[0] == old(emitter)@,
                trace.last() == emitter@,
                run.steps_built(trace),
        {
            let (op, out_file) = &plan.steps[i];
            let last_file = if i == 0 {
                &plan.start
            } else {
                &plan.steps[i - 1].1
            };
            let op = driver.ops.at(*op);
            assert(*op == run.step_op(i as int));
            let result = op.impl_.inner.build(emitter, last_file, out_file);
            let ghost ended = result;
            if let Err(e) = result {
                return Err(e);
            }
            assert(ended->Ok_0 == ());
            proof {
                run.lemma_step_built(trace, emitter@);
                trace = trace.push(emitter@);
            }
        }
        Ok(())
    }

    /// Write the Ninja file of the plan.
    pub fn emit(self) -> (outcome: (Emitter, std::io::Result<()>))
        requires
            self.steps_known(),
            self.setups_known(),
        ensures
            self.may_emit(outcome.0@, outcome.1),
    {
        let ghost run = self;
        let ghost order = run.setup_order(run.plan.steps@.len() as int);
        let Run { driver, plan, config } = self;
        let mut emitter = Emitter::new(config.data);

        // Emit the setup for each operation used in the plan, only once.
        match Self::emit_setups(driver, &plan, &mut emitter, Ghost(run)) {
            Ok(()) => {},
            Err(e) => {
                proof {
                    let result: std::io::Result<()> = Err(e);
                    let trace = choose|trace: Seq<EmitterState>|
                        {
                            let k = trace.len() - 1;
                            &&& #[trigger] run.setups_ran(trace)
                            &&& k < order.len()
                            &&& driver.setups@[order[k].0 as int].inner.emits(
                                trace[k].wrote(setup_header(order[k])),
                                emitter@,
                                result,
                            )
                        };
                    assert(run.emission(trace, Seq::empty(), emitter@, result));
                }
                return (emitter, Err(e));
            },
        }
        let ghost setup_trace = choose|trace: Seq<EmitterState>|
            {
                &&& #[trigger] run.setups_ran(trace)
                &&& trace.len() == order.len() + 1
                &&& trace.last() == emitter@
            };

        // Emit the build commands for each step in the plan.
        emitter.write_str("# build targets\n");
        let ghost targets = emitter@;
        let result = Self::emit_steps(driver, &plan, &mut emitter, Ghost(run));
        let ghost build_trace = choose|trace: Seq<EmitterState>|
            {
                &&& #[trigger] run.steps_built(trace)
                &&& trace[0] == targets
                &&& match result {
                    Ok(()) => trace.len() == plan.steps@.len() + 1 && trace.last() == emitter@,
                    Err(e) => trace.len() <= plan.steps@.len() && run.step_builds(
                        trace.len() - 1,
                        trace.last(),
                        emitter@,
                        result,
                    ),
                }
            };
        match result {
            Ok(()) => {},
            Err(e) => {
                assert(run.emission(setup_trace, build_trace, emitter@, result));
                return (emitter, Err(e));
            },
        }

        // Mark the last file as the default target.
        let count: usize = plan.steps.len();
        let last_file = if count == 0 {
            &plan.start
        } else {
            &plan.steps[count - 1].1
        };
        let ghost built = emitter@;
        emitter.write_str("\n");
        emitter.write_str("default ");
        emitter.write_bytes(last_file.bytes.as_slice());
        emitter.write_str("\n");
        assert(emitter@ =~= built.wrote(default_text(last_file@)));
        assert(run.emission(setup_trace, build_trace, emitter@, Ok(())));
        (emitter, Ok(()))
    }
}

impl<'a> Run<'a> {
    /// The order of setups holds each setup of the plan's operations, and each only
    /// once.
    pub proof fn law_setups_once(self)
        ensures
            self.setup_order(self.plan.steps@.len() as int).no_duplicates(),
            forall|s: SetupRef| #[trigger]
                self.setup_order(self.plan.steps@.len() as int).contains(s) <==> exists|i: int|
                    0 <= i < self.plan.steps@.len() && (#[trigger] self.step_op(i)).meta.setup
                        == Some(s),
    {
        self.lemma_setups_once(self.plan.steps@.len() as int);
    }

    proof fn lemma_setups_once(self, n: int)
        requires
            0 <= n <= self.plan.steps@.len(),
        ensures
            self.setup_order(n).no_duplicates(),
            forall|s: SetupRef| #[trigger]
                self.setup_order(n).contains(s) <==> exists|i: int|
                    0 <= i < n && (#[trigger] self.step_op(i)).meta.setup == Some(s),
        decreases n,
    {
        if n > 0 {
            self.lemma_setups_once(n - 1);
            let before = self.setup_order(n - 1);
            let order = self.setup_order(n);
            let last = self.step_op(n - 1).meta.setup;
            assert forall|s: SetupRef| #[trigger]
                order.contains(s) <==> before.contains(s) || last == Some(s) by {
                if before.contains(s) {
                    let k = choose|k: int| 0 <= k < before.len() && before[k] == s;
                    assert(order[k] == s);
                }
                if last == Some(s) && !before.contains(s) {
                    assert(order[before.len() as int] == s);
                }
            }
            assert forall|s: SetupRef| #[trigger]
                order.contains(s) <==> exists|i: int|
                    0 <= i < n && (#[trigger] self.step_op(i)).meta.setup == Some(s) by {
                assert(before.contains(s) ==> exists|i: int|
                    0 <= i < n - 1 && (#[trigger] self.step_op(i)).meta.setup == Some(s));
                if exists|i: int| 0 <= i < n && (#[trigger] self.step_op(i)).meta.setup == Some(s) {
                    let i = choose|i: int|
                        0 <= i < n && (#[trigger] self.step_op(i)).meta.setup == Some(s);
                    if i < n - 1 {
                        assert(before.contains(s));
                    }
                }
            }
        } else {
            assert(self.setup_order(n) =~= Seq::<SetupRef>::empty());
        }
    }

    /// Where no setup and no operation of the plan can fail, emission does not.
    pub proof fn law_emission_succeeds(self, after: EmitterState, result: std::io::Result<()>)
        requires
            forall|i: int, a: EmitterState, b: EmitterState, r: std::io::Result<()>|
                0 <= i < self.driver.setups@.len() && #[trigger] self.driver.setups@[i].inner.emits(
                    a,
                    b,
                    r,
                ) ==> r is Ok,
            forall|i: int, a: EmitterState, b: EmitterState, r: std::io::Result<()>|
                0 <= i < self.plan.steps@.len() && #[trigger] self.step_builds(i, a, b, r)
                    ==> r is Ok,
            self.setups_known(),
            self.may_emit(after, result),
        ensures
            result is Ok,
    {
        let order = self.setup_order(self.plan.steps@.len() as int);
        self.law_setups_once();
        assert forall|k: int| 0 <= k < order.len() implies (#[trigger] order[k]).0
            < self.driver.setups@.len() by {
            assert(order.contains(order[k]));
            let i = choose|i: int|
                0 <= i < self.plan.steps@.len() && (#[trigger] self.step_op(i)).meta.setup == Some(
                    order[k],
                );
            assert(self.step_op(i).meta.setup == Some(order[k]));
        }
    }

    /// A Ninja file that was emitted to its end names the last file of the plan, or the
    /// input where the plan has no steps, as its default target.
    pub proof fn law_default_target(self, after: EmitterState, result: std::io::Result<()>)
        requires
            self.may_emit(after, result),
            result is Ok,
        ensures
            exists|before: Seq<u8>|
                after.out == #[trigger] (before + default_text(
                    self.step_input(self.plan.steps@.len() as int),
                )),
    {
        let (setup_trace, build_trace) = choose|
            setup_trace: Seq<EmitterState>,
            build_trace: Seq<EmitterState>,
        | #[trigger] self.emission(setup_trace, build_trace, after, result);
        let before = build_trace[build_trace.len() - 1].out;
        assert(after.out == before + default_text(
            self.step_input(self.plan.steps@.len() as int),
        ));
    }

    /// A plan that fulfils a request can be emitted, where the driver has the setups of
    /// all its operations.
    pub proof fn law_plan_can_be_emitted(self, req: Request)
        requires
            self.driver.fulfils(self.plan, req),
            forall|i: int|
                0 <= i < self.driver.ops@.len() ==> {
                    let setup = (#[trigger] self.driver.ops@[i]).meta.setup;
                    setup matches Some(s) ==> s.0 < self.driver.setups@.len()
                },
        ensures
            self.steps_known(),
            self.setups_known(),
    {
        law_walk_connects(
            self.driver.edges(),
            self.plan.ops(),
            req.start_state,
            req.end_state,
        );
        assert forall|i: int| 0 <= i < self.plan.steps@.len() implies (
        #[trigger] self.plan.steps@[i]).0.0 < self.driver.ops@.len() by {
            assert(self.plan.ops()[i] == self.plan.steps@[i].0);
        }
    }

    /// The build commands of the first `n` steps, where each applies a Ninja rule.
    pub open spec fn rule_commands(self, rules: Seq<Seq<char>>, n: int) -> Seq<u8>
        decreases n,
    {
        if n <= 0 {
            Seq::empty()
        } else {
            self.rule_commands(rules, n - 1) + build_text(
                rules[n - 1],
                self.step_input(n - 1),
                self.plan.steps@[n - 1].1@,
            )
        }
    }

    /// A plan of operations that apply Ninja rules and need no setup is emitted without
    /// fail, as one build command for each step.
    pub proof fn law_rules_emitted(
        self,
        rules: Seq<Seq<char>>,
        after: EmitterState,
        result: std::io::Result<()>,
    )
        requires
            rules.len() == self.plan.steps@.len(),
            forall|i: int|
                0 <= i < rules.len() ==> (#[trigger] self.step_op(i)).applies_rule(rules[i])
                    && self.step_op(i).meta.setup is None,
            self.may_emit(after, result),
        ensures
            result is Ok,
            after == (EmitterState {
                out: encode_utf8("# build targets\n"@) + self.rule_commands(
                    rules,
                    rules.len() as int,
                ) + default_text(self.step_input(rules.len() as int)),
                config: self.config.data,
            }),
    {
        let n = rules.len() as int;
        self.law_setups_once();
        let order = self.setup_order(n);
        assert(order.len() == 0) by {
            if order.len() > 0 {
                assert(order.contains(order[0]));
            }
        }
        let (setup_trace, build_trace) = choose|
            setup_trace: Seq<EmitterState>,
            build_trace: Seq<EmitterState>,
        | #[trigger] self.emission(setup_trace, build_trace, after, result);
        let m = build_trace.len() - 1;
        self.lemma_rules_built(rules, build_trace, m);
        if m < n {
            assert(self.step_op(m).applies_rule(rules[m]));
            assert(self.step_builds(m, build_trace[m], after, result));
        }
        assert(after.out =~= encode_utf8("# build targets\n"@) + self.rule_commands(rules, n)
            + default_text(self.step_input(n)));
    }

    proof fn lemma_rules_built(
        self,
        rules: Seq<Seq<char>>,
        trace: Seq<EmitterState>,
        k: int,
    )
        requires
            rules.len() == self.plan.steps@.len(),
            forall|i: int|
                0 <= i < rules.len() ==> (#[trigger] self.step_op(i)).applies_rule(rules[i]),
            self.steps_built(trace),
            0 <= k < trace.len(),
        ensures
            trace[k] == trace[0].wrote(self.rule_commands(rules, k)),
        decreases k,
    {
        if k > 0 {
            self.lemma_rules_built(rules, trace, k - 1);
            assert(self.step_op(k - 1).applies_rule(rules[k - 1]));
            assert(self.step_built_at(trace, k - 1));
            assert(rule_emits(
                rules[k - 1],
                self.step_input(k - 1),
                self.plan.steps@[k - 1].1@,
                trace[k - 1],
                trace[k],
                Ok(()),
            ));
        }
        assert(trace[k] =~= trace[0].wrote(self.rule_commands(rules, k)));
    }
}

impl<'a> Run<'a> {
    /// A run holds the driver, the plan and the configuration that it was made of. Whether
    /// the driver has the operations and the setups of the plan goes by every step.
    pub proof fn law_run_made(
        driver: &'a Driver,
        plan: Plan,
        config: Config,
        run: Run<'a>,
        steps: bool,
        setups: bool,
    )
        requires
            call_ensures(Run::<'a>::new, (driver, plan, config), run),
            call_ensures(Run::<'a>::knows_steps, (&run,), steps),
            call_ensures(Run::<'a>::knows_setups, (&run,), setups),
        ensures
            run.driver == driver,
            run.plan == plan,
            run.config == config,
            steps <==> forall|i: int|
                0 <= i < plan.steps@.len() ==> (#[trigger] plan.steps@[i]).0.0 < driver.ops@.len(),
            setups <==> forall|i: int, s: SetupRef|
                0 <= i < plan.steps@.len() && driver.ops@[(
                #[trigger] plan.steps@[i]).0.0 as int].meta.setup == Some(s) ==> #[trigger] s.0
                    < driver.setups@.len(),
            steps ==> call_requires(Run::<'a>::show, (run,)),
            steps && setups ==> call_requires(Run::<'a>::emit, (run,)),
            steps && plan.steps@.len() > 0 && driver.wf() ==> call_requires(
                Run::<'a>::show_dot,
                (run,),
            ),
    {
        if setups {
            assert forall|i: int, s: SetupRef|
                0 <= i < plan.steps@.len() && driver.ops@[(
                #[trigger] plan.steps@[i]).0.0 as int].meta.setup == Some(s) implies #[trigger] s.0
                < driver.setups@.len() by {
                assert(run.step_op(i).meta.setup == Some(s));
            }
        } else {
            let i = choose|i: int|
                0 <= i < plan.steps@.len() && !{
                    let setup = (#[trigger] run.step_op(i)).meta.setup;
                    setup matches Some(s) ==> s.0 < driver.setups@.len()
                };
            let s = run.step_op(i).meta.setup->0;
            assert(driver.ops@[plan.steps@[i].0.0 as int].meta.setup == Some(s));
            assert(!(s.0 < driver.setups@.len()));
        }
    }

    /// The listing holds the input file on a first line, and then a line for each step, in
    /// the order of the plan: the operation by its number and its name, and the file that
    /// it makes.
    pub proof fn law_listing(self, text: String, lines: Seq<Seq<char>>)
        requires
            call_ensures(Run::<'a>::show, (self,), text),
            lines.len() == self.plan.steps@.len(),
            forall|i: int|
                0 <= i < lines.len() ==> #[trigger] lines[i] == ("operation"@ + decimal(
                    self.plan.steps@[i].0.0 as nat,
                )) + ": "@ + self.driver.ops@[self.plan.steps@[i].0.0 as int].meta.name@ + " -> "@
                    + shown(self.plan.steps@[i].1.bytes@) + "\n"@,
        ensures
            text@ == "start: "@ + shown(self.plan.start.bytes@) + "\n"@ + lines.flatten(),
    {
        self.lemma_step_lines(lines, lines.len() as int);
        assert(lines.take(lines.len() as int) =~= lines);
    }

    proof fn lemma_step_lines(self, lines: Seq<Seq<char>>, n: int)
        requires
            0 <= n <= lines.len(),
            forall|i: int| 0 <= i < lines.len() ==> #[trigger] lines[i] == self.step_line(i),
        ensures
            self.step_lines(n) == lines.take(n).flatten(),
        decreases n,
    {
        if n > 0 {
            self.lemma_step_lines(lines, n - 1);
            lemma_flatten_next(lines, n - 1);
        } else {
            assert(lines.take(n).flatten() =~= Seq::<char>::empty());
        }
    }

    /// The last of the first `n` steps that leads to a state, or -1 where none does.
    proof fn lemma_last_step(self, state: StateRef, n: int) -> (k: int)
        requires
            0 <= n,
        ensures
            -1 <= k < n,
            k >= 0 ==> self.step_op(k).meta.output == state,
            forall|j: int| k < j < n ==> (#[trigger] self.step_op(j)).meta.output != state,
            self.file_shown(state, n) == (if k >= 0 {
                Some(shown(self.plan.steps@[k].1@))
            } else {
                self.file_shown(state, 0)
            }),
        decreases n,
    {
        if n == 0 {
            -1
        } else if self.step_op(n - 1).meta.output == state {
            n - 1
        } else {
            self.lemma_last_step(state, n - 1)
        }
    }

    /// The picture shows every state of the driver and then every operation, in the order
    /// of their numbers. A state is shown with a file where a step leads to it, which is
    /// the file of the last such step, and, where none does, in the state that the first
    /// operation takes up, which is the input file. The edge of an operation is drawn bold
    /// exactly if some step of the plan applies this operation.
    pub proof fn law_picture(
        self,
        text: String,
        files: Seq<Option<Seq<char>>>,
        nodes: Seq<Seq<char>>,
        edges: Seq<Seq<char>>,
    )
        requires
            call_ensures(Run::<'a>::show_dot, (self,), text),
            self.driver.states@.len() <= u32::MAX,
            self.driver.ops@.len() <= u32::MAX,
            self.plan.steps@.len() > 0,
            files.len() == self.driver.states@.len(),
            forall|i: int, k: int|
                {
                    &&& 0 <= i < files.len()
                    &&& 0 <= k < self.plan.steps@.len()
                    &&& self.driver.ops@[self.plan.steps@[k].0.0 as int].meta.output.0 == i
                    &&& forall|j: int|
                        k < j < self.plan.steps@.len() ==> self.driver.ops@[(
                        #[trigger] self.plan.steps@[j]).0.0 as int].meta.output.0 != i
                } ==> #[trigger] files[i] == Some(
                    shown((#[trigger] self.plan.steps@[k]).1.bytes@),
                ),
            forall|i: int|
                {
                    &&& 0 <= i < files.len()
                    &&& forall|j: int|
                        0 <= j < self.plan.steps@.len() ==> self.driver.ops@[(
                        #[trigger] self.plan.steps@[j]).0.0 as int].meta.output.0 != i
                } ==> #[trigger] files[i] == (if self.driver.ops@[
                    self.plan.steps@[0].0.0 as int
                ].meta.input.0 == i {
                    Some(shown(self.plan.start.bytes@))
                } else {
                    None
                }),
            nodes.len() == self.driver.states@.len(),
            forall|i: int|
                0 <= i < nodes.len() ==> #[trigger] nodes[i] == "  "@ + ("state"@ + decimal(
                    i as nat,
                )) + " ["@ + (match files[i] {
                    Some(file) => "label=\""@ + self.driver.states@[i].name@ + "\n"@ + file
                        + "\" penwidth=3 fillcolor=gray style=filled"@,
                    None => "label=\""@ + self.driver.states@[i].name@ + "\""@,
                }) + "];\n"@,
            edges.len() == self.driver.ops@.len(),
            forall|i: int|
                0 <= i < edges.len() ==> #[trigger] edges[i] == "  "@ + ("state"@ + decimal(
                    self.driver.ops@[i].meta.input.0 as nat,
                )) + " -> "@ + ("state"@ + decimal(self.driver.ops@[i].meta.output.0 as nat))
                    + " [label=\""@ + self.driver.ops@[i].meta.name@ + "\""@ + (if exists|k: int|
                    0 <= k < self.plan.steps@.len() && (#[trigger] self.plan.steps@[k]).0.0 == i {
                    " penwidth=3"@
                } else {
                    Seq::empty()
                }) + "];\n"@,
        ensures
            text@ == "digraph plan {\n"@ + "  node[shape=box];\n"@ + nodes.flatten()
                + edges.flatten() + "}\n"@,
    {
        assert forall|i: int| 0 <= i < nodes.len() implies #[trigger] nodes[i] == self.state_line(
            i,
        ) by {
            self.lemma_file_in_state(files, i);
        }
        assert forall|i: int| 0 <= i < edges.len() implies #[trigger] edges[i] == self.op_line(
            i,
        ) by {
            self.lemma_op_used(i);
        }
        self.lemma_state_lines(nodes, nodes.len() as int);
        self.lemma_op_lines(edges, edges.len() as int);
        assert(nodes.take(nodes.len() as int) =~= nodes);
        assert(edges.take(edges.len() as int) =~= edges);
    }

    proof fn lemma_file_in_state(self, files: Seq<Option<Seq<char>>>, i: int)
        requires
            0 <= i < files.len() <= u32::MAX,
            self.plan.steps@.len() > 0,
            forall|i: int, k: int|
                {
                    &&& 0 <= i < files.len()
                    &&& 0 <= k < self.plan.steps@.len()
                    &&& self.driver.ops@[self.plan.steps@[k].0.0 as int].meta.output.0 == i
                    &&& forall|j: int|
                        k < j < self.plan.steps@.len() ==> self.driver.ops@[(
                        #[trigger] self.plan.steps@[j]).0.0 as int].meta.output.0 != i
                } ==> #[trigger] files[i] == Some(
                    shown((#[trigger] self.plan.steps@[k]).1.bytes@),
                ),
            forall|i: int|
                {
                    &&& 0 <= i < files.len()
                    &&& forall|j: int|
                        0 <= j < self.plan.steps@.len() ==> self.driver.ops@[(
                        #[trigger] self.plan.steps@[j]).0.0 as int].meta.output.0 != i
                } ==> #[trigger] files[i] == (if self.driver.ops@[
                    self.plan.steps@[0].0.0 as int
                ].meta.input.0 == i {
                    Some(shown(self.plan.start.bytes@))
                } else {
                    None
                }),
        ensures
            self.file_shown(StateRef(i as u32), self.plan.steps@.len() as int) == files[i],
    {
        let state = StateRef(i as u32);
        let n = self.plan.steps@.len() as int;
        let k = self.lemma_last_step(state, n);
        assert forall|j: int| k < j < n implies self.driver.ops@[(
        #[trigger] self.plan.steps@[j]).0.0 as int].meta.output.0 != i by {
            assert(self.step_op(j).meta.output != state);
        }
        if k >= 0 {
            assert(files[i] == Some(shown(self.plan.steps@[k].1.bytes@)));
        }
    }

    proof fn lemma_op_used(self, i: int)
        requires
            0 <= i <= u32::MAX,
        ensures
            self.plan.ops().contains(OpRef(i as u32)) <==> exists|k: int|
                0 <= k < self.plan.steps@.len() && (#[trigger] self.plan.steps@[k]).0.0 == i,
    {
        let ops = self.plan.ops();
        let op = OpRef(i as u32);
        if ops.contains(op) {
            let k = choose|k: int| 0 <= k < ops.len() && ops[k] == op;
            assert(self.plan.steps@[k].0.0 == i);
        }
        if exists|k: int|
            0 <= k < self.plan.steps@.len() && (#[trigger] self.plan.steps@[k]).0.0 == i {
            let k = choose|k: int|
                0 <= k < self.plan.steps@.len() && (#[trigger] self.plan.steps@[k]).0.0 == i;
            assert(ops[k] == op);
        }
    }

    proof fn lemma_state_lines(self, lines: Seq<Seq<char>>, n: int)
        requires
            0 <= n <= lines.len(),
            forall|i: int| 0 <= i < lines.len() ==> #[trigger] lines[i] == self.state_line(i),
        ensures
            self.state_lines(n) == lines.take(n).flatten(),
        decreases n,
    {
        if n > 0 {
            self.lemma_state_lines(lines, n - 1);
            lemma_flatten_next(lines, n - 1);
        } else {
            assert(lines.take(n).flatten() =~= Seq::<char>::empty());
        }
    }

    proof fn lemma_op_lines(self, lines: Seq<Seq<char>>, n: int)
        requires
            0 <= n <= lines.len(),
            forall|i: int| 0 <= i < lines.len() ==> #[trigger] lines[i] == self.op_line(i),
        ensures
            self.op_lines(n) == lines.take(n).flatten(),
        decreases n,
    {
        if n > 0 {
            self.lemma_op_lines(lines, n - 1);
            lemma_flatten_next(lines, n - 1);
        } else {
            assert(lines.take(n).flatten() =~= Seq::<char>::empty());
        }
    }
}

impl<'a> Run<'a> {
    /// Where each setup of the order is first used.
    proof fn lemma_first_uses(self, n: int) -> (firsts: Seq<int>)
        requires
            0 <= n <= self.plan.steps@.len(),
        ensures
            firsts.len() == self.setup_order(n).len(),
            forall|j: int|
                0 <= j < firsts.len() ==> 0 <= #[trigger] firsts[j] < n && self.step_op(
                    firsts[j],
                ).meta.setup == Some(self.setup_order(n)[j]),
            forall|j: int, k: int|
                0 <= j < firsts.len() && 0 <= k < firsts[j] ==> (#[trigger] self.step_op(
                    k,
                )).meta.setup != Some(#[trigger] self.setup_order(n)[j]),
            forall|i: int, j: int|
                0 <= i < j < firsts.len() ==> #[trigger] firsts[i] < #[trigger] firsts[j],
        decreases n,
    {
        if n == 0 {
            Seq::empty()
        } else {
            let before = self.lemma_first_uses(n - 1);
            self.lemma_setups_once(n - 1);
            let order = self.setup_order(n - 1);
            match self.step_op(n - 1).meta.setup {
                Some(s) if !order.contains(s) => {
                    let firsts = before.push(n - 1);
                    assert(self.setup_order(n) == order.push(s));
                    assert forall|j: int, k: int|
                        0 <= j < firsts.len() && 0 <= k < firsts[j] implies (
                    #[trigger] self.step_op(k)).meta.setup != Some(
                        #[trigger] self.setup_order(n)[j],
                    ) by {
                        if j < before.len() {
                            assert(self.setup_order(n)[j] == order[j]);
                            assert(firsts[j] == before[j]);
                        }
                    }
                    firsts
                },
                _ => before,
            }
        }
    }

    /// How every emission goes. The setups that the steps need run first, each once, in the
    /// order of their first use: each is handed what was written before, with a line `# ` and
    /// the setup's number behind it, and is followed by an empty line. After the line
    /// `# build targets` the operations of the steps build in the order of the plan. The
    /// first is handed the input file and its own, each other one the file of the step
    /// before it and its own. At the end stands the default target, the file of the last
    /// step. Emission stops at the first setup or operation that fails, with its result and
    /// with what it left behind.
    pub proof fn law_emission_order(
        self,
        outcome: (Emitter, std::io::Result<()>),
        files: Seq<Seq<u8>>,
    ) -> (found: (
        Seq<SetupRef>,
        Seq<int>,
        Seq<EmitterState>,
        Seq<EmitterState>,
        Seq<EmitterState>,
    ))
        requires
            call_ensures(Run::<'a>::emit, (self,), outcome),
            files.len() == self.plan.steps@.len() + 1,
            files[0] == self.plan.start.bytes@,
            forall|i: int|
                0 <= i < self.plan.steps@.len() ==> (#[trigger] self.plan.steps@[i]).1.bytes@
                    == files[i + 1],
        ensures
            ({
                let (order, firsts, gaps, ends, built) = found;
                let n = self.plan.steps@.len() as int;
                let after = EmitterState { out: outcome.0.out@, config: outcome.0.config };
                &&& firsts.len() == order.len()
                &&& forall|j: int|
                    0 <= j < order.len() ==> 0 <= #[trigger] firsts[j] < n
                        && self.driver.ops@[self.plan.steps@[firsts[j]].0.0 as int].meta.setup
                        == Some(order[j])
                &&& forall|j: int, k: int|
                    0 <= j < order.len() && 0 <= k < firsts[j] ==> self.driver.ops@[(
                    #[trigger] self.plan.steps@[k]).0.0 as int].meta.setup != Some(
                        #[trigger] order[j],
                    )
                &&& forall|i: int, j: int|
                    0 <= i < j < order.len() ==> #[trigger] firsts[i] < #[trigger] firsts[j]
                &&& forall|k: int, s: SetupRef|
                    0 <= k < n && self.driver.ops@[(
                    #[trigger] self.plan.steps@[k]).0.0 as int].meta.setup == Some(s)
                        ==> #[trigger] order.contains(s)
                &&& 0 < gaps.len() <= order.len() + 1
                &&& ends.len() == gaps.len() - 1
                &&& gaps[0].out.len() == 0
                &&& gaps[0].config == self.config.data
                &&& forall|j: int|
                    0 <= j < ends.len() ==> {
                        &&& self.driver.setups@[order[j].0 as int].inner.emits(
                            EmitterState {
                                out: gaps[j].out + (encode_utf8("# "@) + encode_utf8(
                                    "setup"@ + decimal(order[j].0 as nat),
                                ) + encode_utf8("\n"@)),
                                config: gaps[j].config,
                            },
                            #[trigger] ends[j],
                            Ok(()),
                        )
                        &&& gaps[j + 1].out == ends[j].out + encode_utf8("\n"@)
                        &&& gaps[j + 1].config == ends[j].config
                    }
                &&& gaps.len() <= order.len() ==> {
                    &&& outcome.1 is Err
                    &&& self.driver.setups@[order[gaps.len() - 1].0 as int].inner.emits(
                        EmitterState {
                            out: gaps.last().out + (encode_utf8("# "@) + encode_utf8(
                                "setup"@ + decimal(order[gaps.len() - 1].0 as nat),
                            ) + encode_utf8("\n"@)),
                            config: gaps.last().config,
                        },
                        after,
                        outcome.1,
                    )
                }
                &&& gaps.len() == order.len() + 1 ==> {
                    &&& 0 < built.len() <= n + 1
                    &&& built[0].out == gaps.last().out + encode_utf8("# build targets\n"@)
                    &&& built[0].config == gaps.last().config
                    &&& forall|i: int|
                        0 <= i < built.len() - 1 ==> self.driver.ops@[
                            self.plan.steps@[i].0.0 as int
                        ].impl_.inner.emits(
                            files[i],
                            files[i + 1],
                            #[trigger] built[i],
                            built[i + 1],
                            Ok(()),
                        )
                    &&& built.len() <= n ==> {
                        &&& outcome.1 is Err
                        &&& self.driver.ops@[
                            self.plan.steps@[built.len() - 1].0.0 as int
                        ].impl_.inner.emits(
                            files[built.len() - 1],
                            files[built.len() as int],
                            built.last(),
                            after,
                            outcome.1,
                        )
                    }
                    &&& built.len() == n + 1 ==> {
                        &&& outcome.1 is Ok
                        &&& after.out == built.last().out + encode_utf8("\n"@) + encode_utf8(
                            "default "@,
                        ) + files[n] + encode_utf8("\n"@)
                        &&& after.config == built.last().config
                    }
                }
            }),
    {
        let n = self.plan.steps@.len() as int;
        let after = EmitterState { out: outcome.0.out@, config: outcome.0.config };
        assert(after == outcome.0@);
        let result = outcome.1;
        let (gaps, built) = choose|
            setup_trace: Seq<EmitterState>,
            build_trace: Seq<EmitterState>,
        | #[trigger] self.emission(setup_trace, build_trace, after, result);
        assert(self.emission(gaps, built, after, result));
        let order = self.setup_order(n);
        let firsts = self.lemma_first_uses(n);
        self.law_setups_once();
        let ends = Seq::new(
            (gaps.len() - 1) as nat,
            |j: int|
                choose|mid: EmitterState|
                    {
                        &&& #[trigger] self.driver.setups@[order[j].0 as int].inner.emits(
                            gaps[j].wrote(setup_header(order[j])),
                            mid,
                            Ok(()),
                        )
                        &&& gaps[j + 1] == mid.wrote(encode_utf8("\n"@))
                    },
        );
        assert forall|j: int, k: int|
            0 <= j < order.len() && 0 <= k < firsts[j] implies self.driver.ops@[(
        #[trigger] self.plan.steps@[k]).0.0 as int].meta.setup != Some(#[trigger] order[j]) by {
            assert(self.step_op(k).meta.setup != Some(order[j]));
        }
        assert forall|k: int, s: SetupRef|
            0 <= k < n && self.driver.ops@[(
            #[trigger] self.plan.steps@[k]).0.0 as int].meta.setup == Some(
                s,
            ) implies #[trigger] order.contains(s) by {
            assert(self.step_op(k).meta.setup == Some(s));
        }
        assert forall|j: int| 0 <= j < ends.len() implies {
            &&& self.driver.setups@[order[j].0 as int].inner.emits(
                gaps[j].wrote(setup_header(order[j])),
                #[trigger] ends[j],
                Ok(()),
            )
            &&& gaps[j + 1] == ends[j].wrote(encode_utf8("\n"@))
        } by {
            assert(self.setup_ran_at(gaps, j));
            assert(self.ran_setup(order[j], gaps[j], gaps[j + 1]));
        }
        if gaps.len() == order.len() + 1 {
            assert forall|i: int| 0 <= i < built.len() - 1 implies self.driver.ops@[
                self.plan.steps@[i].0.0 as int
            ].impl_.inner.emits(
                files[i],
                files[i + 1],
                #[trigger] built[i],
                built[i + 1],
                Ok(()),
            ) by {
                assert(self.step_built_at(built, i));
                assert(self.plan.steps@[i].1.bytes@ == files[i + 1]);
                self.lemma_input_file(files, i);
            }
            self.lemma_input_file(files, built.len() - 1);
            if built.len() <= n {
                assert(self.plan.steps@[built.len() - 1].1.bytes@ == files[built.len() as int]);
            } else {
                assert(after.out =~= built.last().out + encode_utf8("\n"@) + encode_utf8(
                    "default "@,
                ) + files[n] + encode_utf8("\n"@));
            }
        }
        (order, firsts, gaps, ends, built)
    }

    proof fn lemma_input_file(self, files: Seq<Seq<u8>>, i: int)
        requires
            files.len() == self.plan.steps@.len() + 1,
            files[0] == self.plan.start.bytes@,
            forall|i: int|
                0 <= i < self.plan.steps@.len() ==> (#[trigger] self.plan.steps@[i]).1.bytes@
                    == files[i + 1],
            0 <= i < files.len(),
        ensures
            self.step_input(i) == files[i],
    {
        if i > 0 {
            assert(self.plan.steps@[i - 1].1.bytes@ == files[i - 1 + 1]);
        }
    }
}

impl<'a> Run<'a> {
    /// The whole Ninja file, where each setup and each step of the plan writes a text of its
    /// own and succeeds: a stanza for each setup that a step needs, in the order of first
    /// use, with the setup's number above it and an empty line below; then `# build targets`
    /// and what the steps write, in the order of the plan, each for the file of the step
    /// before it, or for the input file, and its own; then the file of the last step as the
    /// default target.
    pub proof fn law_file_emitted(
        self,
        outcome: (Emitter, std::io::Result<()>),
        files: Seq<Seq<u8>>,
        stanzas: Seq<Seq<u8>>,
        lines: Seq<Seq<u8>>,
    ) -> (uses: (Seq<SetupRef>, Seq<int>))
        requires
            call_ensures(Run::<'a>::emit, (self,), outcome),
            files.len() == self.plan.steps@.len() + 1,
            files[0] == self.plan.start.bytes@,
            forall|i: int|
                0 <= i < self.plan.steps@.len() ==> (#[trigger] self.plan.steps@[i]).1.bytes@
                    == files[i + 1],
            stanzas.len() == self.driver.setups@.len(),
            forall|i: int, s: SetupRef|
                0 <= i < self.plan.steps@.len() && self.driver.ops@[(
                #[trigger] self.plan.steps@[i]).0.0 as int].meta.setup == Some(s)
                    ==> #[trigger] s.0 < stanzas.len(),
            forall|s: int, a: EmitterState, b: EmitterState, r: std::io::Result<()>|
                0 <= s < stanzas.len() && #[trigger] self.driver.setups@[s].inner.emits(a, b, r)
                    ==> r is Ok && b.out == a.out + stanzas[s] && b.config == a.config,
            lines.len() == self.plan.steps@.len(),
            forall|i: int, a: EmitterState, b: EmitterState, r: std::io::Result<()>|
                0 <= i < lines.len() && #[trigger] self.driver.ops@[
                    self.plan.steps@[i].0.0 as int
                ].impl_.inner.emits(files[i], files[i + 1], a, b, r) ==> r is Ok && b.out == a.out
                    + lines[i] && b.config == a.config,
        ensures
            ({
                let (order, firsts) = uses;
                let n = self.plan.steps@.len() as int;
                let blocks = Seq::new(
                    order.len(),
                    |j: int|
                        encode_utf8("# "@) + encode_utf8("setup"@ + decimal(order[j].0 as nat))
                            + encode_utf8("\n"@) + stanzas[order[j].0 as int] + encode_utf8("\n"@),
                );
                &&& firsts.len() == order.len()
                &&& forall|j: int|
                    0 <= j < order.len() ==> 0 <= #[trigger] firsts[j] < n
                        && self.driver.ops@[self.plan.steps@[firsts[j]].0.0 as int].meta.setup
                        == Some(order[j])
                &&& forall|j: int, k: int|
                    0 <= j < order.len() && 0 <= k < firsts[j] ==> self.driver.ops@[(
                    #[trigger] self.plan.steps@[k]).0.0 as int].meta.setup != Some(
                        #[trigger] order[j],
                    )
                &&& forall|i: int, j: int|
                    0 <= i < j < order.len() ==> #[trigger] firsts[i] < #[trigger] firsts[j]
                &&& forall|k: int, s: SetupRef|
                    0 <= k < n && self.driver.ops@[(
                    #[trigger] self.plan.steps@[k]).0.0 as int].meta.setup == Some(s)
                        ==> #[trigger] order.contains(s)
                &&& outcome.1 is Ok
                &&& outcome.0.config == self.config.data
                &&& outcome.0.out@ == blocks.flatten() + encode_utf8("# build targets\n"@)
                    + lines.flatten() + encode_utf8("\n"@) + encode_utf8("default "@) + files[n]
                    + encode_utf8("\n"@)
            }),
    {
        let n = self.plan.steps@.len() as int;
        let (order, firsts, gaps, ends, built) = self.law_emission_order(outcome, files);
        let blocks = Seq::new(
            order.len(),
            |j: int|
                encode_utf8("# "@) + encode_utf8("setup"@ + decimal(order[j].0 as nat))
                    + encode_utf8("\n"@) + stanzas[order[j].0 as int] + encode_utf8("\n"@),
        );
        assert forall|j: int| 0 <= j < order.len() implies (#[trigger] order[j]).0
            < stanzas.len() by {
            assert(0 <= firsts[j] < n);
            let step = self.plan.steps@[firsts[j]];
            assert(self.driver.ops@[step.0.0 as int].meta.setup == Some(order[j]));
        }
        assert(gaps.len() == order.len() + 1) by {
            if gaps.len() <= order.len() {
                assert(order[gaps.len() - 1].0 < stanzas.len());
            }
        }
        assert forall|j: int| 0 <= j < ends.len() implies (#[trigger] gaps[j + 1]).out
            =~= gaps[j].out + blocks[j] && gaps[j + 1].config == gaps[j].config by {
            assert(order[j].0 < stanzas.len());
            let end = ends[j];
            assert(end.out == gaps[j].out + (encode_utf8("# "@) + encode_utf8(
                "setup"@ + decimal(order[j].0 as nat),
            ) + encode_utf8("\n"@)) + stanzas[order[j].0 as int]);
        }
        lemma_appended(gaps, blocks, order.len() as int);
        assert(blocks.take(order.len() as int) =~= blocks);
        assert(gaps[0].out =~= Seq::<u8>::empty());
        assert(built.len() == n + 1);
        assert forall|i: int| 0 <= i < n implies (#[trigger] built[i + 1]).out =~= built[i].out
            + lines[i] && built[i + 1].config == built[i].config by {
            let before = built[i];
        }
        lemma_appended(built, lines, n);
        assert(lines.take(n) =~= lines);
        assert(outcome.0.out@ =~= blocks.flatten() + encode_utf8("# build targets\n"@)
            + lines.flatten() + encode_utf8("\n"@) + encode_utf8("default "@) + files[n]
            + encode_utf8("\n"@));
        (order, firsts)
    }

    /// The whole Ninja file of a plan of operations that apply Ninja rules and need no setup:
    /// one build command for each step, from the input file to the file of the first step,
    /// and from there always from the file of the step before to the file of the step, and
    /// the file of the last step as the default target.
    pub proof fn law_rules_file(
        self,
        outcome: (Emitter, std::io::Result<()>),
        rules: Seq<Seq<char>>,
        files: Seq<Seq<u8>>,
        lines: Seq<Seq<u8>>,
    )
        requires
            call_ensures(Run::<'a>::emit, (self,), outcome),
            files.len() == self.plan.steps@.len() + 1,
            files[0] == self.plan.start.bytes@,
            forall|i: int|
                0 <= i < self.plan.steps@.len() ==> (#[trigger] self.plan.steps@[i]).1.bytes@
                    == files[i + 1],
            rules.len() == self.plan.steps@.len(),
            forall|i: int|
                0 <= i < rules.len() ==> self.driver.ops@[(
                #[trigger] self.plan.steps@[i]).0.0 as int].applies_rule(rules[i]),
            forall|i: int|
                0 <= i < rules.len() ==> self.driver.ops@[(
                #[trigger] self.plan.steps@[i]).0.0 as int].meta.setup is None,
            lines.len() == self.plan.steps@.len(),
            forall|i: int|
                0 <= i < lines.len() ==> #[trigger] lines[i] == seq![
                    0x62u8,
                    0x75,
                    0x69,
                    0x6c,
                    0x64,
                    0x20,
                ] + files[i + 1] + seq![0x3au8, 0x20] + encode_utf8(rules[i]) + seq![0x20u8]
                    + files[i] + seq![0x0au8],
        ensures
            outcome.1 is Ok,
            outcome.0.config == self.config.data,
            outcome.0.out@ == encode_utf8("# build targets\n"@) + lines.flatten() + encode_utf8(
                "\n"@,
            ) + encode_utf8("default "@) + files[rules.len() as int] + encode_utf8("\n"@),
    {
        let n = self.plan.steps@.len() as int;
        let (order, firsts, gaps, ends, built) = self.law_emission_order(outcome, files);
        assert(order.len() == 0) by {
            if order.len() > 0 {
                assert(0 <= firsts[0] < n);
                let step = self.plan.steps@[firsts[0]];
                assert(self.driver.ops@[step.0.0 as int].meta.setup is None);
            }
        }
        assert(gaps.len() == 1);
        assert forall|i: int, a: EmitterState, b: EmitterState, r: std::io::Result<()>|
            0 <= i < n && #[trigger] self.driver.ops@[
                self.plan.steps@[i].0.0 as int
            ].impl_.inner.emits(files[i], files[i + 1], a, b, r) implies r is Ok && b.out == a.out
            + lines[i] && b.config == a.config by {
            let op = self.driver.ops@[self.plan.steps@[i].0.0 as int];
            op.law_applied_rule(rules[i], files[i], files[i + 1], a, b, r);
        }
        assert(built.len() == n + 1);
        assert forall|i: int| 0 <= i < n implies (#[trigger] built[i + 1]).out == built[i].out
            + lines[i] && built[i + 1].config == built[i].config by {
            let before = built[i];
        }
        lemma_appended(built, lines, n);
        assert(lines.take(n) =~= lines);
        assert(outcome.0.out@ =~= encode_utf8("# build targets\n"@) + lines.flatten()
            + encode_utf8("\n"@) + encode_utf8("default "@) + files[n] + encode_utf8("\n"@));
    }
}

/// Where each state of a trace has one part more than the state before it, the last has all
/// parts.
proof fn lemma_appended(trace: Seq<EmitterState>, parts: Seq<Seq<u8>>, n: int)
    requires
        0 <= n <= parts.len(),
        n < trace.len(),
        forall|i: int|
            0 <= i < n ==> (#[trigger] trace[i + 1]).out == trace[i].out + parts[i]
                && trace[i + 1].config == trace[i].config,
    ensures
        trace[n].out == trace[0].out + parts.take(n).flatten(),
        trace[n].config == trace[0].config,
    decreases n,
{
    if n > 0 {
        lemma_appended(trace, parts, n - 1);
        lemma_flatten_next(parts, n - 1);
        assert(trace[n - 1 + 1].out == trace[n - 1].out + parts[n - 1]);
        assert(trace[n].out =~= trace[0].out + parts.take(n).flatten());
    } else {
        assert(parts.take(0).flatten() =~= Seq::<u8>::empty());
        assert(trace[0].out =~= trace[0].out + parts.take(0).flatten());
    }
}

} // verus!
