//! Drivers: their states and operations, and planning the files of a request.

use crate::emitter::{Held, Operation, Setup};
use crate::graph::{
    is_best_walk, is_walk, law_best_walk_unique, law_connected_walk, law_walk_connects,
    lemma_precedes_first, reachable,
};
use crate::path::{
    bare, extension, file_name, file_stem, law_extension_given, lemma_dot, lemma_named,
    lemma_parent, lemma_plain, lemma_stem_whole, with_extension, FilePath, DOT, SEPARATOR,
};
use crate::refs::{OpRef, SetupRef, StateRef};
use crate::state::State;
use crate::tables::{OpTable, SetupTable, StateTable};
use crate::text::{contains_byte, from_utf8, str_eq};
use vstd::prelude::*;
use vstd::utf8::{encode_utf8, encode_utf8_decode_utf8, encode_utf8_valid_utf8};

verus! {

/// A set of states, the operations between them, and the setups that these need.
pub struct Driver {
    pub setups: SetupTable,
    pub states: StateTable,
    pub ops: OpTable,
}

impl Driver {
    /// The input and the output state of each operation.
    pub open spec fn edges(self) -> Seq<(StateRef, StateRef)> {
        self.ops@.map_values(|op: Operation| (op.meta.input, op.meta.output))
    }

    /// The tables are within what references can count, and so are the states that
    /// operations lead to.
    pub open spec fn wf(self) -> bool {
        &&& self.setups@.len() <= u32::MAX
        &&& self.states@.len() <= u32::MAX
        &&& self.ops@.len() <= u32::MAX
        &&& forall|i: int|
            0 <= i < self.ops@.len() ==> (#[trigger] self.ops@[i]).meta.output.valid()
    }
}

/// What to plan: a file in one state, wanted in another, perhaps under a given name.
#[derive(Debug)]
pub struct Request {
    pub start_state: StateRef,
    pub start_file: FilePath,
    pub end_state: StateRef,
    pub end_file: Option<FilePath>,
}

/// A file to start from, and the operations to apply with the file that each makes.
#[derive(Debug)]
pub struct Plan {
    pub start: FilePath,
    pub steps: Vec<(OpRef, FilePath)>,
}

impl Plan {
    /// The operations of the plan.
    pub open spec fn ops(self) -> Seq<OpRef> {
        self.steps@.map_values(|step: (OpRef, FilePath)| step.0)
    }
}

/// Why a request that has a path cannot be planned.
#[derive(Debug, Copy, Clone, PartialEq, Eq, Structural)]
pub enum PlanFault {
    /// The input path has no file name.
    NoFileName,
    /// The output state of the operation gives no extension for a file name.
    NoExtension(OpRef),
    /// An output file was asked for where nothing has to be done.
    NoSteps,
}

/// Whether the file name of a path has an extension of the state.
pub open spec fn indicates(path: Seq<u8>, state: State) -> bool {
    exists|i: int|
        0 <= i < state.extensions@.len() && extension(path) == Some(
            encode_utf8(#[trigger] state.extensions@[i]@),
        )
}

/// Whether `state` is the first of the states that satisfy a condition.
pub open spec fn is_first(
    state: Option<StateRef>,
    states: Seq<State>,
    condition: spec_fn(State) -> bool,
) -> bool {
    match state {
        Some(s) => {
            &&& s.0 < states.len()
            &&& condition(states[s.0 as int])
            &&& forall|i: int| 0 <= i < s.0 ==> !condition(#[trigger] states[i])
        },
        None => forall|i: int| 0 <= i < states.len() ==> !condition(#[trigger] states[i]),
    }
}

/// There is only one first state that satisfies a condition.
pub proof fn law_first_unique(
    a: Option<StateRef>,
    b: Option<StateRef>,
    states: Seq<State>,
    condition: spec_fn(State) -> bool,
)
    requires
        is_first(a, states, condition),
        is_first(b, states, condition),
    ensures
        a == b,
{
}

impl Driver {
    /// The state of a reference, if there is one.
    pub fn state_at(&self, state: StateRef) -> (data: Option<&State>)
        ensures
            data is Some <==> state.0 < self.states@.len(),
            data matches Some(d) ==> *d == self.states@[state.0 as int],
    {
        if (state.0 as usize) < self.states.len() {
            Some(self.states.at(state))
        } else {
            None
        }
    }

    /// The setup of a reference, if there is one.
    pub fn setup_at(&self, setup: SetupRef) -> (data: Option<&Held<Box<dyn Setup>>>)
        ensures
            data is Some <==> setup.0 < self.setups@.len(),
            data matches Some(d) ==> *d == self.setups@[setup.0 as int],
    {
        if (setup.0 as usize) < self.setups.len() {
            Some(self.setups.at(setup))
        } else {
            None
        }
    }

    /// The operation of a reference, if there is one.
    pub fn op_at(&self, op: OpRef) -> (data: Option<&Operation>)
        ensures
            data is Some <==> op.0 < self.ops@.len(),
            data matches Some(d) ==> *d == self.ops@[op.0 as int],
    {
        if (op.0 as usize) < self.ops.len() {
            Some(self.ops.at(op))
        } else {
            None
        }
    }
}

impl Driver {
    /// Whether a file that the operation makes can be given a name: its output state
    /// exists, and the first extension of that state can stand in a file name.
    pub open spec fn nameable(self, op: OpRef) -> bool {
        let output = self.ops@[op.0 as int].meta.output.0 as int;
        let extensions = self.states@[output].extensions@;
        &&& op.0 < self.ops@.len()
        &&& output < self.states@.len()
        &&& extensions.len() > 0
        &&& !encode_utf8(extensions[0]@).contains(SEPARATOR)
    }

    /// The name of the file that an operation makes: the stem, with the first
    /// extension of the operation's output state.
    pub open spec fn name_for(self, stem: Seq<u8>, op: OpRef) -> Seq<u8> {
        let output = self.ops@[op.0 as int].meta.output.0 as int;
        with_extension(stem, encode_utf8(self.states@[output].extensions@[0]@))
    }

    /// The fault of a request whose path is known, if it has one.
    pub open spec fn fault_on(self, req: Request, path: Seq<OpRef>) -> Option<PlanFault> {
        if file_stem(req.start_file@) is None {
            Some(PlanFault::NoFileName)
        } else if self.first_unnameable(path) is Some {
            Some(PlanFault::NoExtension(self.first_unnameable(path)->0))
        } else if req.end_file is Some && path.len() == 0 {
            Some(PlanFault::NoSteps)
        } else {
            None
        }
    }

    /// The first operation of a path whose file cannot be given a name.
    pub open spec fn first_unnameable(self, path: Seq<OpRef>) -> Option<OpRef>
        decreases path.len(),
    {
        if path.len() == 0 {
            None
        } else {
            match self.first_unnameable(path.drop_last()) {
                Some(op) => Some(op),
                None => if self.nameable(path.last()) {
                    None
                } else {
                    Some(path.last())
                },
            }
        }
    }

    /// A request can be planned, or there is no path for it.
    pub open spec fn plannable(self, req: Request) -> bool {
        forall|path: Seq<OpRef>| #[trigger]
            is_best_walk(self.edges(), path, req.start_state, req.end_state) ==> self.fault_on(
                req,
                path,
            ) is None
    }

    /// Whether a plan is what a request asks for: the best path to the end state, each
    /// file named after the input file, but for the last one where a name is given.
    pub open spec fn fulfils(self, plan: Plan, req: Request) -> bool {
        &&& is_best_walk(self.edges(), plan.ops(), req.start_state, req.end_state)
        &&& plan.start == req.start_file
        &&& forall|i: int|
            0 <= i < plan.steps@.len() ==> (#[trigger] plan.steps@[i]).1@ == (
            if i == plan.steps@.len() - 1 && req.end_file is Some {
                req.end_file->0@
            } else {
                self.name_for(file_stem(req.start_file@)->0, plan.steps@[i].0)
            })
    }

    /// Name the file that an operation makes.
    fn gen_name(&self, stem: &FilePath, op: OpRef) -> (name: FilePath)
        requires
            self.nameable(op),
        ensures
            name@ == self.name_for(stem@, op),
    {
        // Pick an appropriate extension for the output of this operation.
        let op = self.ops.at(op);
        let ext = &self.states.at(op.meta.output).extensions[0];
        stem.with_extension(ext.as_str())
    }

    /// Whether a file that the operation makes can be given a name.
    fn can_name(&self, op: OpRef) -> (can: bool)
        requires
            op.0 < self.ops@.len(),
        ensures
            can == self.nameable(op),
    {
        let output = self.ops.at(op).meta.output;
        if output.0 as usize >= self.states.len() {
            return false;
        }
        let state = self.states.at(output);
        if state.extensions.len() == 0 {
            return false;
        }
        !contains_byte(state.extensions[0].as_str().as_bytes(), SEPARATOR)
    }

    /// Check whether a request can be planned.
    pub fn check_plan(&self, req: &Request) -> (fault: Option<PlanFault>)
        requires
            self.wf(),
            req.start_state.valid(),
        ensures
            fault is None <==> self.plannable(*req),
            forall|path: Seq<OpRef>| #[trigger]
                is_best_walk(self.edges(), path, req.start_state, req.end_state) ==> fault
                    == self.fault_on(*req, path),
    {
        match self.find_path(req.start_state, req.end_state) {
            Some(path) => {
                let fault = self.path_fault(req, &path);
                proof {
                    assert forall|other: Seq<OpRef>| #[trigger]
                        is_best_walk(
                            self.edges(),
                            other,
                            req.start_state,
                            req.end_state,
                        ) implies other == path@ by {
                        law_best_walk_unique(
                            self.edges(),
                            other,
                            path@,
                            req.start_state,
                            req.end_state,
                        );
                    }
                }
                fault
            },
            None => None,
        }
    }

    /// The fault of a request whose path is known.
    fn path_fault(&self, req: &Request, path: &Vec<OpRef>) -> (fault: Option<PlanFault>)
        requires
            is_walk(self.edges(), path@, req.start_state, req.end_state),
        ensures
            fault == self.fault_on(*req, path@),
    {
        if req.start_file.file_stem().is_none() {
            return Some(PlanFault::NoFileName);
        }
        proof {
            law_walk_connects(self.edges(), path@, req.start_state, req.end_state);
        }
        for i in 0..path.len()
            invariant
                forall|k: int| 0 <= k < path@.len() ==> (#[trigger] path@[k]).0 < self.ops@.len(),
                self.first_unnameable(path@.take(i as int)) is None,
                file_stem(req.start_file@) is Some,
        {
            assert(path@.take(i + 1).drop_last() =~= path@.take(i as int));
            if !self.can_name(path[i]) {
                proof {
                    self.lemma_unnameable_stays(path@, i + 1);
                }
                return Some(PlanFault::NoExtension(path[i]));
            }
        }
        assert(path@.take(path@.len() as int) =~= path@);
        if req.end_file.is_some() && path.len() == 0 {
            Some(PlanFault::NoSteps)
        } else {
            None
        }
    }

    /// The first unnameable operation of a prefix is that of the whole path.
    proof fn lemma_unnameable_stays(self, path: Seq<OpRef>, n: int)
        requires
            0 <= n <= path.len(),
            self.first_unnameable(path.take(n)) is Some,
        ensures
            self.first_unnameable(path) == self.first_unnameable(path.take(n)),
        decreases path.len(),
    {
        if n == path.len() {
            assert(path.take(n) =~= path);
        } else {
            assert(path.drop_last().take(n) =~= path.take(n));
            self.lemma_unnameable_stays(path.drop_last(), n);
        }
    }

    /// Where no operation of a path is unnameable, each is nameable.
    proof fn lemma_all_nameable(self, path: Seq<OpRef>, i: int)
        requires
            self.first_unnameable(path) is None,
            0 <= i < path.len(),
        ensures
            self.nameable(path[i]),
        decreases path.len(),
    {
        if i < path.len() - 1 {
            self.lemma_all_nameable(path.drop_last(), i);
        }
    }

    /// Plan how to get from the state and file of a request to its end state.
    pub fn plan(&self, req: Request) -> (plan: Option<Plan>)
        requires
            self.wf(),
            req.start_state.valid(),
            self.plannable(req),
        ensures
            match plan {
                Some(p) => self.fulfils(p, req),
                None => !reachable(self.edges(), req.start_state, req.end_state),
            },
    {
        // Find a path through the states.
        let path = match self.find_path(req.start_state, req.end_state) {
            Some(path) => path,
            None => return None,
        };
        assert(self.fault_on(req, path@) is None);

        // Generate filenames for each step.
        let mut stem = FilePath { bytes: Vec::new() };
        stem.bytes.extend_from_slice(req.start_file.file_stem().expect("input filename missing"));
        assert(stem@ =~= file_stem(req.start_file@)->0);
        let mut steps: Vec<(OpRef, FilePath)> = Vec::new();
        for i in 0..path.len()
            invariant
                steps@.len() == i,
                self.first_unnameable(path@) is None,
                forall|k: int|
                    0 <= k < i ==> (#[trigger] steps@[k]).0 == path@[k] && steps@[k].1@
                        == self.name_for(stem@, path@[k]),
        {
            proof {
                self.lemma_all_nameable(path@, i as int);
            }
            let filename = self.gen_name(&stem, path[i]);
            steps.push((path[i], filename));
        }

        // If we have a specified output filename, use that instead of the generated one.
        let Request { start_file, end_file, start_state, end_state } = req;
        if let Some(end_file) = end_file {
            let last_step = steps.pop().expect("no steps");
            steps.push((last_step.0, end_file));
        }
        let plan = Plan { start: start_file, steps };
        assert(plan.ops() =~= path@);
        Some(plan)
    }

    /// The first state that the extension of a path indicates.
    pub fn guess_state(&self, path: &FilePath) -> (state: Option<StateRef>)
        requires
            self.wf(),
        ensures
            is_first(state, self.states@, |s: State| indicates(path@, s)),
    {
        let ext = match path.extension() {
            Some(ext) => ext,
            None => return None,
        };
        let ext = match from_utf8(ext) {
            Some(ext) => ext,
            None => {
                proof {
                    assert forall|i: int| 0 <= i < self.states@.len() implies !indicates(
                        path@,
                        #[trigger] self.states@[i],
                    ) by {
                        let state = self.states@[i];
                        if indicates(path@, state) {
                            let k = choose|k: int|
                                0 <= k < state.extensions@.len() && extension(path@) == Some(
                                    encode_utf8(#[trigger] state.extensions@[k]@),
                                );
                            encode_utf8_valid_utf8(state.extensions@[k]@);
                        }
                    }
                }
                return None;
            },
        };
        let mut i: u32 = 0;
        while (i as usize) < self.states.len()
            invariant
                self.wf(),
                i <= self.states@.len(),
                extension(path@) == Some(encode_utf8(ext@)),
                forall|k: int| 0 <= k < i ==> !indicates(path@, #[trigger] self.states@[k]),
            decreases self.states@.len() - i,
        {
            let state = self.states.at(StateRef(i));
            proof {
                lemma_indicates(path@, *state, ext@);
            }
            if state.ext_matches(ext) {
                return Some(StateRef(i));
            }
            i = i + 1;
        }
        None
    }

    /// The first state of the given name.
    pub fn get_state(&self, name: &str) -> (state: Option<StateRef>)
        requires
            self.wf(),
        ensures
            is_first(state, self.states@, |s: State| s.name@ == name@),
    {
        let mut i: u32 = 0;
        while (i as usize) < self.states.len()
            invariant
                self.wf(),
                i <= self.states@.len(),
                forall|k: int| 0 <= k < i ==> (#[trigger] self.states@[k]).name@ != name@,
            decreases self.states@.len() - i,
        {
            if str_eq(self.states.at(StateRef(i)).name.as_str(), name) {
                return Some(StateRef(i));
            }
            i = i + 1;
        }
        None
    }
}

/// A path whose extension spells `ext` indicates the states that have it.
proof fn lemma_indicates(path: Seq<u8>, state: State, ext: Seq<char>)
    requires
        extension(path) == Some(encode_utf8(ext)),
    ensures
        indicates(path, state) == state.has_extension(ext),
{
    encode_utf8_decode_utf8(ext);
    if indicates(path, state) {
        let k = choose|k: int|
            0 <= k < state.extensions@.len() && extension(path) == Some(
                encode_utf8(#[trigger] state.extensions@[k]@),
            );
        encode_utf8_decode_utf8(state.extensions@[k]@);
    }
}

impl Driver {
    /// The extension that files made by an operation are given.
    pub open spec fn extension_for(self, op: OpRef) -> Seq<u8> {
        let output = self.ops@[op.0 as int].meta.output.0 as int;
        encode_utf8(self.states@[output].extensions@[0]@)
    }

    /// The file names of a plan tell the states of the files: each indicates the
    /// output state of the operation that makes the file. A name that the request
    /// gave is left out, and so are extensions that a file name does not give back
    /// (the empty one, and those with a dot) and input files whose stem is not a name
    /// that can be extended, such as `.`.
    pub proof fn law_plan_names_indicate(self, plan: Plan, req: Request, i: int)
        requires
            self.fulfils(plan, req),
            self.plannable(req),
            0 <= i < plan.steps@.len(),
            i < plan.steps@.len() - 1 || req.end_file is None,
            self.extension_for(plan.steps@[i].0).len() > 0,
            !self.extension_for(plan.steps@[i].0).contains(DOT),
            file_name(bare(file_stem(req.start_file@)->0)) is Some,
        ensures
            indicates(
                plan.steps@[i].1@,
                self.states@[self.ops@[plan.steps@[i].0.0 as int].meta.output.0 as int],
            ),
    {
        let op = plan.steps@[i].0;
        assert(self.fault_on(req, plan.ops()) is None);
        assert(plan.ops()[i] == op);
        self.lemma_all_nameable(plan.ops(), i);
        let stem = file_stem(req.start_file@)->0;
        law_extension_given(stem, self.extension_for(op));
        let output = self.states@[self.ops@[op.0 as int].meta.output.0 as int];
        assert(encode_utf8(output.extensions@[0]@) == self.extension_for(op));
    }
}

impl Driver {
    /// A reference gives what stands at its index in the table of the driver, and nothing
    /// exactly if its index is past the end of the table.
    pub proof fn law_lookup(
        &self,
        state: (StateRef, Option<&State>),
        op: (OpRef, Option<&Operation>),
        setup: (SetupRef, Option<&Held<Box<dyn Setup>>>),
    )
        requires
            call_ensures(Driver::state_at, (self, state.0), state.1),
            call_ensures(Driver::op_at, (self, op.0), op.1),
            call_ensures(Driver::setup_at, (self, setup.0), setup.1),
        ensures
            state.1 is None <==> state.0.0 >= self.states@.len(),
            state.1 matches Some(data) ==> *data == self.states@[state.0.0 as int],
            op.1 is None <==> op.0.0 >= self.ops@.len(),
            op.1 matches Some(data) ==> *data == self.ops@[op.0.0 as int],
            setup.1 is None <==> setup.0.0 >= self.setups@.len(),
            setup.1 matches Some(data) ==> *data == self.setups@[setup.0.0 as int],
    {
    }

    /// A guess goes by the whole extension: the state given has an extension equal to
    /// that of the path, none of the states before it has one, and no state is given
    /// only where no state has one, or where the path has no extension.
    pub proof fn law_guess(&self, path: &FilePath, ext: Option<&[u8]>, state: Option<StateRef>)
        requires
            call_ensures(Driver::guess_state, (self, path), state),
            call_ensures(FilePath::extension, (path,), ext),
        ensures
            ext is None ==> state is None,
            state matches Some(s) ==> {
                &&& s.0 < self.states@.len()
                &&& exists|i: int|
                    0 <= i < self.states@[s.0 as int].extensions@.len() && encode_utf8(
                        (#[trigger] self.states@[s.0 as int].extensions@[i])@,
                    ) == ext->0@
            },
            forall|k: int, i: int|
                #![trigger self.states@[k].extensions@[i]]
                {
                    &&& 0 <= k < self.states@.len()
                    &&& state matches Some(s) ==> k < s.0
                    &&& 0 <= i < self.states@[k].extensions@.len()
                    &&& ext is Some
                } ==> encode_utf8(self.states@[k].extensions@[i]@) != ext->0@,
    {
        if let Some(s) = state {
            let found = self.states@[s.0 as int];
            assert(indicates(path@, found));
            let i = choose|i: int|
                0 <= i < found.extensions@.len() && extension(path@) == Some(
                    encode_utf8(#[trigger] found.extensions@[i]@),
                );
            assert(encode_utf8(self.states@[s.0 as int].extensions@[i]@) == ext->0@);
        }
        assert forall|k: int, i: int|
            #![trigger self.states@[k].extensions@[i]]
            {
                &&& 0 <= k < self.states@.len()
                &&& state matches Some(s) ==> k < s.0
                &&& 0 <= i < self.states@[k].extensions@.len()
                &&& ext is Some
            } implies encode_utf8(self.states@[k].extensions@[i]@) != ext->0@ by {
            let other = self.states@[k];
            assert(!indicates(path@, other));
            assert(extension(path@) != Some(encode_utf8(other.extensions@[i]@)));
        }
    }

    /// For a file whose name is a stem, a dot and an extension, the guess is the first
    /// state that has this extension, spelled in full, among its own.
    pub proof fn law_guess_by_name(
        &self,
        path: &FilePath,
        dir: Seq<u8>,
        stem: Seq<u8>,
        ext: Seq<char>,
        state: Option<StateRef>,
    )
        requires
            path.bytes@ == dir + stem + seq![0x2eu8] + encode_utf8(ext),
            dir.len() == 0 || dir.last() == 0x2f,
            stem.len() > 0,
            !stem.contains(0x2f),
            !encode_utf8(ext).contains(0x2f),
            !encode_utf8(ext).contains(0x2e),
            ext.len() > 0 || stem != seq![0x2eu8],
            call_ensures(Driver::guess_state, (self, path), state),
        ensures
            state matches Some(s) ==> {
                &&& s.0 < self.states@.len()
                &&& exists|i: int|
                    0 <= i < self.states@[s.0 as int].extensions@.len()
                        && (#[trigger] self.states@[s.0 as int].extensions@[i])@ == ext
            },
            forall|k: int, i: int|
                #![trigger self.states@[k].extensions@[i]]
                {
                    &&& 0 <= k < self.states@.len()
                    &&& state matches Some(s) ==> k < s.0
                    &&& 0 <= i < self.states@[k].extensions@.len()
                } ==> self.states@[k].extensions@[i]@ != ext,
    {
        if ext.len() > 0 {
            encode_utf8_decode_utf8(ext);
            assert(encode_utf8(ext).len() > 0) by {
                if encode_utf8(ext).len() == 0 {
                    assert(encode_utf8(ext) =~= encode_utf8(Seq::<char>::empty()));
                    encode_utf8_decode_utf8(Seq::<char>::empty());
                }
            }
        }
        lemma_named(dir, stem, encode_utf8(ext));
        if let Some(s) = state {
            let found = self.states@[s.0 as int];
            assert(indicates(path@, found));
            lemma_indicates(path@, found, ext);
            let i = choose|i: int|
                0 <= i < found.extensions@.len() && #[trigger] found.extensions@[i]@ == ext;
            assert(self.states@[s.0 as int].extensions@[i]@ == ext);
        }
        assert forall|k: int, i: int|
            #![trigger self.states@[k].extensions@[i]]
            {
                &&& 0 <= k < self.states@.len()
                &&& state matches Some(s) ==> k < s.0
                &&& 0 <= i < self.states@[k].extensions@.len()
            } implies self.states@[k].extensions@[i]@ != ext by {
            let other = self.states@[k];
            assert(!indicates(path@, other));
            assert(extension(path@) != Some(encode_utf8(other.extensions@[i]@)));
        }
    }

    /// The state of a name is the first that has exactly this name; none is given only
    /// where no state has it.
    pub proof fn law_get_state(&self, name: &str, state: Option<StateRef>)
        requires
            call_ensures(Driver::get_state, (self, name), state),
        ensures
            state matches Some(s) ==> s.0 < self.states@.len() && self.states@[s.0 as int].name@
                == name@,
            forall|k: int|
                0 <= k < self.states@.len() && (state matches Some(s) ==> k < s.0) ==> (
                #[trigger] self.states@[k]).name@ != name@,
    {
    }
}

impl Driver {
    /// The operations found are operations of the driver. The first takes up the start
    /// state, each other one the state that the one before it comes to, and the last comes
    /// to the end state.
    pub proof fn law_path_connects(&self, start: StateRef, end: StateRef, path: Vec<OpRef>)
        requires
            call_ensures(Driver::find_path, (self, start, end), Some(path)),
        ensures
            forall|i: int| 0 <= i < path@.len() ==> (#[trigger] path@[i]).0 < self.ops@.len(),
            forall|i: int|
                0 < i < path@.len() ==> self.ops@[(#[trigger] path@[i]).0 as int].meta.input
                    == self.ops@[path@[i - 1].0 as int].meta.output,
            path@.len() == 0 ==> start == end,
            path@.len() > 0 ==> {
                &&& self.ops@[path@[0].0 as int].meta.input == start
                &&& self.ops@[path@[path@.len() - 1].0 as int].meta.output == end
            },
    {
        law_walk_connects(self.edges(), path@, start, end);
        assert forall|i: int| 0 < i < path@.len() implies self.ops@[(
        #[trigger] path@[i]).0 as int].meta.input == self.ops@[path@[i
            - 1].0 as int].meta.output by {
            assert(path@[i - 1].0 < self.edges().len());
        }
    }

    /// Whenever any operations lead from the start state to the end state, a path is found.
    /// It is no longer than they are, and where it is as long, it has the operation that
    /// was added first at the first place where the two differ.
    pub proof fn law_path_best(
        &self,
        start: StateRef,
        end: StateRef,
        path: Option<Vec<OpRef>>,
        other: Seq<OpRef>,
    )
        requires
            call_ensures(Driver::find_path, (self, start, end), path),
            forall|i: int| 0 <= i < other.len() ==> (#[trigger] other[i]).0 < self.ops@.len(),
            forall|i: int|
                0 < i < other.len() ==> self.ops@[(#[trigger] other[i]).0 as int].meta.input
                    == self.ops@[other[i - 1].0 as int].meta.output,
            other.len() == 0 ==> start == end,
            other.len() > 0 ==> {
                &&& self.ops@[other[0].0 as int].meta.input == start
                &&& self.ops@[other[other.len() - 1].0 as int].meta.output == end
            },
        ensures
            path is Some,
            path->0@.len() <= other.len(),
            path->0@.len() == other.len() ==> forall|k: int|
                {
                    &&& 0 <= k < other.len()
                    &&& path->0@.take(k) == other.take(k)
                    &&& (#[trigger] path->0@[k]) != other[k]
                } ==> path->0@[k].0 < other[k].0,
    {
        let edges = self.edges();
        assert forall|i: int| 0 < i < other.len() implies edges[(#[trigger] other[i]).0 as int].0
            == edges[other[i - 1].0 as int].1 by {
            assert(other[i - 1].0 < self.ops@.len());
        }
        law_connected_walk(edges, other, start, end);
        assert(is_walk(edges, other, start, end));
        lemma_precedes_first(path->0@, other);
    }

    /// A request has a plan exactly if its end state can be reached from its start state,
    /// and the operations of the plan are those that lead there, in the same order.
    pub proof fn law_plan_follows(
        &self,
        req: Request,
        plan: Option<Plan>,
        path: Option<Vec<OpRef>>,
    )
        requires
            call_ensures(Driver::plan, (self, req), plan),
            call_ensures(Driver::find_path, (self, req.start_state, req.end_state), path),
        ensures
            plan is Some <==> path is Some,
            plan is Some ==> plan->0.steps@.len() == path->0@.len(),
            plan is Some ==> forall|i: int|
                0 <= i < path->0@.len() ==> (#[trigger] plan->0.steps@[i]).0 == path->0@[i],
    {
        if plan is Some && path is Some {
            let ops = plan->0.ops();
            law_best_walk_unique(
                self.edges(),
                ops,
                path->0@,
                req.start_state,
                req.end_state,
            );
            assert forall|i: int| 0 <= i < path->0@.len() implies (
            #[trigger] plan->0.steps@[i]).0 == path->0@[i] by {
                assert(ops[i] == plan->0.steps@[i].0);
            }
        } else if plan is Some {
            assert(is_walk(self.edges(), plan->0.ops(), req.start_state, req.end_state));
        } else if path is Some {
            assert(is_walk(self.edges(), path->0@, req.start_state, req.end_state));
        }
    }

    /// A plan starts from the file of the request. Where the request names the file to
    /// make, this is the file of the last step.
    pub proof fn law_plan_ends(&self, req: Request, plan: Plan)
        requires
            self.plannable(req),
            call_ensures(Driver::plan, (self, req), Some(plan)),
        ensures
            plan.start.bytes@ == req.start_file.bytes@,
            req.end_file matches Some(file) ==> {
                &&& plan.steps@.len() > 0
                &&& plan.steps@[plan.steps@.len() - 1].1.bytes@ == file.bytes@
            },
    {
        assert(self.fault_on(req, plan.ops()) is None);
        if req.end_file is Some {
            assert(plan.ops().len() == plan.steps@.len());
            let last = plan.steps@[plan.steps@.len() - 1];
            assert(last.1@ == req.end_file->0@);
        }
    }

    /// The file of every step that the request does not name itself: the stem of the input
    /// file, byte for byte, then a dot and the first extension of the state that the
    /// operation of the step comes to, or nothing where this extension is empty. The stem
    /// here has no dot but perhaps a leading one.
    pub proof fn law_plan_names(
        &self,
        req: Request,
        plan: Plan,
        dir: Seq<u8>,
        stem: Seq<u8>,
        ext: Seq<u8>,
        i: int,
    )
        requires
            call_ensures(Driver::plan, (self, req), Some(plan)),
            req.start_file.bytes@ == dir + stem + seq![0x2eu8] + ext || req.start_file.bytes@
                == dir + stem,
            dir.len() == 0 || dir.last() == 0x2f,
            stem.len() > 0,
            !stem.contains(0x2f),
            forall|k: int| 0 < k < stem.len() ==> #[trigger] stem[k] != 0x2e,
            stem != seq![0x2eu8],
            !ext.contains(0x2f),
            !ext.contains(0x2e),
            0 <= i < plan.steps@.len(),
            i < plan.steps@.len() - 1 || req.end_file is None,
        ensures
            ({
                let op = self.ops@[plan.steps@[i].0.0 as int];
                let new_ext = encode_utf8(
                    self.states@[op.meta.output.0 as int].extensions@[0]@,
                );
                plan.steps@[i].1.bytes@ == (if new_ext.len() == 0 {
                    stem
                } else {
                    stem + seq![0x2eu8] + new_ext
                })
            }),
    {
        if req.start_file@ == dir + stem {
            lemma_plain(dir, stem);
        } else {
            lemma_named(dir, stem, ext);
        }
        let none = Seq::<u8>::empty();
        lemma_plain(none, stem);
        assert(none + stem =~= stem);
        let step = plan.steps@[i];
        assert(file_stem(req.start_file@) == Some(stem));
        assert(step.1@ == self.name_for(stem, step.0));
        assert(stem.take(0) + stem =~= stem);
        let op = self.ops@[step.0.0 as int];
        let new_ext = encode_utf8(self.states@[op.meta.output.0 as int].extensions@[0]@);
        if new_ext.len() == 0 {
            assert(step.1.bytes@ =~= stem);
        } else {
            assert(step.1.bytes@ =~= stem + seq![0x2eu8] + new_ext);
        }
    }

    /// The file of every step that the request does not name itself, where the input file
    /// has more than one dot in its name: the name up to the last dot but one, byte for
    /// byte, then a dot and the first extension of the state that the operation of the
    /// step comes to, or nothing where this extension is empty.
    pub proof fn law_plan_dotted_names(
        &self,
        req: Request,
        plan: Plan,
        dir: Seq<u8>,
        base: Seq<u8>,
        inner: Seq<u8>,
        ext: Seq<u8>,
        i: int,
    )
        requires
            call_ensures(Driver::plan, (self, req), Some(plan)),
            req.start_file.bytes@ == dir + base + seq![0x2eu8] + inner + seq![0x2eu8] + ext,
            dir.len() == 0 || dir.last() == 0x2f,
            base.len() > 0,
            !base.contains(0x2f),
            base != seq![0x2eu8],
            !inner.contains(0x2f),
            !inner.contains(0x2e),
            !ext.contains(0x2f),
            !ext.contains(0x2e),
            0 <= i < plan.steps@.len(),
            i < plan.steps@.len() - 1 || req.end_file is None,
        ensures
            ({
                let op = self.ops@[plan.steps@[i].0.0 as int];
                let new_ext = encode_utf8(
                    self.states@[op.meta.output.0 as int].extensions@[0]@,
                );
                plan.steps@[i].1.bytes@ == (if new_ext.len() == 0 {
                    base
                } else {
                    base + seq![0x2eu8] + new_ext
                })
            }),
    {
        let none = Seq::<u8>::empty();
        let stem = base + seq![0x2eu8] + inner;
        assert(stem[base.len() as int] == 0x2e);
        assert(stem != seq![0x2eu8]) by {
            assert(seq![0x2eu8].len() == 1);
        }
        assert forall|k: int| 0 <= k < stem.len() implies stem[k] != 0x2f by {
            if k < base.len() {
                assert(stem[k] == base[k]);
            } else if k > base.len() {
                assert(stem[k] == inner[k - base.len() - 1]);
            }
        }
        assert(req.start_file@ =~= dir + stem + seq![0x2eu8] + ext);
        lemma_named(dir, stem, ext);
        lemma_named(none, base, inner);
        assert(none + base + seq![DOT] + inner =~= stem);
        let cut = none + base + seq![DOT] + none;
        assert(bare(stem) =~= cut);
        lemma_named(none, base, none);
        assert(cut.take(0) + base =~= base);
        let step = plan.steps@[i];
        assert(step.1@ == self.name_for(stem, step.0));
        let op = self.ops@[step.0.0 as int];
        let new_ext = encode_utf8(self.states@[op.meta.output.0 as int].extensions@[0]@);
        if new_ext.len() == 0 {
            assert(step.1.bytes@ =~= base);
        } else {
            assert(step.1.bytes@ =~= base + seq![0x2eu8] + new_ext);
        }
    }

    /// Whatever path the input file has, the file of every step that the request does not
    /// name itself goes by the stem of the input file alone. It is what stands before the
    /// last dot of the stem, or all of a stem without a dot but a leading one, then a dot
    /// and the first extension of the state that the operation of the step comes to, or
    /// nothing where this extension is empty. A stem that is `.`, and what begins with two
    /// dots and has no other, can be given no extension.
    pub proof fn law_plan_names_by_stem(
        &self,
        req: Request,
        plan: Plan,
        stem: &[u8],
        base: Seq<u8>,
        inner: Seq<u8>,
        i: int,
    )
        requires
            call_ensures(Driver::plan, (self, req), Some(plan)),
            call_ensures(FilePath::file_stem, (&req.start_file,), Some(stem)),
            ({
                ||| base == stem@ && forall|k: int|
                    0 < k < base.len() ==> #[trigger] base[k] != 0x2e
                ||| stem@ == base + seq![0x2eu8] + inner && base.len() > 0 && !inner.contains(0x2e)
            }),
            0 <= i < plan.steps@.len(),
            i < plan.steps@.len() - 1 || req.end_file is None,
        ensures
            ({
                let op = self.ops@[plan.steps@[i].0.0 as int];
                let new_ext = encode_utf8(
                    self.states@[op.meta.output.0 as int].extensions@[0]@,
                );
                plan.steps@[i].1.bytes@ == (if base == seq![0x2eu8] {
                    if stem@ == base {
                        seq![0x2eu8]
                    } else {
                        seq![0x2eu8, 0x2e]
                    }
                } else if new_ext.len() == 0 {
                    base
                } else {
                    base + seq![0x2eu8] + new_ext
                })
            }),
    {
        let none = Seq::<u8>::empty();
        let step = plan.steps@[i];
        let op = self.ops@[step.0.0 as int];
        let new_ext = encode_utf8(self.states@[op.meta.output.0 as int].extensions@[0]@);
        lemma_stem_whole(req.start_file@);
        assert(step.1@ == self.name_for(stem@, step.0));
        assert(step.1@ == with_extension(stem@, new_ext));
        if stem@ == base {
            if base == seq![0x2eu8] {
                lemma_dot();
            } else {
                lemma_plain(none, base);
                assert(none + base =~= base);
                assert(base.take(0) + base =~= base);
            }
        } else {
            assert forall|k: int| 0 <= k < base.len() implies base[k] != 0x2f by {
                assert(base[k] == stem@[k]);
            }
            assert forall|k: int| 0 <= k < inner.len() implies inner[k] != 0x2f by {
                assert(inner[k] == stem@[base.len() + 1 + k]);
            }
            let cut = none + base + seq![DOT] + none;
            if base == seq![0x2eu8] {
                assert(base.len() == 1 && base[0] == DOT);
                assert(cut =~= none + seq![DOT, DOT]);
                lemma_parent(none);
                if inner.len() == 0 {
                    assert(stem@ =~= cut);
                } else {
                    lemma_named(none, base, inner);
                    assert(none + base + seq![DOT] + inner =~= stem@);
                    assert(bare(stem@) =~= cut);
                }
                assert(cut =~= seq![DOT, DOT]);
            } else {
                lemma_named(none, base, inner);
                assert(none + base + seq![DOT] + inner =~= stem@);
                assert(bare(stem@) =~= cut);
                lemma_named(none, base, none);
                assert(cut.take(0) + base =~= base);
            }
        }
        if base != seq![0x2eu8] {
            if new_ext.len() == 0 {
                assert(step.1.bytes@ =~= base);
            } else {
                assert(step.1.bytes@ =~= base + seq![0x2eu8] + new_ext);
            }
        }
    }

    /// What a check finds for a request whose path is known. There is a fault exactly if
    /// the input path has no file name, if an operation of the path comes to a state that
    /// there is none of, that has no extensions, or whose first extension holds a
    /// separator, or if a file is asked for where no operation is needed. Of several
    /// faults the first of these is given, and of several operations the first.
    pub proof fn law_check(
        &self,
        req: &Request,
        fault: Option<PlanFault>,
        path: Vec<OpRef>,
        stem: Option<&[u8]>,
        i: int,
    )
        requires
            call_ensures(Driver::check_plan, (self, req), fault),
            call_ensures(
                Driver::find_path,
                (self, req.start_state, req.end_state),
                Some(path),
            ),
            call_ensures(FilePath::file_stem, (&req.start_file,), stem),
            0 <= i <= path@.len(),
            forall|k: int|
                0 <= k < i ==> {
                    let output = self.ops@[(#[trigger] path@[k]).0 as int].meta.output.0 as int;
                    &&& output < self.states@.len()
                    &&& self.states@[output].extensions@.len() > 0
                    &&& !encode_utf8(self.states@[output].extensions@[0]@).contains(0x2f)
                },
            i < path@.len() ==> {
                let output = self.ops@[path@[i].0 as int].meta.output.0 as int;
                ||| output >= self.states@.len()
                ||| self.states@[output].extensions@.len() == 0
                ||| encode_utf8(self.states@[output].extensions@[0]@).contains(0x2f)
            },
        ensures
            fault == (if stem is None {
                Some(PlanFault::NoFileName)
            } else if i < path@.len() {
                Some(PlanFault::NoExtension(path@[i]))
            } else if path@.len() == 0 && req.end_file is Some {
                Some(PlanFault::NoSteps)
            } else {
                None
            }),
    {
        law_walk_connects(self.edges(), path@, req.start_state, req.end_state);
        assert(fault == self.fault_on(*req, path@));
        self.lemma_nameable_so_far(path@, i);
        if i < path@.len() {
            assert(path@.take(i + 1).drop_last() =~= path@.take(i));
            assert(path@.take(i + 1).last() == path@[i]);
            assert(!self.nameable(path@[i]));
            assert(self.first_unnameable(path@.take(i + 1)) == Some(path@[i]));
            self.lemma_unnameable_stays(path@, i + 1);
        } else {
            assert(path@.take(i) =~= path@);
        }
    }

    /// Where the first operations of a path are nameable, none of them is unnameable.
    proof fn lemma_nameable_so_far(&self, path: Seq<OpRef>, i: int)
        requires
            0 <= i <= path.len(),
            forall|k: int| 0 <= k < i ==> self.nameable(#[trigger] path[k]),
        ensures
            self.first_unnameable(path.take(i)) is None,
        decreases i,
    {
        if i > 0 {
            self.lemma_nameable_so_far(path, i - 1);
            assert(path.take(i).drop_last() =~= path.take(i - 1));
            assert(path.take(i).last() == path[i - 1]);
        }
    }

    /// Every request to a driver whose tables references can count may be checked. One for
    /// which no operations lead to its end state has no fault, and one without a fault may
    /// be planned.
    pub proof fn law_checked(
        &self,
        req: Request,
        fault: Option<PlanFault>,
        path: Option<Vec<OpRef>>,
    )
        requires
            self.setups@.len() <= u32::MAX,
            self.states@.len() <= u32::MAX,
            self.ops@.len() <= u32::MAX,
            forall|i: int|
                0 <= i < self.ops@.len() ==> (#[trigger] self.ops@[i]).meta.output.0 < usize::MAX,
            req.start_state.0 < usize::MAX,
            call_ensures(Driver::check_plan, (self, &req), fault),
            call_ensures(Driver::find_path, (self, req.start_state, req.end_state), path),
        ensures
            call_requires(Driver::check_plan, (self, &req)),
            call_requires(Driver::find_path, (self, req.start_state, req.end_state)),
            path is None ==> fault is None,
            fault is None ==> call_requires(Driver::plan, (self, req)),
    {
        assert(self.wf() && req.start_state.valid());
    }
}

} // verus!
