//! A state-machine model of a node: which topics it is subscribed to and in
//! which phase each operation it knows of stands. The phases of a single
//! operation are a machine of their own, which the node model is given.
use std::collections::{BTreeMap, BTreeSet};
use vstd::prelude::*;

verus! {

/// A state machine: a transition relation over states and actions, with
/// its initial states.
pub trait Machine: Sized {
    type State;
    type Action;
    type Error;

    /// `state` is one the machine may start in.
    spec fn is_initial(&self, state: Self::State) -> bool;

    /// `result` is a possible outcome of `action` in `state`: the next state,
    /// or why the action is refused.
    spec fn steps(
        &self,
        state: Self::State,
        action: Self::Action,
        result: Result<Self::State, Self::Error>,
    ) -> bool;

    fn initial(&self) -> (s: Self::State)
        ensures
            self.is_initial(s),
    ;

    fn transition(&self, state: Self::State, action: Self::Action) -> (r: Result<
        Self::State,
        Self::Error,
    >)
        ensures
            self.steps(state, action, r),
    ;

    /// Whether no action leads out of `state`.
    fn is_terminal(&self, state: &Self::State) -> bool;
}

/// What the node model asks of the machine of a single operation.
#[derive(Debug, Clone, Copy, PartialEq, Eq, Structural)]
pub enum OpStep {
    Ingest,
    Process,
}

pub enum OpAction {
    CreateOp { topic: u64, hash: u64 },
    ReceiveOp { topic: u64, hash: u64, from: u64 },
    IngestOp { hash: u64 },
    ProcessOp { hash: u64 },
    BufferOp { hash: u64, deps: BTreeSet<u64> },
}

pub enum TopicAction {
    Subscribe { topic: u64 },
}

pub enum Action {
    Op(OpAction),
    Topic(TopicAction),
}

/// Where an operation stands: in the machine of single operations, or
/// buffered until its dependencies arrive.
pub enum Phase<S> {
    Op(S),
    Buffered { hash: u64, deps: BTreeSet<u64> },
}

pub ghost enum PhaseView<S> {
    Op(S),
    Buffered { hash: u64, deps: Set<u64> },
}

pub open spec fn phase_view<S>(p: Phase<S>) -> PhaseView<S> {
    match p {
        Phase::Op(s) => PhaseView::Op(s),
        Phase::Buffered { hash, deps } => PhaseView::Buffered { hash, deps: deps@ },
    }
}

/// The phase of every known operation, the buffered operations and the
/// subscribed topics.
pub struct State<S> {
    pub ops: BTreeMap<u64, Phase<S>>,
    pub buffered: BTreeSet<u64>,
    pub subs: BTreeSet<u64>,
}

pub ghost struct StateView<S> {
    pub ops: Map<u64, PhaseView<S>>,
    pub buffered: Set<u64>,
    pub subs: Set<u64>,
}

impl<S> View for State<S> {
    type V = StateView<S>;

    open spec fn view(&self) -> StateView<S> {
        StateView {
            ops: self.ops@.map_values(|p: Phase<S>| phase_view(p)),
            buffered: self.buffered@,
            subs: self.subs@,
        }
    }
}

/// Why the node model refuses an action.
#[derive(Debug)]
pub enum ModelError<E> {
    TopicAlreadySubscribed(u64),
    TopicNotSubscribed(u64),
    /// The operation is not known to the node.
    UnknownOp(u64),
    /// The operation is buffered and cannot be processed.
    OpBuffered(u64),
    /// The action is not modelled yet.
    Unsupported,
    /// The machine of single operations refused the step.
    Op(E),
}

/// The node model over a machine `O` of single operations.
pub struct Model<O> {
    pub op: O,
}

pub open spec fn result_view<S, E>(r: Result<State<S>, E>) -> Result<StateView<S>, E> {
    match r {
        Ok(s) => Ok(s@),
        Err(e) => Err(e),
    }
}

/// `r` is a possible outcome of `action` in `s`. Subscribing adds a topic
/// that is not yet subscribed, and is refused for one already subscribed;
/// creating or receiving an operation on a subscribed topic puts it at the
/// an initial state of the operation machine (for `OpLifecycle`, `Pending`:
/// see `lemma_created_op_pending`); ingesting or
/// processing it steps the operation machine; buffering is not modelled.
pub open spec fn model_steps<O: Machine<Action = OpStep>>(
    op: O,
    s: StateView<O::State>,
    action: Action,
    r: Result<StateView<O::State>, ModelError<O::Error>>,
) -> bool {
    match action {
        Action::Topic(TopicAction::Subscribe { topic }) => {
            if s.subs.contains(topic) {
                r == Err::<StateView<O::State>, ModelError<O::Error>>(
                    ModelError::TopicAlreadySubscribed(topic),
                )
            } else {
                r == Ok::<StateView<O::State>, ModelError<O::Error>>(
                    StateView { subs: s.subs.insert(topic), ..s },
                )
            }
        },
        Action::Op(OpAction::CreateOp { topic, hash }) => created(op, s, topic, hash, r),
        Action::Op(OpAction::ReceiveOp { topic, hash, .. }) => created(op, s, topic, hash, r),
        Action::Op(OpAction::IngestOp { hash }) => stepped(op, s, hash, OpStep::Ingest, r),
        Action::Op(OpAction::ProcessOp { hash }) => stepped(op, s, hash, OpStep::Process, r),
        Action::Op(OpAction::BufferOp { .. }) => r == Err::<
            StateView<O::State>,
            ModelError<O::Error>,
        >(ModelError::Unsupported),
    }
}

/// The outcome of creating or receiving operation `hash` on `topic`.
pub open spec fn created<O: Machine<Action = OpStep>>(
    op: O,
    s: StateView<O::State>,
    topic: u64,
    hash: u64,
    r: Result<StateView<O::State>, ModelError<O::Error>>,
) -> bool {
    if !s.subs.contains(topic) {
        r == Err::<StateView<O::State>, ModelError<O::Error>>(ModelError::TopicNotSubscribed(topic))
    } else {
        exists|i: O::State|
            #![trigger op.is_initial(i)]
            op.is_initial(i) && r == Ok::<StateView<O::State>, ModelError<O::Error>>(
                StateView { ops: s.ops.insert(hash, PhaseView::Op(i)), ..s },
            )
    }
}

/// The outcome of stepping operation `hash` through the operation machine.
pub open spec fn stepped<O: Machine<Action = OpStep>>(
    op: O,
    s: StateView<O::State>,
    hash: u64,
    step: OpStep,
    r: Result<StateView<O::State>, ModelError<O::Error>>,
) -> bool {
    if !s.ops.contains_key(hash) {
        r == Err::<StateView<O::State>, ModelError<O::Error>>(ModelError::UnknownOp(hash))
    } else {
        match s.ops[hash] {
            PhaseView::Op(o) => op_stepped(op, s, hash, o, step, r),
            PhaseView::Buffered { hash: h, .. } => match step {
                OpStep::Ingest => r == Err::<StateView<O::State>, ModelError<O::Error>>(
                    ModelError::Unsupported,
                ),
                OpStep::Process => r == Err::<StateView<O::State>, ModelError<O::Error>>(
                    ModelError::OpBuffered(h),
                ),
            },
        }
    }
}

/// The outcome of stepping operation `hash`, in phase `o` of the operation
/// machine.
pub open spec fn op_stepped<O: Machine<Action = OpStep>>(
    op: O,
    s: StateView<O::State>,
    hash: u64,
    o: O::State,
    step: OpStep,
    r: Result<StateView<O::State>, ModelError<O::Error>>,
) -> bool {
    exists|res: Result<O::State, O::Error>|
        #![trigger op.steps(o, step, res)]
        op.steps(o, step, res) && match res {
            Ok(o2) => r == Ok::<StateView<O::State>, ModelError<O::Error>>(
                StateView { ops: s.ops.insert(hash, PhaseView::Op(o2)), ..s },
            ),
            Err(e) => r == Err::<StateView<O::State>, ModelError<O::Error>>(ModelError::Op(e)),
        }
}

impl<O: Machine<Action = OpStep>> Model<O> {
    pub fn new(op: O) -> (m: Self)
        ensures
            m.op == op,
    {
        Model { op }
    }

    fn step_op(&self, state: State<O::State>, hash: u64, step: OpStep) -> (r: Result<
        State<O::State>,
        ModelError<O::Error>,
    >)
        ensures
            stepped(self.op, state@, hash, step, result_view(r)),
    {
        let mut state = state;
        let ghost s0 = state@;
        match state.ops.remove(&hash) {
            None => {
                assert(!s0.ops.contains_key(hash));
                Err(ModelError::UnknownOp(hash))
            },
            Some(Phase::Op(o)) => {
                let ghost o0 = o;
                assert(s0.ops[hash] == PhaseView::<O::State>::Op(o0));
                let res = self.op.transition(o, step);
                match res {
                    Ok(o2) => {
                        let ghost og = o2;
                        state.ops.insert(hash, Phase::Op(o2));
                        assert(state@.ops =~= s0.ops.insert(hash, PhaseView::Op(og)));
                        assert(state@ == StateView { ops: s0.ops.insert(hash, PhaseView::Op(og)), ..s0 });
                        let r = Ok(state);
                        assert(op_stepped(self.op, s0, hash, o0, step, result_view(r)));
                        r
                    },
                    Err(e) => {
                        let r = Err(ModelError::Op(e));
                        assert(op_stepped(self.op, s0, hash, o0, step, result_view(r)));
                        r
                    },
                }
            },
            Some(Phase::Buffered { hash: h, deps }) => {
                assert(s0.ops[hash] == PhaseView::<O::State>::Buffered { hash: h, deps: deps@ });
                match step {
                    OpStep::Ingest => Err(ModelError::Unsupported),
                    OpStep::Process => Err(ModelError::OpBuffered(h)),
                }
            },
        }
    }
}

impl<O: Machine<Action = OpStep>> Machine for Model<O> {
    type State = State<O::State>;

    type Action = Action;

    type Error = ModelError<O::Error>;

    open spec fn is_initial(&self, state: State<O::State>) -> bool {
        state@.ops == Map::<u64, PhaseView<O::State>>::empty() && state@.buffered == Set::<
            u64,
        >::empty() && state@.subs == Set::<u64>::empty()
    }

    open spec fn steps(
        &self,
        state: State<O::State>,
        action: Action,
        result: Result<State<O::State>, ModelError<O::Error>>,
    ) -> bool {
        model_steps(self.op, state@, action, result_view(result))
    }

    fn initial(&self) -> (s: State<O::State>) {
        let s = State { ops: BTreeMap::new(), buffered: BTreeSet::new(), subs: BTreeSet::new() };
        assert(s@.ops =~= Map::<u64, PhaseView<O::State>>::empty());
        s
    }

    fn transition(&self, state: State<O::State>, action: Action) -> (r: Result<
        State<O::State>,
        ModelError<O::Error>,
    >) {
        let mut state = state;
        let ghost s0 = state@;
        match action {
            Action::Topic(TopicAction::Subscribe { topic }) => {
                if state.subs.contains(&topic) {
                    return Err(ModelError::TopicAlreadySubscribed(topic));
                }
                state.subs.insert(topic);
                assert(state@.subs =~= s0.subs.insert(topic));
                assert(state@ == StateView { subs: s0.subs.insert(topic), ..s0 });
                Ok(state)
            },
            Action::Op(OpAction::CreateOp { topic, hash })
            | Action::Op(OpAction::ReceiveOp { topic, hash, .. }) => {
                if !state.subs.contains(&topic) {
                    return Err(ModelError::TopicNotSubscribed(topic));
                }
                let i = self.op.initial();
                let ghost ig = i;
                state.ops.insert(hash, Phase::Op(i));
                assert(state@.ops =~= s0.ops.insert(hash, PhaseView::Op(ig)));
                assert(state@ == StateView { ops: s0.ops.insert(hash, PhaseView::Op(ig)), ..s0 });
                Ok(state)
            },
            Action::Op(OpAction::IngestOp { hash }) => self.step_op(state, hash, OpStep::Ingest),
            Action::Op(OpAction::ProcessOp { hash }) => self.step_op(state, hash, OpStep::Process),
            Action::Op(OpAction::BufferOp { .. }) => Err(ModelError::Unsupported),
        }
    }

    /// The node never stops: no state is terminal.
    fn is_terminal(&self, state: &State<O::State>) -> (b: bool)
        ensures
            !b,
    {
        false
    }
}

/// The phases of a single operation: pending when created or received,
/// then ingested into the store, then processed.
#[derive(Debug, Clone, Copy, PartialEq, Eq, Structural)]
pub enum OpPhase {
    Pending,
    Ingested,
    Processed,
}

/// Why an operation cannot take a step.
#[derive(Debug, Clone, Copy, PartialEq, Eq, Structural)]
pub enum OpPhaseError {
    /// Only a pending operation can be ingested.
    NotPending(OpPhase),
    /// Only an ingested operation can be processed.
    NotIngested(OpPhase),
}

/// The machine of single operations: pending, ingested, processed, in that
/// order.
pub struct OpLifecycle;

pub open spec fn lifecycle_next(s: OpPhase, a: OpStep) -> Result<OpPhase, OpPhaseError> {
    match a {
        OpStep::Ingest => if s == OpPhase::Pending {
            Ok(OpPhase::Ingested)
        } else {
            Err(OpPhaseError::NotPending(s))
        },
        OpStep::Process => if s == OpPhase::Ingested {
            Ok(OpPhase::Processed)
        } else {
            Err(OpPhaseError::NotIngested(s))
        },
    }
}

impl Machine for OpLifecycle {
    type State = OpPhase;

    type Action = OpStep;

    type Error = OpPhaseError;

    open spec fn is_initial(&self, state: OpPhase) -> bool {
        state == OpPhase::Pending
    }

    open spec fn steps(&self, state: OpPhase, action: OpStep, result: Result<OpPhase, OpPhaseError>) -> bool {
        result == lifecycle_next(state, action)
    }

    fn initial(&self) -> (s: OpPhase) {
        OpPhase::Pending
    }

    fn transition(&self, state: OpPhase, action: OpStep) -> (r: Result<OpPhase, OpPhaseError>) {
        match action {
            OpStep::Ingest => if state == OpPhase::Pending {
                Ok(OpPhase::Ingested)
            } else {
                Err(OpPhaseError::NotPending(state))
            },
            OpStep::Process => if state == OpPhase::Ingested {
                Ok(OpPhase::Processed)
            } else {
                Err(OpPhaseError::NotIngested(state))
            },
        }
    }

    /// An operation is done once processed: then every step is refused.
    fn is_terminal(&self, state: &OpPhase) -> (b: bool)
        ensures
            b == (*state == OpPhase::Processed),
            b == (lifecycle_next(*state, OpStep::Ingest) is Err && lifecycle_next(
                *state,
                OpStep::Process,
            ) is Err),
    {
        *state == OpPhase::Processed
    }
}

/// With the machine of single operations, creating or receiving an
/// operation on a subscribed topic puts exactly that operation at `Pending`
/// and changes nothing else; on a topic not subscribed it is refused.
pub proof fn lemma_created_op_pending(
    s: StateView<OpPhase>,
    topic: u64,
    hash: u64,
    r: Result<StateView<OpPhase>, ModelError<OpPhaseError>>,
)
    requires
        created(OpLifecycle, s, topic, hash, r),
    ensures
        s.subs.contains(topic) ==> r == Ok::<StateView<OpPhase>, ModelError<OpPhaseError>>(
            StateView { ops: s.ops.insert(hash, PhaseView::Op(OpPhase::Pending)), ..s },
        ),
        !s.subs.contains(topic) ==> r == Err::<StateView<OpPhase>, ModelError<OpPhaseError>>(
            ModelError::TopicNotSubscribed(topic),
        ),
{
}

/// An operation goes pending, ingested, processed, and no other way: only a
/// pending operation can be ingested, and it then stands ingested; only an
/// ingested operation can be processed, and it then stands processed; any
/// other step is refused, naming the phase it was tried in.
pub proof fn lemma_lifecycle_order(s: OpPhase, a: OpStep, r: Result<OpPhase, OpPhaseError>)
    requires
        OpLifecycle.steps(s, a, r),
    ensures
        a == OpStep::Ingest ==> (r is Ok <==> s == OpPhase::Pending),
        a == OpStep::Process ==> (r is Ok <==> s == OpPhase::Ingested),
        a == OpStep::Ingest && r is Ok ==> r == Ok::<OpPhase, OpPhaseError>(OpPhase::Ingested),
        a == OpStep::Process && r is Ok ==> r == Ok::<OpPhase, OpPhaseError>(OpPhase::Processed),
        a == OpStep::Ingest && r is Err ==> r == Err::<OpPhase, OpPhaseError>(OpPhaseError::NotPending(s)),
        a == OpStep::Process && r is Err ==> r == Err::<OpPhase, OpPhaseError>(
            OpPhaseError::NotIngested(s),
        ),
{
}

/// An operation must be ingested before it is processed: in the node model,
/// processing an operation that stands pending is refused as not ingested.
pub proof fn lemma_process_needs_ingest(
    s: StateView<OpPhase>,
    hash: u64,
    r: Result<StateView<OpPhase>, ModelError<OpPhaseError>>,
)
    requires
        model_steps(OpLifecycle, s, Action::Op(OpAction::ProcessOp { hash }), r),
        s.ops.contains_key(hash),
        s.ops[hash] == PhaseView::<OpPhase>::Op(OpPhase::Pending),
    ensures
        r == Err::<StateView<OpPhase>, ModelError<OpPhaseError>>(
            ModelError::Op(OpPhaseError::NotIngested(OpPhase::Pending)),
        ),
{
    let res = choose|res: Result<OpPhase, OpPhaseError>|
        #![trigger OpLifecycle.steps(OpPhase::Pending, OpStep::Process, res)]
        OpLifecycle.steps(OpPhase::Pending, OpStep::Process, res) && match res {
            Ok(o2) => r == Ok::<StateView<OpPhase>, ModelError<OpPhaseError>>(
                StateView { ops: s.ops.insert(hash, PhaseView::Op(o2)), ..s },
            ),
            Err(e) => r == Err::<StateView<OpPhase>, ModelError<OpPhaseError>>(ModelError::Op(e)),
        };
    lemma_lifecycle_order(OpPhase::Pending, OpStep::Process, res);
}

/// A created operation that is ingested and then processed ends processed.
pub proof fn lemma_ingest_then_process(
    r1: Result<OpPhase, OpPhaseError>,
    r2: Result<OpPhase, OpPhaseError>,
)
    requires
        OpLifecycle.steps(OpPhase::Pending, OpStep::Ingest, r1),
        r1 is Ok,
        OpLifecycle.steps(r1->Ok_0, OpStep::Process, r2),
    ensures
        r2 == Ok::<OpPhase, OpPhaseError>(OpPhase::Processed),
{
    lemma_lifecycle_order(OpPhase::Pending, OpStep::Ingest, r1);
    lemma_lifecycle_order(r1->Ok_0, OpStep::Process, r2);
}

} // verus!
