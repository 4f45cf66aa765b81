use std::collections::BTreeSet;

use dashchat::node_model::{
    Action, Machine, Model, ModelError, OpAction, OpLifecycle, OpPhase, OpPhaseError, Phase,
    State, TopicAction,
};

fn subscribed(topic: u64) -> State<OpPhase> {
    let mut subs = BTreeSet::new();
    subs.insert(topic);
    State { ops: Default::default(), buffered: BTreeSet::new(), subs }
}

fn phase(s: &State<OpPhase>, hash: u64) -> Option<OpPhase> {
    match s.ops.get(&hash) {
        Some(Phase::Op(p)) => Some(*p),
        _ => None,
    }
}

#[test]
fn test_todo() {
    let model = Model::new(OpLifecycle);
    let initial = model.initial();
    assert!(initial.ops.is_empty());
    assert!(initial.buffered.is_empty());
    assert!(initial.subs.is_empty());
    assert!(!model.is_terminal(&initial));
}

#[test]
fn subscribing_adds_a_new_topic_once() {
    let model = Model::new(OpLifecycle);
    let s = model
        .transition(model.initial(), Action::Topic(TopicAction::Subscribe { topic: 1 }))
        .unwrap();
    assert!(s.subs.contains(&1));
    assert_eq!(s.subs.len(), 1);
    assert!(s.ops.is_empty());
    let r = model.transition(s, Action::Topic(TopicAction::Subscribe { topic: 1 }));
    assert!(matches!(r, Err(ModelError::TopicAlreadySubscribed(1))));
}

#[test]
fn subscribed_topic_accepts_operations() {
    let model = Model::new(OpLifecycle);
    let s = model
        .transition(model.initial(), Action::Topic(TopicAction::Subscribe { topic: 5 }))
        .unwrap();
    let s = model.transition(s, Action::Op(OpAction::ReceiveOp { topic: 5, hash: 9, from: 2 })).unwrap();
    assert_eq!(phase(&s, 9), Some(OpPhase::Pending));
}

#[test]
fn operations_go_through_their_lifecycle() {
    let model = Model::new(OpLifecycle);
    let s = model
        .transition(subscribed(7), Action::Op(OpAction::CreateOp { topic: 7, hash: 3 }))
        .unwrap();
    assert_eq!(phase(&s, 3), Some(OpPhase::Pending));
    let s = model.transition(s, Action::Op(OpAction::IngestOp { hash: 3 })).unwrap();
    assert_eq!(phase(&s, 3), Some(OpPhase::Ingested));
    let s = model.transition(s, Action::Op(OpAction::ProcessOp { hash: 3 })).unwrap();
    assert_eq!(phase(&s, 3), Some(OpPhase::Processed));
    let r = model.transition(s, Action::Op(OpAction::ProcessOp { hash: 3 }));
    assert!(matches!(r, Err(ModelError::Op(OpPhaseError::NotIngested(OpPhase::Processed)))));
}

#[test]
fn refused_operations() {
    let model = Model::new(OpLifecycle);
    let r = model.transition(
        subscribed(7),
        Action::Op(OpAction::ReceiveOp { topic: 8, hash: 3, from: 1 }),
    );
    assert!(matches!(r, Err(ModelError::TopicNotSubscribed(8))));
    let r = model.transition(subscribed(7), Action::Op(OpAction::IngestOp { hash: 3 }));
    assert!(matches!(r, Err(ModelError::UnknownOp(3))));
    let r = model.transition(
        subscribed(7),
        Action::Op(OpAction::BufferOp { hash: 3, deps: BTreeSet::new() }),
    );
    assert!(matches!(r, Err(ModelError::Unsupported)));
    let mut s = subscribed(7);
    s.ops.insert(4, Phase::Buffered { hash: 4, deps: BTreeSet::new() });
    let r = model.transition(s, Action::Op(OpAction::ProcessOp { hash: 4 }));
    assert!(matches!(r, Err(ModelError::OpBuffered(4))));
}

#[test]
fn lifecycle_steps() {
    let m = OpLifecycle;
    assert_eq!(m.initial(), OpPhase::Pending);
    assert!(m.is_terminal(&OpPhase::Processed));
    assert!(!m.is_terminal(&OpPhase::Ingested));
}
