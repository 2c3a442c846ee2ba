use cimvr_engine::engine::{Engine, TurnOutcome};
use cimvr_engine::types::{
    Access, ChannelId, EcsCommand, EcsData, EngineError, Locality, MessageData, QueryTerm, SendBuf,
    Stage, SystemDescriptor,
};

fn chan(name: &str, locality: Locality) -> ChannelId {
    ChannelId { id: name.as_bytes().to_vec(), locality }
}

fn local_msg(name: &str, payload: Vec<u8>) -> MessageData {
    MessageData { channel: chan(name, Locality::Local), data: payload, client: None }
}

fn empty_reply() -> SendBuf {
    SendBuf {
        systems: Vec::new(),
        commands: Vec::new(),
        ecs: EcsData { entities: Vec::new(), columns: Vec::new() },
        outbox: Vec::new(),
    }
}

fn system(stage: Stage, query: Vec<QueryTerm>, subs: Vec<ChannelId>) -> SystemDescriptor {
    SystemDescriptor { stage, query, subscriptions: subs }
}

/// Runs the init pass, handing each guest its declared systems reply.
fn run_init(e: &mut Engine, mut replies: Vec<SendBuf>) {
    e.init_plugins();
    while let Some((g, _buf)) = e.next_turn() {
        let reply = std::mem::replace(&mut replies[g], empty_reply());
        e.reply(TurnOutcome::Response(reply)).expect("init reply failed");
    }
}

#[test]
fn counter_scenario() {
    // Guest A: one Update system, no query, no subscriptions; emits a
    // little-endian u32 counter on "tick" each update.
    let mut e = Engine::new(1, false);
    run_init(
        &mut e,
        vec![SendBuf { systems: vec![system(Stage::Update, vec![], vec![])], ..empty_reply() }],
    );
    e.subscribe(chan("tick", Locality::Local));
    for n in 0u32..5 {
        e.dispatch(Stage::Update);
        let (g, buf) = e.next_turn().expect("a turn");
        assert_eq!(g, 0);
        assert_eq!(buf.system, Some(0));
        let reply = SendBuf {
            outbox: vec![local_msg("tick", n.to_le_bytes().to_vec())],
            ..empty_reply()
        };
        e.reply(TurnOutcome::Response(reply)).unwrap();
        assert!(e.next_turn().is_none());
    }
    let got = e.inbox(&chan("tick", Locality::Local));
    let vals: Vec<u32> = got
        .iter()
        .map(|m| u32::from_le_bytes([m.data[0], m.data[1], m.data[2], m.data[3]]))
        .collect();
    assert_eq!(vals, vec![0, 1, 2, 3, 4]);
    // drained: a second read is empty
    assert!(e.inbox(&chan("tick", Locality::Local)).is_empty());
}

#[test]
fn echo_fan_out() {
    // Guests A and B subscribe to "ping"; C emits one 0x42 ping per update.
    let ping = || chan("ping", Locality::Local);
    let mut e = Engine::new(3, false);
    run_init(
        &mut e,
        vec![
            SendBuf { systems: vec![system(Stage::Update, vec![], vec![ping()])], ..empty_reply() },
            SendBuf { systems: vec![system(Stage::Update, vec![], vec![ping()])], ..empty_reply() },
            SendBuf { systems: vec![system(Stage::Update, vec![], vec![])], ..empty_reply() },
        ],
    );
    // first update: C emits
    e.dispatch(Stage::Update);
    while let Some((g, buf)) = e.next_turn() {
        assert!(buf.inbox.is_empty());
        let reply = if g == 2 {
            SendBuf { outbox: vec![local_msg("ping", vec![0x42])], ..empty_reply() }
        } else {
            empty_reply()
        };
        e.reply(TurnOutcome::Response(reply)).unwrap();
    }
    // second update: A and B each see exactly one 0x42; C sees nothing
    e.dispatch(Stage::Update);
    let mut seen = Vec::new();
    while let Some((g, buf)) = e.next_turn() {
        if g == 2 {
            assert!(buf.inbox.is_empty());
        } else {
            assert_eq!(buf.inbox.len(), 1);
            let (c, msgs) = &buf.inbox[0];
            assert_eq!(c.id, b"ping".to_vec());
            assert_eq!(msgs.len(), 1);
            assert_eq!(msgs[0].data, vec![0x42]);
            seen.push(g);
        }
        e.reply(TurnOutcome::Response(empty_reply())).unwrap();
    }
    seen.sort();
    assert_eq!(seen, vec![0, 1]);
}

#[test]
fn ecs_round_trip_scenario() {
    // A creates an entity with "Pos" = (1.0, 2.0, 3.0); B's Update
    // system holds a write query on "Pos" and adds 1.0 per coordinate.
    let e1: u128 = 7;
    let pos = |x: f32, y: f32, z: f32| -> Vec<u8> {
        let mut v = Vec::new();
        v.extend_from_slice(&x.to_le_bytes());
        v.extend_from_slice(&y.to_le_bytes());
        v.extend_from_slice(&z.to_le_bytes());
        v
    };
    let mut e = Engine::new(2, false);
    run_init(
        &mut e,
        vec![
            SendBuf {
                systems: vec![],
                commands: vec![
                    EcsCommand::Create(e1),
                    EcsCommand::AddComponent(e1, b"Pos".to_vec(), pos(1.0, 2.0, 3.0)),
                ],
                ..empty_reply()
            },
            SendBuf {
                systems: vec![system(
                    Stage::Update,
                    vec![QueryTerm { component: b"Pos".to_vec(), access: Access::Write }],
                    vec![],
                )],
                ..empty_reply()
            },
        ],
    );
    e.dispatch(Stage::Update);
    let (g, buf) = e.next_turn().expect("turn for guest B");
    assert_eq!(g, 1);
    assert_eq!(buf.ecs.entities, vec![e1]);
    assert_eq!(buf.ecs.columns.len(), 1);
    let old = &buf.ecs.columns[0][0];
    let f = |i: usize| f32::from_le_bytes([old[4 * i], old[4 * i + 1], old[4 * i + 2], old[4 * i + 3]]);
    let written = pos(f(0) + 1.0, f(1) + 1.0, f(2) + 1.0);
    let reply = SendBuf {
        ecs: EcsData { entities: vec![e1], columns: vec![vec![written]] },
        ..empty_reply()
    };
    e.reply(TurnOutcome::Response(reply)).unwrap();
    assert!(e.next_turn().is_none());
    let stored = e.ecs().get(e1, &b"Pos".to_vec()).expect("Pos present").clone();
    assert_eq!(stored, pos(2.0, 3.0, 4.0));
}

#[test]
fn remote_separation() {
    let mut e = Engine::new(1, false);
    run_init(
        &mut e,
        vec![SendBuf { systems: vec![system(Stage::Update, vec![], vec![])], ..empty_reply() }],
    );
    e.dispatch(Stage::Update);
    let _ = e.next_turn().unwrap();
    let reply = SendBuf {
        outbox: vec![MessageData {
            channel: chan("chat", Locality::Remote),
            data: b"hi".to_vec(),
            client: None,
        }],
        ..empty_reply()
    };
    e.reply(TurnOutcome::Response(reply)).unwrap();
    assert!(e.next_turn().is_none());
    let out = e.network_outbox_drain();
    assert_eq!(out.len(), 1);
    assert_eq!(out[0].data, b"hi".to_vec());
    assert_eq!(out[0].channel.locality, Locality::Remote);
    // nothing was delivered locally: the guest's next inbox is empty
    e.dispatch(Stage::Update);
    let (_, buf) = e.next_turn().unwrap();
    assert!(buf.inbox.is_empty());
    e.reply(TurnOutcome::Response(empty_reply())).unwrap();
    assert!(e.next_turn().is_none());
    // and the outbox was drained exactly once
    assert!(e.network_outbox_drain().is_empty());
}

#[test]
fn size_mismatch_keeps_first_value() {
    let mut e = Engine::new(1, false);
    run_init(
        &mut e,
        vec![SendBuf {
            systems: vec![system(Stage::Update, vec![], vec![])],
            commands: vec![EcsCommand::AddComponent(1, b"X".to_vec(), vec![1, 2, 3, 4])],
            ..empty_reply()
        }],
    );
    e.dispatch(Stage::Update);
    let _ = e.next_turn().unwrap();
    let reply = SendBuf {
        commands: vec![EcsCommand::AddComponent(1, b"X".to_vec(), vec![9, 9, 9, 9, 9, 9, 9, 9])],
        ..empty_reply()
    };
    assert_eq!(e.reply(TurnOutcome::Response(reply)), Err(EngineError::SizeMismatch));
    assert_eq!(e.ecs().get(1, &b"X".to_vec()).unwrap(), &vec![1, 2, 3, 4]);
}

#[test]
fn query_shape_mismatch_rejected() {
    let mut e = Engine::new(1, false);
    run_init(
        &mut e,
        vec![SendBuf {
            systems: vec![system(
                Stage::Update,
                vec![QueryTerm { component: b"Pos".to_vec(), access: Access::Write }],
                vec![],
            )],
            commands: vec![
                EcsCommand::Create(1),
                EcsCommand::AddComponent(1, b"Pos".to_vec(), vec![0; 4]),
            ],
            ..empty_reply()
        }],
    );
    e.dispatch(Stage::Update);
    let (_, buf) = e.next_turn().unwrap();
    assert_eq!(buf.ecs.entities.len(), 1);
    // a write column with zero rows against one query row
    let reply = SendBuf {
        ecs: EcsData { entities: vec![], columns: vec![vec![]] },
        ..empty_reply()
    };
    assert_eq!(e.reply(TurnOutcome::Response(reply)), Err(EngineError::QueryShapeMismatch));
    assert_eq!(e.ecs().get(1, &b"Pos".to_vec()).unwrap(), &vec![0, 0, 0, 0]);
}

#[test]
fn poisoned_guest_is_skipped() {
    let mut e = Engine::new(2, false);
    run_init(
        &mut e,
        vec![
            SendBuf { systems: vec![system(Stage::Update, vec![], vec![])], ..empty_reply() },
            SendBuf { systems: vec![system(Stage::Update, vec![], vec![])], ..empty_reply() },
        ],
    );
    // first pass: both run
    e.dispatch(Stage::Update);
    let (g, _) = e.next_turn().unwrap();
    assert_eq!(g, 0);
    e.reply(TurnOutcome::Response(empty_reply())).unwrap();
    let (g, _) = e.next_turn().unwrap();
    assert_eq!(g, 1);
    e.reply(TurnOutcome::Response(empty_reply())).unwrap();
    assert!(e.next_turn().is_none());
    // second pass: guest A traps
    e.dispatch(Stage::Update);
    let (g, _) = e.next_turn().unwrap();
    assert_eq!(g, 0);
    assert_eq!(e.reply(TurnOutcome::Fault), Err(EngineError::GuestFault));
    // third pass: B runs normally, A is skipped
    e.dispatch(Stage::Update);
    let (g, _) = e.next_turn().unwrap();
    assert_eq!(g, 1);
    e.reply(TurnOutcome::Response(empty_reply())).unwrap();
    assert!(e.next_turn().is_none());
}

#[test]
fn local_fanout_counts_host_and_subscribers() {
    // one subscriber plus the host: the message lands exactly twice
    let mut e = Engine::new(1, false);
    run_init(
        &mut e,
        vec![SendBuf {
            systems: vec![system(Stage::Update, vec![], vec![chan("c", Locality::Local)])],
            ..empty_reply()
        }],
    );
    e.subscribe(chan("c", Locality::Local));
    e.send(chan("c", Locality::Local), vec![7]);
    let host_got = e.inbox(&chan("c", Locality::Local));
    assert_eq!(host_got.len(), 1);
    assert_eq!(host_got[0].data, vec![7]);
    e.dispatch(Stage::Update);
    let (_, buf) = e.next_turn().unwrap();
    assert_eq!(buf.inbox.len(), 1);
    assert_eq!(buf.inbox[0].1.len(), 1);
    e.reply(TurnOutcome::Response(empty_reply())).unwrap();
    assert!(e.next_turn().is_none());
}

#[test]
fn no_subscriptions_empty_inbox() {
    // a guest that declares no subscriptions never sees a message
    let mut e = Engine::new(1, false);
    run_init(
        &mut e,
        vec![SendBuf { systems: vec![system(Stage::Update, vec![], vec![])], ..empty_reply() }],
    );
    e.send(chan("anything", Locality::Local), vec![1, 2, 3]);
    e.dispatch(Stage::Update);
    let (_, buf) = e.next_turn().unwrap();
    assert!(buf.inbox.is_empty());
    e.reply(TurnOutcome::Response(empty_reply())).unwrap();
    assert!(e.next_turn().is_none());
}

#[test]
fn network_inbox_push_routes_as_local() {
    let mut e = Engine::new(1, true);
    run_init(
        &mut e,
        vec![SendBuf {
            systems: vec![system(Stage::Update, vec![], vec![chan("chat", Locality::Remote)])],
            ..empty_reply()
        }],
    );
    e.network_inbox_push(MessageData {
        channel: chan("chat", Locality::Remote),
        data: b"from peer".to_vec(),
        client: Some(3),
    });
    e.dispatch(Stage::Update);
    let (_, buf) = e.next_turn().unwrap();
    assert_eq!(buf.inbox.len(), 1);
    assert_eq!(buf.inbox[0].1[0].client, Some(3));
    assert!(buf.is_server);
    e.reply(TurnOutcome::Response(empty_reply())).unwrap();
    assert!(e.next_turn().is_none());
}
