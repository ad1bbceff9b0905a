use cdda::input_queue::{InputQueue, PredictedState};
use cdda::messages::{ActionType, ClientMessage, ServerMessage};
use cdda::prediction::{check_rollback, predict_move};
use cdda::session::{
    direction_action, login_message, worker_step, ClientSession, LoginReply, Rollback,
    WorkerEvent, WorkerStep,
};
use cdda::state::GameState;
use cdda::types::{Coord, EntityData, ItemStack, LogEntry, TileData, TileFlags};

#[test]
fn test_push_and_ack() {
    let mut queue = InputQueue::new();
    assert_eq!(queue.push(ActionType::MoveUp, None), 1);
    assert_eq!(queue.push(ActionType::MoveRight, None), 2);
    assert_eq!(queue.pending_count(), 2);

    let acked = queue.ack_up_to(1);
    assert_eq!(acked.len(), 1);
    assert_eq!(acked[0].seq, 1);
    assert_eq!(queue.pending_count(), 1);

    let acked = queue.ack_up_to(2);
    assert_eq!(acked.len(), 1);
    assert_eq!(acked[0].seq, 2);
    assert_eq!(queue.pending_count(), 0);
}

#[test]
fn test_ack_beyond() {
    let mut queue = InputQueue::new();
    queue.push(ActionType::MoveUp, None);
    queue.push(ActionType::MoveRight, None);
    queue.push(ActionType::MoveDown, None);

    let acked = queue.ack_up_to(5);
    assert_eq!(acked.len(), 3);
    assert_eq!(queue.pending_count(), 0);
}

#[test]
fn test_predict_move() {
    let pos = Coord::new(10, 10);
    assert_eq!(predict_move(pos, &ActionType::MoveUp), Coord::new(10, 9));
    assert_eq!(predict_move(pos, &ActionType::MoveDown), Coord::new(10, 11));
    assert_eq!(predict_move(pos, &ActionType::MoveLeft), Coord::new(9, 10));
    assert_eq!(predict_move(pos, &ActionType::MoveRight), Coord::new(11, 10));
    assert_eq!(predict_move(pos, &ActionType::MoveUpLeft), Coord::new(9, 9));
    assert_eq!(predict_move(pos, &ActionType::MoveUpRight), Coord::new(11, 9));
    assert_eq!(predict_move(pos, &ActionType::MoveDownLeft), Coord::new(9, 11));
    assert_eq!(predict_move(pos, &ActionType::MoveDownRight), Coord::new(11, 11));
}

#[test]
fn test_predict_wait() {
    let pos = Coord::new(5, 5);
    assert_eq!(predict_move(pos, &ActionType::Wait), pos);
}

#[test]
fn test_rollback_match() {
    let predicted = Coord::new(10, 9);
    let confirmed = Coord::new(10, 9);
    assert_eq!(check_rollback(predicted, confirmed), None);
}

#[test]
fn test_rollback_mismatch() {
    let predicted = Coord::new(10, 9);
    let confirmed = Coord::new(10, 10);
    assert_eq!(check_rollback(predicted, confirmed), Some(confirmed));
}

fn entity(id: u32, x: i32, y: i32) -> EntityData {
    EntityData {
        id,
        entity_type: 1,
        name: format!("e{id}"),
        pos: Coord::new(x, y),
        hp: 10,
        max_hp: 10,
        is_player: false,
    }
}

fn world_state_msg() -> ServerMessage {
    ServerMessage::WorldState {
        seq: 7,
        player_pos: Coord::new(50, 60),
        visible_tiles: vec![TileData {
            pos: Coord::new(1, 2),
            tile_type: 0,
            flags: TileFlags(0),
            fg_color: 0xFFFFFF,
            bg_color: 0,
        }],
        explored: vec![true, false, true],
        explored_width: 3,
        entities: vec![entity(1, 50, 60), entity(2, 51, 60)],
        items_ground: vec![(Coord::new(50, 60), ItemStack { item_id: 1, quantity: 2 })],
        message_log: vec![LogEntry { text: "spawn".to_string(), color: 0xAAAAAA, turn: 1 }],
        hp: 88,
        stamina: 77,
        thirst: 66,
        hunger: 55,
    }
}

#[test]
fn apply_snapshot_owned_populates_all_fields() {
    let mut s = GameState::default();
    s.apply_snapshot_owned(world_state_msg());

    assert_eq!(s.seq, 7);
    assert_eq!(s.player_pos, Coord::new(50, 60));
    assert_eq!(s.visible_tiles.len(), 1);
    assert_eq!(s.explored, vec![true, false, true]);
    assert_eq!(s.explored_width, 3);
    assert_eq!(s.entities.len(), 2);
    assert_eq!(s.items_ground.len(), 1);
    assert_eq!(s.message_log.len(), 1);
    assert_eq!(s.hp, 88);
    assert_eq!(s.stamina, 77);
    assert_eq!(s.thirst, 66);
    assert_eq!(s.hunger, 55);
}

#[test]
fn apply_snapshot_borrowed_matches_owned() {
    let mut a = GameState::default();
    let mut b = GameState::default();
    let msg = world_state_msg();
    a.apply_snapshot(&msg);
    b.apply_snapshot_owned(msg);
    assert_eq!(a.player_pos, b.player_pos);
    assert_eq!(a.entities.len(), b.entities.len());
    assert_eq!(a.hp, b.hp);
}

#[test]
fn apply_delta_entity_moved() {
    let mut s = GameState { entities: vec![entity(1, 0, 0), entity(2, 5, 5)], ..Default::default() };
    s.apply_delta(&ServerMessage::EntityMoved { id: 2, from: Coord::new(5, 5), to: Coord::new(6, 5) });
    assert_eq!(s.entities[1].pos, Coord::new(6, 5));
    assert_eq!(s.entities[0].pos, Coord::new(0, 0));
}

#[test]
fn apply_delta_entity_moved_updates_player_pos() {
    let mut s = GameState { player_id: 9, entities: vec![entity(9, 1, 1)], ..Default::default() };
    s.apply_delta(&ServerMessage::EntityMoved { id: 9, from: Coord::new(1, 1), to: Coord::new(2, 1) });
    assert_eq!(s.player_pos, Coord::new(2, 1));
}

#[test]
fn apply_delta_entity_joined_and_left() {
    let mut s = GameState::default();
    s.apply_delta(&ServerMessage::EntityJoined { entity: entity(7, 3, 3) });
    assert_eq!(s.entities.len(), 1);
    assert_eq!(s.entities[0].id, 7);

    s.apply_delta(&ServerMessage::EntityLeft { id: 7 });
    assert!(s.entities.is_empty());
}

#[test]
fn apply_delta_attack_result_subtracts_hp() {
    let mut s = GameState { player_id: 1, hp: 50, entities: vec![entity(2, 0, 0)], ..Default::default() };
    s.apply_delta(&ServerMessage::AttackResult { attacker: 1, target: 2, damage: 4, killed: false });
    assert_eq!(s.entities[0].hp, 6);

    s.apply_delta(&ServerMessage::AttackResult { attacker: 2, target: 1, damage: 7, killed: false });
    assert_eq!(s.hp, 43);
}

#[test]
fn apply_delta_chat_message_appends_log() {
    let mut s = GameState::default();
    s.apply_delta(&ServerMessage::ChatMessage {
        player_id: 1,
        player_name: "alice".to_string(),
        text: "hi".to_string(),
    });
    assert_eq!(s.message_log.len(), 1);
    assert!(s.message_log[0].text.contains("alice"));
    assert!(s.message_log[0].text.contains("hi"));
}

#[test]
fn apply_delta_login_accepted() {
    let mut s = GameState::default();
    s.apply_delta(&ServerMessage::LoginAccepted { player_id: 42, sub_world_id: (3, 4), world_seed: 1234 });
    assert_eq!(s.player_id, 42);
    assert_eq!(s.sub_world_id, (3, 4));
    assert_eq!(s.world_seed, 1234);
}

#[test]
fn apply_delta_sub_world_transfer() {
    let mut s = GameState::default();
    s.apply_delta(&ServerMessage::SubWorldTransfer { new_sub_world_id: (1, -1), pos: Coord::new(256, 256) });
    assert_eq!(s.sub_world_id, (1, -1));
    assert_eq!(s.player_pos, Coord::new(256, 256));
}

// ---- further scenarios of the client side ----

#[test]
fn default_state_values() {
    let s = GameState::default();
    assert_eq!(s.player_id, 0);
    assert_eq!(s.player_pos, Coord::new(0, 0));
    assert_eq!(s.sub_world_id, (0, 0));
    assert_eq!((s.hp, s.max_hp, s.stamina, s.thirst, s.hunger), (100, 100, 100, 100, 100));
    assert!(s.entities.is_empty() && s.visible_tiles.is_empty() && s.message_log.is_empty());
}

#[test]
fn snapshot_keeps_identity_fields() {
    let mut s = GameState { player_id: 5, sub_world_id: (2, 3), world_seed: 9, max_hp: 120, ..Default::default() };
    s.apply_snapshot(&world_state_msg());
    assert_eq!(s.player_id, 5);
    assert_eq!(s.sub_world_id, (2, 3));
    assert_eq!(s.world_seed, 9);
    assert_eq!(s.max_hp, 120);
    assert_eq!(s.entities[1], entity(2, 51, 60));
}

#[test]
fn snapshot_ignores_other_messages() {
    let mut s = GameState::default();
    s.apply_snapshot(&ServerMessage::Pong { seq: 3 });
    s.apply_snapshot_owned(ServerMessage::Pong { seq: 3 });
    assert_eq!(s.seq, 0);
    assert_eq!(s.hp, 100);
}

#[test]
fn delta_moves_only_first_matching_entity() {
    let mut s = GameState { entities: vec![entity(4, 0, 0), entity(4, 1, 1)], ..Default::default() };
    s.apply_delta(&ServerMessage::EntityMoved { id: 4, from: Coord::new(0, 0), to: Coord::new(9, 9) });
    assert_eq!(s.entities[0].pos, Coord::new(9, 9));
    assert_eq!(s.entities[1].pos, Coord::new(1, 1));
}

#[test]
fn delta_unknown_entity_changes_nothing() {
    let mut s = GameState { entities: vec![entity(1, 0, 0)], ..Default::default() };
    s.apply_delta(&ServerMessage::EntityMoved { id: 8, from: Coord::new(0, 0), to: Coord::new(3, 3) });
    assert_eq!(s.entities[0].pos, Coord::new(0, 0));
    assert_eq!(s.player_pos, Coord::new(0, 0));
}

#[test]
fn delta_joined_replaces_earlier_copy() {
    let mut s = GameState { entities: vec![entity(1, 0, 0), entity(2, 0, 0), entity(1, 4, 4)], ..Default::default() };
    s.apply_delta(&ServerMessage::EntityJoined { entity: entity(1, 7, 7) });
    assert_eq!(s.entities.len(), 2);
    assert_eq!(s.entities[0].id, 2);
    assert_eq!(s.entities[1].pos, Coord::new(7, 7));
}

#[test]
fn delta_attack_never_below_zero() {
    let mut s = GameState { player_id: 1, hp: 5, entities: vec![entity(2, 0, 0)], ..Default::default() };
    s.apply_delta(&ServerMessage::AttackResult { attacker: 2, target: 2, damage: 40, killed: true });
    assert_eq!(s.entities[0].hp, 0);
    s.apply_delta(&ServerMessage::AttackResult { attacker: 2, target: 1, damage: 9, killed: true });
    assert_eq!(s.hp, 0);
}

#[test]
fn delta_chat_exact_text() {
    let mut s = GameState::default();
    s.apply_delta(&ServerMessage::ChatMessage { player_id: 3, player_name: "bob".to_string(), text: "yo".to_string() });
    assert_eq!(s.message_log[0].text, "bob: yo");
    assert_eq!(s.message_log[0].color, 0xFFFFFF);
    assert_eq!(s.message_log[0].turn, 0);
}

#[test]
fn delta_ignores_world_state_and_pong() {
    let mut s = GameState::default();
    s.apply_delta(&world_state_msg());
    s.apply_delta(&ServerMessage::Pong { seq: 1 });
    assert_eq!(s.seq, 0);
    assert!(s.entities.is_empty());
}

#[test]
fn getters_return_lists() {
    let mut s = GameState::default();
    s.apply_snapshot_owned(world_state_msg());
    assert_eq!(s.get_visible_tiles().len(), 1);
    assert_eq!(s.get_entities().len(), 2);
    assert_eq!(s.get_items_ground()[0].1, ItemStack { item_id: 1, quantity: 2 });
    assert_eq!(s.get_message_log()[0].text, "spawn");
}

#[test]
fn session_move_predicts_and_queues() {
    let mut c = ClientSession::new();
    c.state.player_pos = Coord::new(10, 10);
    let (pos, msg) = c.prepare_move(ActionType::MoveLeft);
    assert_eq!(pos, Coord::new(9, 10));
    assert_eq!(c.state.player_pos, Coord::new(9, 10));
    assert_eq!(msg, ClientMessage::PlayerAction { seq: 1, action: ActionType::MoveLeft, target: None });
    assert_eq!(c.input_queue.pending_count(), 1);
    let w = c.prepare_wait();
    assert_eq!(w, ClientMessage::PlayerAction { seq: 2, action: ActionType::Wait, target: None });
    assert_eq!(c.input_queue.pending_count(), 2);
}

#[test]
fn session_world_state_acks_and_reports_rollbacks() {
    let mut c = ClientSession::new();
    c.state.player_pos = Coord::new(50, 61);
    let _ = c.prepare_move(ActionType::MoveUp);
    let _ = c.prepare_move(ActionType::MoveUp);
    let _ = c.prepare_wait();
    let _ = c.prepare_move(ActionType::MoveUp);
    let msg = ServerMessage::WorldState {
        seq: 3,
        player_pos: Coord::new(50, 60),
        visible_tiles: vec![],
        explored: vec![],
        explored_width: 0,
        entities: vec![],
        items_ground: vec![],
        message_log: vec![],
        hp: 1,
        stamina: 2,
        thirst: 3,
        hunger: 4,
    };
    let r = c.handle_server_message(msg);
    assert_eq!(r, vec![Rollback { seq: 2, predicted: Coord::new(50, 59), corrected: Coord::new(50, 60) }]);
    assert_eq!(c.input_queue.pending_count(), 1);
    assert_eq!(c.state.player_pos, Coord::new(50, 60));
    assert_eq!(c.state.hp, 1);
}

#[test]
fn session_delta_goes_to_state() {
    let mut c = ClientSession::new();
    let r = c.handle_server_message(ServerMessage::LoginAccepted { player_id: 3, sub_world_id: (0, 1), world_seed: 5 });
    assert!(r.is_empty());
    assert_eq!(c.state.player_id, 3);
    assert_eq!(c.state.sub_world_id, (0, 1));
}

#[test]
fn bridge_error_disconnects() {
    let mut c = ClientSession::new();
    c.connected = true;
    c.handle_bridge_message(ServerMessage::Pong { seq: 1 });
    assert!(c.connected);
    c.handle_bridge_message(ServerMessage::Error { code: 2, text: "x".to_string() });
    assert!(!c.connected);
}

#[test]
fn login_reply_steps() {
    let mut c = ClientSession::new();
    assert_eq!(
        c.login_reply(ServerMessage::LoginAccepted { player_id: 8, sub_world_id: (1, 2), world_seed: 3 }),
        LoginReply::AwaitWorldState
    );
    assert_eq!(c.state.player_id, 8);
    assert_eq!(c.login_reply(world_state_msg()), LoginReply::Done);
    assert_eq!(c.state.hp, 88);
    assert_eq!(c.login_reply(ServerMessage::Pong { seq: 1 }), LoginReply::Unexpected);
}

#[test]
fn direction_numbers() {
    assert_eq!(direction_action(0), Some(ActionType::MoveUp));
    assert_eq!(direction_action(3), Some(ActionType::MoveRight));
    assert_eq!(direction_action(7), Some(ActionType::MoveDownRight));
    assert_eq!(direction_action(8), None);
    assert_eq!(direction_action(-1), None);
}

#[test]
fn indexed_lookups() {
    let mut c = ClientSession::new();
    c.state.apply_snapshot_owned(world_state_msg());
    assert_eq!(c.visible_tile_at(0).map(|t| t.pos), Some(Coord::new(1, 2)));
    assert_eq!(c.visible_tile_at(1), None);
    assert_eq!(c.entity_at(1).map(|e| e.id), Some(2));
    assert_eq!(c.entity_at(-1), None);
    assert_eq!(c.log_entry_at(0).map(|l| l.text), Some("spawn".to_string()));
    assert_eq!(c.log_entry_at(5), None);
}

#[test]
fn login_message_fields() {
    assert_eq!(login_message("zed"), ClientMessage::Login { version: 1, player_name: "zed".to_string() });
}

#[test]
fn worker_decisions() {
    match worker_step(WorkerEvent::ReceiveFailed { reason: "eof".to_string() }) {
        WorkerStep::ForwardAndStop { msg } => {
            assert_eq!(msg, ServerMessage::Error { code: 2, text: "disconnect: eof".to_string() })
        }
        _ => panic!("expected an error to forward"),
    }
    match worker_step(WorkerEvent::ConnectFailed { reason: "refused".to_string() }) {
        WorkerStep::ForwardAndStop { msg } => {
            assert_eq!(msg, ServerMessage::Error { code: 1, text: "Connection failed: refused".to_string() })
        }
        _ => panic!("expected an error to forward"),
    }
    match worker_step(WorkerEvent::Connected) {
        WorkerStep::Send { msg } => {
            assert_eq!(msg, ClientMessage::Login { version: 1, player_name: "godot_player".to_string() })
        }
        _ => panic!("expected the login"),
    }
    assert!(matches!(worker_step(WorkerEvent::Shutdown), WorkerStep::LogoutAndStop));
    assert!(matches!(worker_step(WorkerEvent::OutgoingClosed), WorkerStep::Stop));
    match worker_step(WorkerEvent::Received { msg: ServerMessage::Pong { seq: 4 } }) {
        WorkerStep::Forward { msg } => assert_eq!(msg, ServerMessage::Pong { seq: 4 }),
        _ => panic!("expected forwarding"),
    }
}

#[test]
fn queue_keeps_predictions() {
    let mut q = InputQueue::new();
    q.push(ActionType::MoveUp, Some(PredictedState { pos: Coord::new(1, 1) }));
    let acked = q.ack_up_to(1);
    assert_eq!(acked[0].predicted, Some(PredictedState { pos: Coord::new(1, 1) }));
    assert!(!q.has_pending());
    assert_eq!(q.next_seq(), 2);
}

#[test]
fn sequence_numbers_count_pushes_across_acknowledgements() {
    let mut q = InputQueue::new();
    assert_eq!(q.push(ActionType::MoveUp, None), 1);
    assert_eq!(q.push(ActionType::MoveDown, None), 2);
    q.ack_up_to(2);
    q.ack_up_to(100);
    assert_eq!(q.next_seq(), 3);
    assert_eq!(q.push(ActionType::Wait, None), 3);
    q.ack_up_to(0);
    assert_eq!(q.push(ActionType::Wait, None), 4);
    assert_eq!(q.next_seq(), 5);
    assert_eq!(q.pending_count(), 2);
}
