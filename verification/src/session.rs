use vstd::prelude::*;

use crate::input_queue::{split_point, InputQueue, PendingAction, PredictedState};
use crate::messages::{ActionType, ClientMessage, ServerMessage};
use crate::prediction::{check_rollback, move_delta, predict_move, step_fits};
use crate::state::{delta_applied, delta_fits, snapshot_applied, GameState};
use crate::text::push_str;
use crate::types::{Coord, EntityData, LogEntry, TileData};

verus! {

/// A prediction the server contradicted: the action numbered `seq` was expected to put
/// the player at `predicted`, and the server says `corrected`.
#[derive(Debug, Clone, Copy, PartialEq, Eq, Structural)]
pub struct Rollback {
    pub seq: u32,
    pub predicted: Coord,
    pub corrected: Coord,
}

/// The acknowledged action `p` carried a prediction that differs from `confirmed`.
pub open spec fn mispredicted(p: PendingAction, confirmed: Coord) -> bool {
    match p.predicted {
        Some(ps) => ps.pos != confirmed,
        None => false,
    }
}

/// The rollbacks among the acknowledged actions `acked` once the server puts the player
/// at `confirmed`, in order.
pub open spec fn rollbacks_of(acked: Seq<PendingAction>, confirmed: Coord) -> Seq<Rollback> {
    acked.filter(|p: PendingAction| mispredicted(p, confirmed)).map_values(
        |p: PendingAction|
            Rollback { seq: p.seq, predicted: p.predicted->0.pos, corrected: confirmed },
    )
}

/// How the first answer to a login went.
#[derive(Debug, Clone, Copy, PartialEq, Eq, Structural)]
pub enum LoginReply {
    /// The login was accepted; the world state comes next.
    AwaitWorldState,
    /// A world state arrived and was taken over.
    Done,
    /// Something else arrived.
    Unexpected,
}

/// The client's side of a game: the state it knows, the actions waiting for the
/// server's acknowledgement, and whether it is connected.
pub struct ClientSession {
    pub state: GameState,
    pub input_queue: InputQueue,
    pub connected: bool,
}

/// The login message a client sends first.
pub fn login_message(player_name: &str) -> (r: ClientMessage)
    ensures
        r matches ClientMessage::Login { version, player_name: n } && version == 1 && n@
            == player_name@,
{
    ClientMessage::Login { version: 1, player_name: String::from_str(player_name) }
}

/// The move a direction number from the user interface stands for: 0 to 7 are up, down,
/// left, right, up-left, up-right, down-left and down-right; anything else is no move.
pub fn direction_action(direction: i32) -> (r: Option<ActionType>)
    ensures
        r == (if direction == 0 {
            Some(ActionType::MoveUp)
        } else if direction == 1 {
            Some(ActionType::MoveDown)
        } else if direction == 2 {
            Some(ActionType::MoveLeft)
        } else if direction == 3 {
            Some(ActionType::MoveRight)
        } else if direction == 4 {
            Some(ActionType::MoveUpLeft)
        } else if direction == 5 {
            Some(ActionType::MoveUpRight)
        } else if direction == 6 {
            Some(ActionType::MoveDownLeft)
        } else if direction == 7 {
            Some(ActionType::MoveDownRight)
        } else {
            None
        }),
{
    match direction {
        0 => Some(ActionType::MoveUp),
        1 => Some(ActionType::MoveDown),
        2 => Some(ActionType::MoveLeft),
        3 => Some(ActionType::MoveRight),
        4 => Some(ActionType::MoveUpLeft),
        5 => Some(ActionType::MoveUpRight),
        6 => Some(ActionType::MoveDownLeft),
        7 => Some(ActionType::MoveDownRight),
        _ => None,
    }
}

fn collect_rollbacks(acked: &Vec<PendingAction>, confirmed: Coord) -> (r: Vec<Rollback>)
    ensures
        r@ == rollbacks_of(acked@, confirmed),
{
    let ghost pred = |p: PendingAction| mispredicted(p, confirmed);
    let ghost f = |p: PendingAction|
        Rollback { seq: p.seq, predicted: p.predicted->0.pos, corrected: confirmed };
    let mut r: Vec<Rollback> = Vec::new();
    let mut i: usize = 0;
    while i < acked.len()
        invariant
            i <= acked@.len(),
            pred == (|p: PendingAction| mispredicted(p, confirmed)),
            f == (|p: PendingAction|
                Rollback { seq: p.seq, predicted: p.predicted->0.pos, corrected: confirmed }),
            r@ == acked@.take(i as int).filter(pred).map_values(f),
        decreases acked@.len() - i,
    {
        proof {
            reveal_with_fuel(Seq::<_>::filter, 1);
            assert(acked@.take(i + 1).drop_last() =~= acked@.take(i as int));
        }
        let p = &acked[i];
        if let Some(predicted) = p.predicted {
            if let Some(corrected) = check_rollback(predicted.pos, confirmed) {
                r.push(Rollback { seq: p.seq, predicted: predicted.pos, corrected });
            }
        }
        i = i + 1;
        assert(r@ =~= acked@.take(i as int).filter(pred).map_values(f));
    }
    assert(acked@.take(i as int) =~= acked@);
    r
}

impl ClientSession {
    /// A fresh session: the default state, an empty queue, not connected.
    pub fn new() -> (r: Self)
        ensures
            r.input_queue.wf(),
            r.input_queue.pending_view() == Seq::<PendingAction>::empty(),
            r.input_queue.next_seq_view() == 1,
            !r.connected,
            r.state.player_id == 0,
            r.state.hp == 100,
            r.state.seq == 0,
    {
        ClientSession { state: GameState::default(), input_queue: InputQueue::new(), connected: false }
    }

    /// Take a world state: acknowledge the queued actions up to its sequence number
    /// (reporting, in order, each whose predicted position the server contradicts) and
    /// take over its snapshot. Any other message is applied as a delta.
    pub fn handle_server_message(&mut self, msg: ServerMessage) -> (r: Vec<Rollback>)
        requires
            delta_fits(old(self).state, msg),
        ensures
            final(self).connected == old(self).connected,
            final(self).input_queue.next_seq_view() == old(self).input_queue.next_seq_view(),
            old(self).input_queue.wf() ==> final(self).input_queue.wf(),
            match msg {
                ServerMessage::WorldState { seq, player_pos, .. } => {
                    &&& snapshot_applied(old(self).state, final(self).state, msg)
                    &&& exists|k: int|
                        #![trigger split_point(old(self).input_queue.pending_view(), seq, k)]
                        split_point(old(self).input_queue.pending_view(), seq, k) && r@
                            == rollbacks_of(old(self).input_queue.pending_view().take(k), player_pos)
                            && final(self).input_queue.pending_view() == old(
                            self,
                        ).input_queue.pending_view().skip(k)
                },
                _ => {
                    &&& delta_applied(old(self).state, final(self).state, msg)
                    &&& final(self).input_queue == old(self).input_queue
                    &&& r@.len() == 0
                },
            },
    {
        match &msg {
            ServerMessage::WorldState { seq, player_pos, .. } => {
                let acked = self.input_queue.ack_up_to(*seq);
                let r = collect_rollbacks(&acked, *player_pos);
                self.state.apply_snapshot_owned(msg);
                r
            },
            _ => {
                self.state.apply_delta(&msg);
                Vec::new()
            },
        }
    }

    /// As `handle_server_message`, without reporting rollbacks, except that an error
    /// message ends the connection and changes nothing else.
    pub fn handle_bridge_message(&mut self, msg: ServerMessage)
        requires
            delta_fits(old(self).state, msg),
        ensures
            final(self).input_queue.next_seq_view() == old(self).input_queue.next_seq_view(),
            old(self).input_queue.wf() ==> final(self).input_queue.wf(),
            match msg {
                ServerMessage::WorldState { seq, .. } => {
                    &&& final(self).connected == old(self).connected
                    &&& snapshot_applied(old(self).state, final(self).state, msg)
                    &&& exists|k: int|
                        #![trigger split_point(old(self).input_queue.pending_view(), seq, k)]
                        split_point(old(self).input_queue.pending_view(), seq, k)
                            && final(self).input_queue.pending_view() == old(
                            self,
                        ).input_queue.pending_view().skip(k)
                },
                ServerMessage::Error { .. } => {
                    &&& !final(self).connected
                    &&& final(self).state == old(self).state
                    &&& final(self).input_queue == old(self).input_queue
                },
                _ => {
                    &&& final(self).connected == old(self).connected
                    &&& delta_applied(old(self).state, final(self).state, msg)
                    &&& final(self).input_queue == old(self).input_queue
                },
            },
    {
        match &msg {
            ServerMessage::WorldState { seq, .. } => {
                let _acked = self.input_queue.ack_up_to(*seq);
                self.state.apply_snapshot_owned(msg);
            },
            ServerMessage::Error { .. } => {
                self.connected = false;
            },
            _ => {
                self.state.apply_delta(&msg);
            },
        }
    }

    /// Take the first answer to a login: an acceptance records the player number,
    /// sub-world and seed (the world state follows); a world state is taken over;
    /// anything else changes nothing.
    pub fn login_reply(&mut self, msg: ServerMessage) -> (r: LoginReply)
        ensures
            final(self).connected == old(self).connected,
            final(self).input_queue == old(self).input_queue,
            match msg {
                ServerMessage::LoginAccepted { player_id, sub_world_id, world_seed } => {
                    &&& r == LoginReply::AwaitWorldState
                    &&& final(self).state == (GameState {
                        player_id,
                        sub_world_id,
                        world_seed,
                        ..old(self).state
                    })
                },
                ServerMessage::WorldState { .. } => {
                    &&& r == LoginReply::Done
                    &&& snapshot_applied(old(self).state, final(self).state, msg)
                },
                _ => r == LoginReply::Unexpected && final(self).state == old(self).state,
            },
    {
        match msg {
            ServerMessage::LoginAccepted { player_id, sub_world_id, world_seed } => {
                self.state.player_id = player_id;
                self.state.sub_world_id = sub_world_id;
                self.state.world_seed = world_seed;
                LoginReply::AwaitWorldState
            },
            ServerMessage::WorldState { .. } => {
                self.state.apply_snapshot_owned(msg);
                LoginReply::Done
            },
            _ => LoginReply::Unexpected,
        }
    }

    /// Prepare a move: predict where it leads, put the player there, queue the action
    /// with that prediction, and build the message that sends it. Returns the predicted
    /// position and the message.
    pub fn prepare_move(&mut self, action: ActionType) -> (r: (Coord, ClientMessage))
        requires
            step_fits(old(self).state.player_pos, move_delta(action)),
            old(self).input_queue.next_seq_view() < u32::MAX,
        ensures
            r.0.x == old(self).state.player_pos.x + move_delta(action).0,
            r.0.y == old(self).state.player_pos.y + move_delta(action).1,
            final(self).state == (GameState { player_pos: r.0, ..old(self).state }),
            final(self).connected == old(self).connected,
            final(self).input_queue.next_seq_view() == old(self).input_queue.next_seq_view() + 1,
            final(self).input_queue.pending_view() == old(self).input_queue.pending_view().push(
                PendingAction {
                    seq: old(self).input_queue.next_seq_view(),
                    action,
                    predicted: Some(PredictedState { pos: r.0 }),
                },
            ),
            old(self).input_queue.wf() ==> final(self).input_queue.wf(),
            r.1 == (ClientMessage::PlayerAction {
                seq: old(self).input_queue.next_seq_view(),
                action,
                target: None,
            }),
    {
        let predicted_pos = predict_move(self.state.player_pos, &action);
        self.state.player_pos = predicted_pos;
        let seq = self.input_queue.push(action.clone(), Some(PredictedState { pos: predicted_pos }));
        (predicted_pos, ClientMessage::PlayerAction { seq, action, target: None })
    }

    /// Prepare a wait: queue it without a prediction and build the message that sends it.
    pub fn prepare_wait(&mut self) -> (r: ClientMessage)
        requires
            old(self).input_queue.next_seq_view() < u32::MAX,
        ensures
            final(self).state == old(self).state,
            final(self).connected == old(self).connected,
            final(self).input_queue.next_seq_view() == old(self).input_queue.next_seq_view() + 1,
            final(self).input_queue.pending_view() == old(self).input_queue.pending_view().push(
                PendingAction {
                    seq: old(self).input_queue.next_seq_view(),
                    action: ActionType::Wait,
                    predicted: None,
                },
            ),
            old(self).input_queue.wf() ==> final(self).input_queue.wf(),
            r == (ClientMessage::PlayerAction {
                seq: old(self).input_queue.next_seq_view(),
                action: ActionType::Wait,
                target: None,
            }),
    {
        let seq = self.input_queue.push(ActionType::Wait, None);
        ClientMessage::PlayerAction { seq, action: ActionType::Wait, target: None }
    }

    /// The visible tile at `index`, when there is one.
    pub fn visible_tile_at(&self, index: i32) -> (r: Option<TileData>)
        ensures
            r == (if 0 <= index < self.state.visible_tiles@.len() {
                Some(self.state.visible_tiles@[index as int])
            } else {
                None
            }),
    {
        if index >= 0 && (index as usize) < self.state.visible_tiles.len() {
            Some(self.state.visible_tiles[index as usize])
        } else {
            None
        }
    }

    /// A copy of the entity at `index`, when there is one.
    pub fn entity_at(&self, index: i32) -> (r: Option<EntityData>)
        ensures
            r == (if 0 <= index < self.state.entities@.len() {
                Some(self.state.entities@[index as int])
            } else {
                None
            }),
    {
        if index >= 0 && (index as usize) < self.state.entities.len() {
            Some(self.state.entities[index as usize].clone())
        } else {
            None
        }
    }

    /// A copy of the log line at `index`, when there is one.
    pub fn log_entry_at(&self, index: i32) -> (r: Option<LogEntry>)
        ensures
            r == (if 0 <= index < self.state.message_log@.len() {
                Some(self.state.message_log@[index as int])
            } else {
                None
            }),
    {
        if index >= 0 && (index as usize) < self.state.message_log.len() {
            Some(self.state.message_log[index as usize].clone())
        } else {
            None
        }
    }
}

/// What the network worker of the engine bridge has just seen.
#[derive(Debug)]
#[allow(inconsistent_fields)]
pub enum WorkerEvent {
    /// Its runtime could not be started.
    RuntimeFailed { reason: String },
    /// The connection could not be made.
    ConnectFailed { reason: String },
    /// The connection is up.
    Connected,
    /// The login could not be sent.
    LoginSendFailed { reason: String },
    /// A message arrived from the server.
    Received { msg: ServerMessage },
    /// Reading from the server failed.
    ReceiveFailed { reason: String },
    /// The game wants this message sent.
    Outgoing { msg: ClientMessage },
    /// Sending failed.
    SendFailed { reason: String },
    /// The game side closed its queue of outgoing messages.
    OutgoingClosed,
    /// The game side closed its queue of incoming messages.
    ForwardFailed,
    /// The game asked to disconnect.
    Shutdown,
}

/// What the network worker does next.
#[derive(Debug)]
#[allow(inconsistent_fields)]
pub enum WorkerStep {
    /// Hand this message to the game and go on.
    Forward { msg: ServerMessage },
    /// Hand this message to the game and stop.
    ForwardAndStop { msg: ServerMessage },
    /// Send this message to the server and go on.
    Send { msg: ClientMessage },
    /// Send a logout, close the connection and stop.
    LogoutAndStop,
    /// Stop.
    Stop,
}

/// `r` is an error message of this code whose text is `prefix` then `reason`.
pub open spec fn error_with(r: ServerMessage, code: u32, prefix: Seq<char>, reason: Seq<char>) -> bool {
    match r {
        ServerMessage::Error { code: c, text } => c == code && text@ == prefix + reason,
        _ => false,
    }
}

fn error_message(code: u32, prefix: &str, reason: &str) -> (r: ServerMessage)
    ensures
        error_with(r, code, prefix@, reason@),
{
    let mut text = String::new();
    push_str(&mut text, prefix);
    push_str(&mut text, reason);
    ServerMessage::Error { code, text }
}

/// The network worker's decision on one event: failures to start become error messages
/// for the game (code 1 for a failed connection, 2 otherwise) and stop the worker; once
/// connected it logs in as "godot_player"; server messages are handed on; outgoing
/// messages are sent; a failed read or send is reported and stops it; a closed queue
/// stops it; a disconnect request sends a logout first.
pub fn worker_step(event: WorkerEvent) -> (r: WorkerStep)
    ensures
        match event {
            WorkerEvent::RuntimeFailed { reason } => r matches WorkerStep::ForwardAndStop { msg }
                && error_with(msg, 2, "runtime init failed: "@, reason@),
            WorkerEvent::ConnectFailed { reason } => r matches WorkerStep::ForwardAndStop { msg }
                && error_with(msg, 1, "Connection failed: "@, reason@),
            WorkerEvent::Connected => r matches WorkerStep::Send { msg } && msg matches ClientMessage::Login {
                version,
                player_name,
            } && version == 1 && player_name@ == "godot_player"@,
            WorkerEvent::LoginSendFailed { reason } => r matches WorkerStep::ForwardAndStop { msg }
                && error_with(msg, 2, "login send failed: "@, reason@),
            WorkerEvent::Received { msg } => r == (WorkerStep::Forward { msg }),
            WorkerEvent::ReceiveFailed { reason } => r matches WorkerStep::ForwardAndStop { msg }
                && error_with(msg, 2, "disconnect: "@, reason@),
            WorkerEvent::Outgoing { msg } => r == (WorkerStep::Send { msg }),
            WorkerEvent::SendFailed { reason } => r matches WorkerStep::ForwardAndStop { msg }
                && error_with(msg, 2, "send failed: "@, reason@),
            WorkerEvent::OutgoingClosed => r == WorkerStep::Stop,
            WorkerEvent::ForwardFailed => r == WorkerStep::Stop,
            WorkerEvent::Shutdown => r == WorkerStep::LogoutAndStop,
        },
{
    match event {
        WorkerEvent::RuntimeFailed { reason } => WorkerStep::ForwardAndStop {
            msg: error_message(2, "runtime init failed: ", reason.as_str()),
        },
        WorkerEvent::ConnectFailed { reason } => WorkerStep::ForwardAndStop {
            msg: error_message(1, "Connection failed: ", reason.as_str()),
        },
        WorkerEvent::Connected => WorkerStep::Send { msg: login_message("godot_player") },
        WorkerEvent::LoginSendFailed { reason } => WorkerStep::ForwardAndStop {
            msg: error_message(2, "login send failed: ", reason.as_str()),
        },
        WorkerEvent::Received { msg } => WorkerStep::Forward { msg },
        WorkerEvent::ReceiveFailed { reason } => WorkerStep::ForwardAndStop {
            msg: error_message(2, "disconnect: ", reason.as_str()),
        },
        WorkerEvent::Outgoing { msg } => WorkerStep::Send { msg },
        WorkerEvent::SendFailed { reason } => WorkerStep::ForwardAndStop {
            msg: error_message(2, "send failed: ", reason.as_str()),
        },
        WorkerEvent::OutgoingClosed => WorkerStep::Stop,
        WorkerEvent::ForwardFailed => WorkerStep::Stop,
        WorkerEvent::Shutdown => WorkerStep::LogoutAndStop,
    }
}

} // verus!
