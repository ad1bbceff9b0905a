use cdda::ai::{ai_action, decide_action};
use cdda::combat::{get_entity_stats, melee_attack, resolve_attack};
use cdda::crafting::CraftingManager;
use cdda::entity::{Entity, EntityManager, EntityType};
use cdda::fov::compute_fov;
use cdda::item::{ItemManager, ItemType};
use cdda::map::GameMap;
use cdda::messagelog::MessageLog;
use cdda::messages::{ActionType, ClientMessage, ServerMessage};
use cdda::net::{client_step, frame_header, frame_len, login, ConnStep, FrameError, LoginError};
use cdda::pathfinding::{find_path, find_step_toward};
use cdda::save::SavedMap;
use cdda::worldgen::sub_world_seed;
use cdda::sub_world::{
    global_to_local, local_to_global, SubWorld, SubWorldCmd, SubWorldEffect, SubWorldEvent,
};
use cdda::tile::{Tile, TileType};
use cdda::types::{Coord, SUBWORLD_SIZE};
use cdda::visible::VisibleSet;
use cdda::world_manager::WorldManager;

#[test]
fn test_combat_hit() {
    let result = melee_attack(5, 2, 6);
    assert!(result.hit);
    assert!(result.damage >= 6);
}

#[test]
fn test_combat_critical() {
    let mut had_critical = false;
    for _ in 0..100 {
        let result = melee_attack(0, 20, 5);
        if result.critical {
            had_critical = true;
            assert_eq!(result.damage, 10);
        }
    }
    assert!(had_critical, "Should have had at least one critical in 100 rolls");
}

#[test]
fn test_fov_empty_room() {
    let mut map = GameMap::new();
    for y in 0..20 {
        for x in 0..20 {
            map.set_tile(x, y, Tile::new(TileType::Floor));
        }
    }

    let origin = Coord::new(10, 10);
    let mut visible = VisibleSet::new();
    compute_fov(&map, origin, 8, &mut visible);

    assert!(visible.contains(&origin));
    assert!(visible.len() > 100);
}

#[test]
fn test_fov_blocked_by_wall() {
    let mut map = GameMap::new();
    for y in 0..20 {
        for x in 0..20 {
            map.set_tile(x, y, Tile::new(TileType::Floor));
        }
    }
    map.set_tile(12, 10, Tile::new(TileType::Wall));

    let origin = Coord::new(10, 10);
    let mut visible = VisibleSet::new();
    compute_fov(&map, origin, 10, &mut visible);

    assert!(visible.contains(&Coord::new(12, 10)));
    assert!(!visible.contains(&Coord::new(15, 10)));
}

#[test]
fn test_path_straight_line() {
    let mut map = GameMap::new();
    for y in 0..10 {
        for x in 0..10 {
            map.set_tile(x, y, Tile::new(TileType::Floor));
        }
    }
    let entities = EntityManager::new();

    let path = find_path(&map, Coord::new(0, 0), Coord::new(5, 0), &entities, 100);
    assert!(path.is_some());
    let path = path.unwrap();
    assert_eq!(path.last(), Some(&Coord::new(5, 0)));
}

#[test]
fn test_path_blocked() {
    let mut map = GameMap::new();
    for y in 0..10 {
        for x in 0..10 {
            map.set_tile(x, y, Tile::new(TileType::Floor));
        }
    }
    map.set_tile(3, 0, Tile::new(TileType::Wall));
    map.set_tile(3, 1, Tile::new(TileType::Wall));
    map.set_tile(3, 2, Tile::new(TileType::Wall));

    let entities = EntityManager::new();
    let path = find_path(&map, Coord::new(0, 0), Coord::new(5, 0), &entities, 100);
    assert!(path.is_some());
}

#[test]
fn test_coord_conversion() {
    let global = Coord::new(600, -100);
    let (sw_id, local) = global_to_local(global);
    let roundtrip = local_to_global(local, sw_id);
    assert_eq!(global, roundtrip);
    assert_eq!(sw_id, (1, -1));
}

#[test]
fn test_sub_world_creation() {
    let sw = SubWorld::new((0, 0), 12345);
    assert_eq!(sw.id, (0, 0));
    assert!(!sw.map.is_passable(0, 0));

    let mut floor_count = 0;
    for y in 0..SUBWORLD_SIZE {
        for x in 0..SUBWORLD_SIZE {
            if sw.map.is_passable(x, y) {
                floor_count += 1;
            }
        }
    }
    assert!(floor_count > 100, "expected >100 floor tiles, got {floor_count}");
    assert!(sw.entities.len() > 0, "expected some entities");
}

#[test]
fn transfer_routes_player_to_new_sub_world() {
    let mut mgr = WorldManager::new(42);

    let route = mgr.register_player(1, Coord::new(10, 10));
    assert!(route.created);
    assert_eq!(mgr.player_sub_world(1), Some((0, 0)));

    let route = mgr.transfer_player(1, (1, 0), Coord::new(256, 256));
    assert_eq!(route.sw_id, (1, 0));
    assert!(route.created);
    assert!(matches!(route.cmd, SubWorldCmd::PlayerJoin { player_id: 1, pos } if pos == Coord::new(256, 256)));

    assert_eq!(mgr.player_sub_world(1), Some((1, 0)));
}

// ---- further scenarios ----

/// A sub-world whose map is one 20 by 20 room of floor at (1, 1), with no creatures and
/// no items.
fn room_world() -> SubWorld {
    let mut map = GameMap::new();
    map.fill_rect(1, 1, 20, 20, TileType::Floor);
    SubWorld {
        id: (0, 0),
        map,
        entities: EntityManager::new(),
        items: ItemManager::new(),
        players: Vec::new(),
        turn: 0,
        log: MessageLog::default(),
        linked: false,
    }
}

fn last_log(sw: &SubWorld) -> String {
    sw.log.all().last().map(|l| l.text.clone()).unwrap_or_default()
}

#[test]
fn join_sends_world_state() {
    let mut sw = room_world();
    let effects = sw.handle_cmd(SubWorldCmd::PlayerJoin { player_id: 1, pos: Coord::new(5, 5) });
    assert_eq!(effects.len(), 1);
    match &effects[0] {
        SubWorldEffect::Send { player_id, msg: ServerMessage::WorldState { seq, player_pos, explored, explored_width, entities, hp, .. } } => {
            assert_eq!(*player_id, 1);
            assert_eq!(*seq, 0);
            assert_eq!(*player_pos, Coord::new(5, 5));
            assert_eq!(explored.len(), 961);
            assert_eq!(*explored_width, 31);
            assert!(explored[15 * 31 + 15]);
            assert_eq!(entities.len(), 1);
            assert_eq!(entities[0].name, "Player_1");
            assert!(entities[0].is_player);
            assert_eq!(*hp, 100);
        }
        other => panic!("unexpected effect {other:?}"),
    }
    assert_eq!(sw.players().len(), 1);
    assert_eq!(sw.entities.len(), 1);
    assert!(sw.map.explored[5 * 512 + 5]);
}

#[test]
fn world_state_in_other_sub_world_uses_global_coordinates() {
    let mut sw = room_world();
    sw.id = (1, -1);
    sw.handle_cmd(SubWorldCmd::PlayerJoin { player_id: 2, pos: Coord::new(5, 6) });
    match sw.world_state_for(2) {
        ServerMessage::WorldState { player_pos, visible_tiles, .. } => {
            assert_eq!(player_pos, Coord::new(517, -506));
            assert!(visible_tiles.iter().all(|t| t.pos.x >= 512 && t.pos.y < 0));
        }
        other => panic!("unexpected message {other:?}"),
    }
    match sw.world_state_for(99) {
        ServerMessage::Error { code, text } => {
            assert_eq!(code, 1);
            assert_eq!(text, "player not found");
        }
        other => panic!("unexpected message {other:?}"),
    }
}

#[test]
fn leave_logs_and_removes() {
    let mut sw = room_world();
    sw.handle_cmd(SubWorldCmd::PlayerJoin { player_id: 1, pos: Coord::new(5, 5) });
    let creatures = sw.entities.len();
    let effects = sw.handle_cmd(SubWorldCmd::PlayerLeave { player_id: 1 });
    assert!(effects.is_empty());
    let ps = sw.player(1).unwrap();
    assert!(!ps.connected);
    assert_eq!(ps.pos, Coord::new(5, 5));
    assert_eq!(sw.entities.len(), creatures);
    assert_eq!(last_log(&sw), "Player 1 left sub-world (0, 0)");
}

#[test]
fn disconnected_player_takes_no_damage() {
    let mut sw = room_world();
    sw.entities.spawn("Goblin".to_string(), EntityType::Goblin, Coord::new(6, 5), 8);
    sw.handle_cmd(SubWorldCmd::PlayerJoin { player_id: 1, pos: Coord::new(5, 5) });
    sw.handle_cmd(SubWorldCmd::PlayerLeave { player_id: 1 });
    for _ in 0..30 {
        sw.tick();
    }
    let ps = sw.player(1).unwrap();
    assert_eq!(ps.hp, 100);
    assert_eq!(ps.pos, Coord::new(5, 5));
}

#[test]
fn sub_world_rests_without_connected_players() {
    let mut sw = room_world();
    sw.handle_cmd(SubWorldCmd::PlayerJoin { player_id: 1, pos: Coord::new(5, 5) });
    assert!(sw.has_connected_players());
    sw.handle_cmd(SubWorldCmd::PlayerLeave { player_id: 1 });
    assert!(!sw.has_connected_players());
    assert!(sw.tick().is_empty());
    assert_eq!(sw.turn, 0);
}

#[test]
fn monsters_hunt_the_first_connected_player() {
    let mut sw = room_world();
    sw.handle_cmd(SubWorldCmd::PlayerJoin { player_id: 1, pos: Coord::new(2, 2) });
    sw.handle_cmd(SubWorldCmd::PlayerJoin { player_id: 2, pos: Coord::new(8, 8) });
    sw.entities.spawn("Goblin".to_string(), EntityType::Goblin, Coord::new(9, 8), 8);
    sw.handle_cmd(SubWorldCmd::PlayerLeave { player_id: 1 });
    assert_eq!(sw.first_connected_index(), Some(1));
    for _ in 0..3 {
        sw.tick();
    }
    assert_eq!(sw.turn, 3);
    assert_eq!(sw.player(1).unwrap().hp, 100);
    assert!(last_log(&sw).contains("Player_2"));
    let effects = sw.tick();
    assert_eq!(effects.len(), 1);
    match &effects[0] {
        SubWorldEffect::Update { player_id, .. } => assert_eq!(*player_id, 2),
        other => panic!("unexpected effect {other:?}"),
    }
}

#[test]
fn world_state_echoes_last_applied_action() {
    let mut sw = room_world();
    sw.handle_cmd(SubWorldCmd::PlayerJoin { player_id: 1, pos: Coord::new(5, 5) });
    sw.handle_cmd(SubWorldCmd::PlayerAction { player_id: 1, seq: 42, action: ActionType::Wait, target: None });
    match sw.world_state_for(1) {
        ServerMessage::WorldState { seq, .. } => assert_eq!(seq, 42),
        other => panic!("unexpected message {other:?}"),
    }
    let effects = sw.tick();
    match &effects[0] {
        SubWorldEffect::Update { player_id: 1, msg: ServerMessage::WorldState { seq, .. } } => assert_eq!(*seq, 42),
        other => panic!("unexpected effect {other:?}"),
    }
}

#[test]
fn moves_only_into_free_floor() {
    let mut sw = room_world();
    sw.handle_cmd(SubWorldCmd::PlayerJoin { player_id: 1, pos: Coord::new(1, 1) });
    sw.handle_cmd(SubWorldCmd::PlayerAction { player_id: 1, seq: 1, action: ActionType::MoveUp, target: None });
    assert_eq!(sw.player(1).unwrap().pos, Coord::new(1, 1));
    sw.handle_cmd(SubWorldCmd::PlayerAction { player_id: 1, seq: 2, action: ActionType::MoveDownRight, target: None });
    assert_eq!(sw.player(1).unwrap().pos, Coord::new(2, 2));
    sw.handle_cmd(SubWorldCmd::PlayerAction { player_id: 1, seq: 3, action: ActionType::Craft, target: None });
    assert_eq!(sw.player(1).unwrap().pos, Coord::new(2, 2));
}

#[test]
fn pickup_with_nothing_logs() {
    let mut sw = room_world();
    sw.handle_cmd(SubWorldCmd::PlayerJoin { player_id: 1, pos: Coord::new(5, 5) });
    sw.handle_cmd(SubWorldCmd::PlayerAction { player_id: 1, seq: 4, action: ActionType::Pickup, target: None });
    assert_eq!(last_log(&sw), "Nothing to pick up here.");
}

#[test]
fn pickup_takes_everything_underfoot() {
    let mut sw = room_world();
    sw.items.spawn_ground("Bread", ItemType::Food { nutrition: 30 }, Coord::new(5, 5), 1);
    sw.items.spawn_ground("Stone", ItemType::Food { nutrition: 1 }, Coord::new(6, 5), 1);
    sw.items.spawn_ground("Nuts", ItemType::Food { nutrition: 5 }, Coord::new(5, 5), 2);
    sw.handle_cmd(SubWorldCmd::PlayerJoin { player_id: 1, pos: Coord::new(5, 5) });
    sw.handle_cmd(SubWorldCmd::PlayerAction { player_id: 1, seq: 5, action: ActionType::Pickup, target: None });
    let left = sw.items.all_ground_items();
    assert_eq!(left.len(), 1);
    assert_eq!(left[0].0, Coord::new(6, 5));
}

#[test]
fn attack_without_enemy_logs() {
    let mut sw = room_world();
    sw.handle_cmd(SubWorldCmd::PlayerJoin { player_id: 1, pos: Coord::new(5, 5) });
    sw.handle_cmd(SubWorldCmd::PlayerAction { player_id: 1, seq: 6, action: ActionType::MeleeAttack, target: None });
    assert_eq!(last_log(&sw), "No enemy nearby to attack.");
}

#[test]
fn attack_hits_adjacent_monster() {
    let mut sw = room_world();
    sw.entities.spawn("Rat".to_string(), EntityType::Rat, Coord::new(6, 5), 100);
    sw.handle_cmd(SubWorldCmd::PlayerJoin { player_id: 1, pos: Coord::new(5, 5) });
    sw.handle_cmd(SubWorldCmd::PlayerAction { player_id: 1, seq: 7, action: ActionType::MeleeAttack, target: None });
    let rat = sw.entities.get(1).unwrap();
    // Rat defence is 0: every roll hits, for 5 or (critical) 10.
    assert!(rat.hp == 95 || rat.hp == 90);
    let line = last_log(&sw);
    assert!(line == "Player_1 hits Rat for 5 damage." || line == "Player_1 critically hits Rat for 10 damage!");
}

#[test]
fn attack_kills_weak_monster() {
    let mut sw = room_world();
    sw.entities.spawn("Rat".to_string(), EntityType::Rat, Coord::new(6, 6), 4);
    sw.handle_cmd(SubWorldCmd::PlayerJoin { player_id: 1, pos: Coord::new(5, 5) });
    sw.handle_cmd(SubWorldCmd::PlayerAction { player_id: 1, seq: 8, action: ActionType::MeleeAttack, target: None });
    assert!(sw.entities.get(1).is_none());
    assert_eq!(last_log(&sw), "Rat has been slain!");
}

#[test]
fn stairs_transfer_when_linked() {
    let mut sw = room_world();
    sw.map.set_tile(6, 5, Tile::new(TileType::StairsDown));
    sw.set_linked(true);
    sw.handle_cmd(SubWorldCmd::PlayerJoin { player_id: 1, pos: Coord::new(5, 5) });
    let effects = sw.handle_cmd(SubWorldCmd::PlayerAction { player_id: 1, seq: 9, action: ActionType::MoveRight, target: None });
    assert_eq!(effects.len(), 2);
    match &effects[0] {
        SubWorldEffect::Offer { player_id: 1, msg } => assert_eq!(
            *msg,
            ServerMessage::SubWorldTransfer { new_sub_world_id: (0, 1), pos: Coord::new(256, 768) }
        ),
        other => panic!("unexpected effect {other:?}"),
    }
    match &effects[1] {
        SubWorldEffect::Event { event: SubWorldEvent::TransferPlayer { player_id, from_sw, to_sw, pos } } => {
            assert_eq!((*player_id, *from_sw, *to_sw, *pos), (1, (0, 0), (0, 1), Coord::new(256, 256)));
        }
        other => panic!("unexpected effect {other:?}"),
    }
    assert!(sw.player(1).is_none());
    assert_eq!(last_log(&sw), "Player 1 transferred to (0, 1)");
}

#[test]
fn stairs_without_manager_just_move() {
    let mut sw = room_world();
    sw.map.set_tile(5, 4, Tile::new(TileType::StairsUp));
    sw.handle_cmd(SubWorldCmd::PlayerJoin { player_id: 1, pos: Coord::new(5, 5) });
    let effects = sw.handle_cmd(SubWorldCmd::PlayerAction { player_id: 1, seq: 10, action: ActionType::MoveUp, target: None });
    assert!(effects.is_empty());
    assert_eq!(sw.player(1).unwrap().pos, Coord::new(5, 4));
}

#[test]
fn tick_advances_and_broadcasts() {
    let mut sw = room_world();
    assert!(sw.tick().is_empty());
    assert_eq!(sw.turn, 0);
    sw.handle_cmd(SubWorldCmd::PlayerJoin { player_id: 1, pos: Coord::new(5, 5) });
    sw.handle_cmd(SubWorldCmd::PlayerJoin { player_id: 2, pos: Coord::new(9, 9) });
    let effects = sw.tick();
    assert_eq!(sw.turn, 1);
    assert_eq!(effects.len(), 2);
    match &effects[1] {
        SubWorldEffect::Update { player_id: 2, msg: ServerMessage::WorldState { seq, .. } } => assert_eq!(*seq, 0),
        other => panic!("unexpected effect {other:?}"),
    }
}

#[test]
fn monster_next_to_player_attacks_it() {
    let mut sw = room_world();
    sw.entities.spawn("Goblin".to_string(), EntityType::Goblin, Coord::new(6, 5), 8);
    sw.handle_cmd(SubWorldCmd::PlayerJoin { player_id: 1, pos: Coord::new(5, 5) });
    sw.tick();
    let hp = sw.player(1).unwrap().hp;
    assert!(hp == 100 || hp == 97 || hp == 94);
    assert!(last_log(&sw).starts_with("Goblin "));
}

#[test]
fn snapshot_saves_the_map() {
    let mut sw = room_world();
    let effects = sw.handle_cmd(SubWorldCmd::Snapshot);
    match &effects[0] {
        SubWorldEffect::Snapshot { map } => {
            assert_eq!((map.width, map.height), (512, 512));
            assert_eq!(map.tiles.len(), 262144);
            assert_eq!(map.tiles[512 + 1].tile_type, 0);
            assert_eq!(map.tiles[0].tile_type, 1);
        }
        other => panic!("unexpected effect {other:?}"),
    }
}

#[test]
fn same_seed_same_world() {
    let a = SubWorld::new((0, 0), 7);
    let b = SubWorld::new((0, 0), 7);
    let mut same = true;
    for y in 0..SUBWORLD_SIZE {
        for x in 0..SUBWORLD_SIZE {
            if a.map.get_tile(x, y) != b.map.get_tile(x, y) {
                same = false;
            }
        }
    }
    assert!(same);
    assert_eq!(a.entities.len(), b.entities.len());
}

#[test]
fn manager_routes_and_forgets() {
    let mut mgr = WorldManager::new(1);
    assert_eq!(mgr.allocate_player_id(), 1);
    assert_eq!(mgr.allocate_player_id(), 2);
    let r = mgr.register_player(2, Coord::new(600, -100));
    assert_eq!(r.sw_id, (1, -1));
    assert!(matches!(r.cmd, SubWorldCmd::PlayerJoin { player_id: 2, pos } if pos == Coord::new(88, 412)));
    let r2 = mgr.register_player(3, Coord::new(700, -1));
    assert!(!r2.created);
    match mgr.handle_player_action(2, 5, ActionType::Wait, Some(Coord::new(-1, 513))) {
        Some((sw, SubWorldCmd::PlayerAction { player_id: 2, seq: 5, action: ActionType::Wait, target })) => {
            assert_eq!(sw, (1, -1));
            assert_eq!(target, Some(Coord::new(511, 1)));
        }
        other => panic!("unexpected route {other:?}"),
    }
    assert!(mgr.handle_player_action(9, 1, ActionType::Wait, None).is_none());
    assert!(matches!(mgr.unregister_player(2), Some(((1, -1), SubWorldCmd::PlayerLeave { player_id: 2 }))));
    assert_eq!(mgr.player_sub_world(2), None);
    assert!(mgr.unregister_player(2).is_none());
    assert_eq!(mgr.snapshot_targets(), vec![(1, -1)]);
}

#[test]
fn frames_roundtrip_and_limit() {
    assert_eq!(frame_header(5), [0, 0, 0, 5]);
    assert_eq!(frame_header(70000), [0, 1, 17, 112]);
    assert_eq!(frame_len(frame_header(1048576)), Ok(1048576));
    assert_eq!(frame_len([0, 0, 1, 0]), Ok(256));
    assert_eq!(frame_len([0, 16, 0, 1]), Err(FrameError::TooLarge { len: 1048577 }));
}

#[test]
fn server_session_steps() {
    assert!(matches!(client_step(ClientMessage::Ping { seq: 9 }), ConnStep::Reply { msg: ServerMessage::Pong { seq: 9 } }));
    assert!(matches!(client_step(ClientMessage::Logout), ConnStep::Close));
    assert!(matches!(
        client_step(ClientMessage::PlayerAction { seq: 1, action: ActionType::MoveUp, target: None }),
        ConnStep::Act { seq: 1, action: ActionType::MoveUp, target: None }
    ));
    assert!(matches!(
        client_step(ClientMessage::Login { version: 1, player_name: "x".to_string() }),
        ConnStep::Ignore
    ));
    let mut wm = WorldManager::new(3);
    match login(&mut wm, ClientMessage::Login { version: 1, player_name: "ann".to_string() }) {
        Ok((pid, name, route)) => {
            assert_eq!(pid, 1);
            assert_eq!(name, "ann");
            assert_eq!(route.sw_id, (0, 0));
            assert!(matches!(route.cmd, SubWorldCmd::PlayerJoin { player_id: 1, pos } if pos == Coord::new(256, 256)));
        }
        Err(e) => panic!("login refused: {e:?}"),
    }
    assert!(matches!(login(&mut wm, ClientMessage::Logout), Err(LoginError::ExpectedLogin)));
}

#[test]
fn tiles_in_radius_at_corner() {
    let map = GameMap::new();
    let cells: Vec<(i32, i32)> = map.tiles_in_radius(0, 0, 1).iter().map(|t| (t.0, t.1)).collect();
    assert_eq!(cells, vec![(0, 0), (1, 0), (0, 1), (1, 1)]);
    assert!(map.tiles_in_radius(3, 3, -1).is_empty());
    assert_eq!(map.tiles_in_radius(10, 10, 2).len(), 25);
}

#[test]
fn crafting_checks_names_and_amounts() {
    let book = CraftingManager::new();
    assert!(book.can_craft("Bandage", &[("Cloth".to_string(), 2)]));
    assert!(!book.can_craft("Bandage", &[("Cloth".to_string(), 1)]));
    assert!(!book.can_craft("Bandages", &[("Cloth".to_string(), 2)]));
    assert!(book.can_craft("Torch", &[("Cloth".to_string(), 1), ("Stick".to_string(), 3)]));
}

#[test]
fn combat_formula_exact() {
    let r = resolve_attack(3, 2, 5, 20);
    assert!(r.hit && r.critical);
    assert_eq!(r.damage, 10);
    let r = resolve_attack(1, 10, 4, 8);
    assert!(!r.hit);
    assert_eq!(r.damage, 0);
    let r = resolve_attack(1, 10, 4, 9);
    assert!(r.hit && !r.critical);
    assert_eq!(r.damage, 4);
    assert_eq!(get_entity_stats(0), (3, 2, 5));
    assert_eq!(get_entity_stats(9), (1, 1, 3));
    for _ in 0..50 {
        let r = melee_attack(1, 1, 1);
        assert!(1 <= r.roll && r.roll <= 20);
    }
}

#[test]
fn global_local_roundtrip_negative() {
    for g in [Coord::new(-1, -1), Coord::new(-512, 511), Coord::new(i32::MIN, i32::MAX), Coord::new(0, 0)] {
        let (sw, l) = global_to_local(g);
        assert!(0 <= l.x && l.x < 512 && 0 <= l.y && l.y < 512);
        assert_eq!(local_to_global(l, sw), g);
    }
    assert_eq!(global_to_local(Coord::new(-1, -1)).0, (-1, -1));
}

#[test]
fn log_keeps_newest_lines() {
    let mut log = MessageLog::new(2);
    log.info(1, "a".to_string());
    log.info(2, "b".to_string());
    log.info(3, "c".to_string());
    let all: Vec<String> = log.all().iter().map(|l| l.text.clone()).collect();
    assert_eq!(all, vec!["b".to_string(), "c".to_string()]);
    assert_eq!(log.recent(5)[0].text, "c");
}

#[test]
fn generated_world_has_walls_around_and_stairs_down() {
    let sw = SubWorld::new((2, -3), 99);
    let mut stairs = 0;
    for y in 0..SUBWORLD_SIZE {
        for x in 0..SUBWORLD_SIZE {
            let t = sw.map.get_tile(x, y).unwrap();
            if x < 2 || y < 2 || x >= 510 || y >= 510 {
                assert_eq!(t.tile_type, TileType::Wall);
            }
            if t.tile_type == TileType::StairsDown {
                stairs += 1;
            }
            assert!(!sw.map.explored[(y * 512 + x) as usize]);
        }
    }
    assert_eq!(stairs, 1);
    for e in sw.entities.all() {
        assert!(e.pos.x >= 2 && e.pos.x < 510 && e.pos.y >= 2 && e.pos.y < 510);
        assert_eq!(e.hp, e.max_hp);
        assert!(matches!(e.name.as_str(), "Zombie" | "Skeleton" | "Goblin" | "Rat"));
    }
    for (pos, stack) in sw.items.all_ground_items() {
        assert!(pos.x >= 2 && pos.x < 510 && pos.y >= 2 && pos.y < 510);
        assert_eq!(stack.quantity, 1);
    }
}

#[test]
fn fov_always_sees_neighbours() {
    let map = GameMap::new();
    let origin = Coord::new(10, 10);
    let mut visible = VisibleSet::new();
    compute_fov(&map, origin, 1, &mut visible);
    assert_eq!(visible.len(), 5);
    for (x, y) in [(10, 11), (10, 9), (11, 10), (9, 10)] {
        assert!(visible.contains(&Coord::new(x, y)));
    }
    compute_fov(&map, origin, 2, &mut visible);
    for dy in -1..=1 {
        for dx in -1..=1 {
            assert!(visible.contains(&Coord::new(10 + dx, 10 + dy)));
        }
    }
    assert!(!visible.contains(&Coord::new(12, 10)));
}

#[test]
fn path_to_walled_in_goal_is_none() {
    let mut map = GameMap::new();
    for y in 0..10 {
        for x in 0..10 {
            map.set_tile(x, y, Tile::new(TileType::Floor));
        }
    }
    for y in 4..7 {
        for x in 4..7 {
            if x != 5 || y != 5 {
                map.set_tile(x, y, Tile::new(TileType::Wall));
            }
        }
    }
    let entities = EntityManager::new();
    assert!(find_path(&map, Coord::new(0, 0), Coord::new(5, 5), &entities, 100).is_none());
    let path = find_path(&map, Coord::new(0, 0), Coord::new(3, 3), &entities, 100).unwrap();
    assert_eq!(path.first(), Some(&Coord::new(0, 0)));
    assert_eq!(path.last(), Some(&Coord::new(3, 3)));
    assert_eq!(path.len(), 4);
    assert!(find_path(&map, Coord::new(0, 0), Coord::new(3, 3), &entities, 3).is_none());
    assert!(find_path(&map, Coord::new(0, 0), Coord::new(9, 9), &entities, 100).is_none());
    assert_eq!(find_path(&map, Coord::new(2, 2), Coord::new(2, 2), &entities, 100), Some(vec![]));
}

#[test]
fn fov_in_open_ground_is_the_whole_disk() {
    let mut map = GameMap::new();
    for y in 0..30 {
        for x in 0..30 {
            map.set_tile(x, y, Tile::new(TileType::Floor));
        }
    }
    let origin = Coord::new(15, 15);
    let mut visible = VisibleSet::new();
    compute_fov(&map, origin, 5, &mut visible);
    let mut disk = 0;
    for dy in -6..=6i32 {
        for dx in -6..=6i32 {
            let inside = dx * dx + dy * dy <= 25;
            if inside {
                disk += 1;
            }
            assert_eq!(visible.contains(&Coord::new(15 + dx, 15 + dy)), inside);
        }
    }
    assert_eq!(visible.len(), disk);
    assert_eq!(disk, 81);
}

#[test]
fn fov_hides_what_lies_straight_behind_walls() {
    let mut map = GameMap::new();
    for y in 0..30 {
        for x in 0..30 {
            map.set_tile(x, y, Tile::new(TileType::Floor));
        }
    }
    map.set_tile(18, 15, Tile::new(TileType::Wall));
    map.set_tile(11, 15, Tile::new(TileType::Wall));
    map.set_tile(15, 17, Tile::new(TileType::Wall));
    map.set_tile(15, 14, Tile::new(TileType::Wall));
    let origin = Coord::new(15, 15);
    let mut visible = VisibleSet::new();
    compute_fov(&map, origin, 8, &mut visible);
    for (x, y) in [(18, 15), (11, 15), (15, 17), (15, 14)] {
        assert!(visible.contains(&Coord::new(x, y)));
    }
    for k in 1..=5 {
        assert!(!visible.contains(&Coord::new(18 + k, 15)));
        assert!(!visible.contains(&Coord::new(11 - k, 15)));
        assert!(!visible.contains(&Coord::new(15, 17 + k)));
        assert!(!visible.contains(&Coord::new(15, 14 - k)));
    }
    assert!(visible.contains(&Coord::new(17, 15)));
    assert!(visible.contains(&Coord::new(15, 16)));
}

#[test]
fn path_around_a_wall_is_a_cheapest_one() {
    let mut map = GameMap::new();
    for y in 0..10 {
        for x in 0..10 {
            map.set_tile(x, y, Tile::new(TileType::Floor));
        }
    }
    map.set_tile(3, 0, Tile::new(TileType::Wall));
    map.set_tile(3, 1, Tile::new(TileType::Wall));
    map.set_tile(3, 2, Tile::new(TileType::Wall));
    let entities = EntityManager::new();
    let path = find_path(&map, Coord::new(0, 0), Coord::new(5, 0), &entities, 100).unwrap();
    let mut cost = 0;
    for w in path.windows(2) {
        let (a, b) = (w[0], w[1]);
        assert!((a.x - b.x).abs() <= 1 && (a.y - b.y).abs() <= 1 && a != b);
        cost += if a.x != b.x && a.y != b.y { 14 } else { 10 };
    }
    assert_eq!(cost, 80);
    assert_eq!(path[0], Coord::new(0, 0));
}

#[test]
fn saved_map_codec_preserves_tiles_and_explored() {
    let mut map = GameMap::new();
    map.set_tile(10, 10, Tile::new(TileType::Floor));
    map.set_tile(11, 10, Tile::new(TileType::Wall));
    map.set_tile(12, 10, Tile::new(TileType::Door { open: false }));
    map.set_explored(10, 10, true);

    let saved = SavedMap::from_map(&map);

    assert_eq!(saved.width, map.width());
    assert_eq!(saved.height, map.height());
    assert_eq!(saved.tiles.len(), (map.width() * map.height()) as usize);
    assert_eq!(saved.explored.len(), saved.tiles.len());
    let idx = (10 * map.width() + 11) as usize;
    assert_eq!(saved.tiles[idx].tile_type, 1);
    assert_eq!(saved.tiles[(10 * map.width() + 10) as usize].tile_type, 0);
    assert!(saved.explored[(10 * map.width() + 10) as usize]);
    assert!(!saved.explored[idx]);
}

#[test]
fn sub_world_seeds_mix_in_the_id() {
    assert_eq!(sub_world_seed(7, (0, 0)), 7);
    assert_eq!(sub_world_seed(12345, (1, -1)), 4921441182957841943);
    assert_eq!(sub_world_seed(0, (-3, 2)), 2239725483947099415);
}

fn floor_room() -> GameMap {
    let mut map = GameMap::new();
    for y in 0..20 {
        for x in 0..20 {
            map.set_tile(x, y, Tile::new(TileType::Floor));
        }
    }
    map
}

fn goblin_at(x: i32, y: i32) -> Entity {
    Entity {
        id: 4,
        name: "Goblin".to_string(),
        entity_type: EntityType::Goblin,
        pos: Coord::new(x, y),
        hp: 8,
        max_hp: 8,
    }
}

#[test]
fn decide_action_acts_on_the_given_step() {
    let map = floor_room();
    let entities = EntityManager::new();
    let g = goblin_at(5, 5);
    let player = Coord::new(9, 5);
    assert_eq!(
        decide_action(&g, &map, &entities, player, 8, 15, Some(Coord::new(6, 6))),
        Some(ActionType::MoveDownRight)
    );
    assert_eq!(decide_action(&g, &map, &entities, Coord::new(6, 5), 8, 15, None), Some(ActionType::MeleeAttack));
    // No step: the fixed wandering step (id 4 gives 28 % 4 == 0, one cell left).
    assert_eq!(decide_action(&g, &map, &entities, player, 8, 15, None), Some(ActionType::MoveLeft));
    assert_eq!(decide_action(&g, &map, &entities, Coord::new(19, 19), 8, 10, None), None);
    assert_eq!(ai_action(&g, &map, &entities, player, 8, 15), Some(ActionType::MoveRight));
}

#[test]
fn chasing_monster_takes_the_step_toward_the_player() {
    let mut map = floor_room();
    map.set_tile(6, 4, Tile::new(TileType::Wall));
    map.set_tile(6, 5, Tile::new(TileType::Wall));
    map.set_tile(6, 6, Tile::new(TileType::Wall));
    let entities = EntityManager::new();
    let g = goblin_at(5, 5);
    let player = Coord::new(9, 5);
    let step = find_step_toward(&map, g.pos, player, &entities).unwrap();
    assert_eq!(Some(step), find_path(&map, g.pos, player, &entities, 100).map(|p| p[1]));
    let expected = decide_action(&g, &map, &entities, player, 8, 15, Some(step));
    assert_eq!(ai_action(&g, &map, &entities, player, 8, 15), expected);
    assert!(matches!(expected, Some(ActionType::MoveUp) | Some(ActionType::MoveDown)));
}

#[test]
fn generated_world_has_rooms_monsters_and_items_inside_rooms() {
    let sw = SubWorld::new((0, 0), 12345);
    let mut floor = 0;
    for y in 0..512 {
        for x in 0..512 {
            if sw.map.is_passable(x, y) {
                floor += 1;
            }
        }
    }
    assert!(floor > 100);
    for e in sw.entities.all() {
        assert!(e.pos.x >= 3 && e.pos.x <= 508 && e.pos.y >= 3 && e.pos.y <= 508);
        assert!(sw.map.is_passable(e.pos.x, e.pos.y));
    }
}

#[test]
fn step_toward_is_the_second_cell_of_the_path() {
    let mut map = GameMap::new();
    for y in 0..12 {
        for x in 0..12 {
            map.set_tile(x, y, Tile::new(TileType::Floor));
        }
    }
    map.set_tile(4, 3, Tile::new(TileType::Wall));
    map.set_tile(4, 4, Tile::new(TileType::Wall));
    map.set_tile(4, 5, Tile::new(TileType::Wall));
    let entities = EntityManager::new();
    let start = Coord::new(2, 4);
    let goal = Coord::new(8, 4);
    let first = find_path(&map, start, goal, &entities, 100).unwrap();
    let second = find_path(&map, start, goal, &entities, 100).unwrap();
    assert_eq!(first, second);
    assert_eq!(find_step_toward(&map, start, goal, &entities), Some(first[1]));
    assert_eq!(find_step_toward(&map, start, start, &entities), None);
    assert_eq!(find_step_toward(&map, start, Coord::new(300, 300), &entities), None);
}

#[test]
fn same_seed_generates_the_same_sub_world() {
    let a = SubWorld::new((3, -2), 777);
    let b = SubWorld::new((3, -2), 777);
    for y in 0..512 {
        for x in 0..512 {
            assert_eq!(a.map.get_tile(x, y), b.map.get_tile(x, y));
        }
    }
    assert_eq!(a.entities.len(), b.entities.len());
    for (e, f) in a.entities.all().iter().zip(b.entities.all().iter()) {
        assert_eq!((e.id, &e.name, e.pos, e.hp), (f.id, &f.name, f.pos, f.hp));
    }
    let c = SubWorld::new((3, -1), 777);
    let mut differ = false;
    for y in 0..512 {
        for x in 0..512 {
            if a.map.get_tile(x, y) != c.map.get_tile(x, y) {
                differ = true;
            }
        }
    }
    assert!(differ);
}
