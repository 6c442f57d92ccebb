use dungeoncrawl::geometry::Point;
use dungeoncrawl::systems::player_input::{
    accepts, find_placed_player, find_player, pick_up_item, player_input, usable, use_item,
};
use dungeoncrawl::world::{Command, Entity, EntitySnapshot, Key, TurnState, WorldView};

const PLAYER: Entity = 1;

fn blank(entity: Entity) -> EntitySnapshot {
    EntitySnapshot {
        entity,
        position: None,
        is_player: false,
        is_enemy: false,
        is_item: false,
        is_weapon: false,
        carried_by: None,
    }
}

fn player_at(x: i32, y: i32) -> EntitySnapshot {
    EntitySnapshot { position: Some(Point::new(x, y)), is_player: true, ..blank(PLAYER) }
}

fn enemy_at(entity: Entity, x: i32, y: i32) -> EntitySnapshot {
    EntitySnapshot { position: Some(Point::new(x, y)), is_enemy: true, ..blank(entity) }
}

fn item_at(entity: Entity, x: i32, y: i32) -> EntitySnapshot {
    EntitySnapshot { position: Some(Point::new(x, y)), is_item: true, ..blank(entity) }
}

fn weapon_at(entity: Entity, x: i32, y: i32) -> EntitySnapshot {
    EntitySnapshot { is_weapon: true, ..item_at(entity, x, y) }
}

fn carried_item(entity: Entity, carrier: Entity) -> EntitySnapshot {
    EntitySnapshot { is_item: true, carried_by: Some(carrier), ..blank(entity) }
}

fn carried_weapon(entity: Entity, carrier: Entity) -> EntitySnapshot {
    EntitySnapshot { is_weapon: true, ..carried_item(entity, carrier) }
}

fn world(entities: Vec<EntitySnapshot>) -> WorldView {
    WorldView { entities }
}

fn press(world: &WorldView, key: Key) -> (Vec<Command>, TurnState) {
    let mut commands: Vec<Command> = Vec::new();
    let mut turn = TurnState::AwaitingInput;
    assert!(accepts(world, key));
    player_input(world, &mut commands, &Some(key), &mut turn);
    (commands, turn)
}

#[test]
fn move_right_onto_free_cell() {
    let w = world(vec![enemy_at(2, 7, 5), player_at(5, 5), enemy_at(3, 5, 6)]);
    let (commands, turn) = press(&w, Key::Right);
    assert_eq!(
        commands,
        vec![Command::WantsToMove { entity: PLAYER, destination: Point::new(6, 5) }]
    );
    assert_eq!(turn, TurnState::PlayerTurn);
}

#[test]
fn each_movement_key_has_its_step() {
    let w = world(vec![player_at(5, 5)]);
    let keys = [(Key::Left, 4, 5), (Key::Right, 6, 5), (Key::Up, 5, 4), (Key::Down, 5, 6)];
    for (key, x, y) in keys {
        let (commands, turn) = press(&w, key);
        assert_eq!(
            commands,
            vec![Command::WantsToMove { entity: PLAYER, destination: Point::new(x, y) }]
        );
        assert_eq!(turn, TurnState::PlayerTurn);
    }
}

#[test]
fn move_right_into_enemy_attacks() {
    let w = world(vec![player_at(5, 5), enemy_at(2, 6, 5), enemy_at(3, 4, 5)]);
    let (commands, turn) = press(&w, Key::Right);
    assert_eq!(commands, vec![Command::WantsToAttack { attacker: PLAYER, victim: 2 }]);
    assert_eq!(turn, TurnState::PlayerTurn);
}

#[test]
fn every_enemy_at_destination_is_attacked() {
    let w = world(vec![enemy_at(4, 5, 4), player_at(5, 5), item_at(9, 5, 4), enemy_at(2, 5, 4)]);
    let (commands, _) = press(&w, Key::Up);
    assert_eq!(
        commands,
        vec![
            Command::WantsToAttack { attacker: PLAYER, victim: 4 },
            Command::WantsToAttack { attacker: PLAYER, victim: 2 },
        ]
    );
}

#[test]
fn no_key_changes_nothing() {
    let w = world(vec![player_at(5, 5)]);
    let mut commands: Vec<Command> = vec![Command::Delete { entity: 9 }];
    let mut turn = TurnState::AwaitingInput;
    player_input(&w, &mut commands, &None, &mut turn);
    assert_eq!(commands, vec![Command::Delete { entity: 9 }]);
    assert_eq!(turn, TurnState::AwaitingInput);
    let nobody = world(Vec::new());
    player_input(&nobody, &mut commands, &None, &mut turn);
    assert_eq!(commands.len(), 1);
    assert_eq!(turn, TurnState::AwaitingInput);
}

#[test]
fn other_key_only_ends_the_wait() {
    let w = world(vec![player_at(5, 5), enemy_at(2, 5, 5)]);
    let (commands, turn) = press(&w, Key::Other);
    assert!(commands.is_empty());
    assert_eq!(turn, TurnState::PlayerTurn);
}

#[test]
fn commands_are_appended() {
    let w = world(vec![player_at(5, 5)]);
    let mut commands: Vec<Command> = vec![Command::Delete { entity: 9 }];
    let mut turn = TurnState::AwaitingInput;
    player_input(&w, &mut commands, &Some(Key::Down), &mut turn);
    assert_eq!(
        commands,
        vec![
            Command::Delete { entity: 9 },
            Command::WantsToMove { entity: PLAYER, destination: Point::new(5, 6) },
        ]
    );
}

#[test]
fn pickup_swaps_the_weapon() {
    let w = world(vec![
        player_at(5, 5),
        carried_weapon(7, PLAYER),
        weapon_at(8, 5, 5),
        carried_weapon(6, 99),
    ]);
    let (commands, turn) = press(&w, Key::G);
    assert_eq!(
        commands,
        vec![
            Command::Delete { entity: 7 },
            Command::RemovePosition { entity: 8 },
            Command::Carry { entity: 8, carrier: PLAYER },
        ]
    );
    assert_eq!(turn, TurnState::PlayerTurn);
}

#[test]
fn pickup_takes_every_item_on_the_cell() {
    let w = world(vec![
        item_at(3, 5, 5),
        player_at(5, 5),
        item_at(4, 6, 5),
        carried_weapon(7, PLAYER),
        item_at(5, 5, 5),
        enemy_at(2, 5, 5),
    ]);
    let mut commands: Vec<Command> = Vec::new();
    assert_eq!(pick_up_item(&w, &mut commands), Point::zero());
    assert_eq!(
        commands,
        vec![
            Command::RemovePosition { entity: 3 },
            Command::Carry { entity: 3, carrier: PLAYER },
            Command::RemovePosition { entity: 5 },
            Command::Carry { entity: 5, carrier: PLAYER },
        ]
    );
}

#[test]
fn pickup_of_nothing_asks_nothing() {
    let w = world(vec![player_at(5, 5), item_at(4, 6, 5), carried_weapon(7, PLAYER)]);
    let (commands, turn) = press(&w, Key::G);
    assert!(commands.is_empty());
    assert_eq!(turn, TurnState::PlayerTurn);
}

#[test]
fn slot_beyond_inventory_asks_nothing() {
    let w = world(vec![player_at(5, 5), carried_item(4, PLAYER), carried_weapon(7, PLAYER)]);
    let (commands, turn) = press(&w, Key::Key2);
    assert!(commands.is_empty());
    assert_eq!(turn, TurnState::PlayerTurn);
    let (none, _) = press(&world(vec![player_at(5, 5)]), Key::Key1);
    assert!(none.is_empty());
}

#[test]
fn slots_count_usable_items_in_order() {
    let w = world(vec![
        carried_item(4, PLAYER),
        carried_weapon(7, PLAYER),
        carried_item(5, 99),
        player_at(5, 5),
        item_at(8, 5, 5),
        carried_item(6, PLAYER),
    ]);
    let (first, _) = press(&w, Key::Key1);
    assert_eq!(first, vec![Command::ActivateItem { used_by: PLAYER, item: 4 }]);
    let (second, _) = press(&w, Key::Key2);
    assert_eq!(second, vec![Command::ActivateItem { used_by: PLAYER, item: 6 }]);
    let (third, _) = press(&w, Key::Key3);
    assert!(third.is_empty());
}

#[test]
fn digit_keys_name_slots_from_zero() {
    let mut entities: Vec<EntitySnapshot> = vec![player_at(5, 5)];
    for i in 0..9u64 {
        entities.push(carried_item(10 + i, PLAYER));
    }
    let w = world(entities);
    let keys = [
        Key::Key1,
        Key::Key2,
        Key::Key3,
        Key::Key4,
        Key::Key5,
        Key::Key6,
        Key::Key7,
        Key::Key8,
        Key::Key9,
    ];
    for (slot, key) in keys.iter().enumerate() {
        let (commands, _) = press(&w, *key);
        assert_eq!(
            commands,
            vec![Command::ActivateItem { used_by: PLAYER, item: 10 + slot as u64 }]
        );
    }
}

#[test]
fn use_item_needs_no_position() {
    let w = world(vec![
        EntitySnapshot { is_player: true, ..blank(PLAYER) },
        carried_item(4, PLAYER),
    ]);
    let mut commands: Vec<Command> = Vec::new();
    assert_eq!(use_item(0, &w, &mut commands), Point::zero());
    assert_eq!(commands, vec![Command::ActivateItem { used_by: PLAYER, item: 4 }]);
    assert_eq!(find_player(&w), Some(PLAYER));
    assert_eq!(find_placed_player(&w), None);
    assert!(!accepts(&w, Key::Key1));
}

#[test]
fn first_player_in_world_order_acts() {
    let w = world(vec![
        EntitySnapshot { is_player: true, ..blank(20) },
        EntitySnapshot { entity: 21, ..player_at(3, 3) },
        player_at(5, 5),
    ]);
    assert_eq!(find_player(&w), Some(20));
    assert_eq!(find_placed_player(&w), Some((21, Point::new(3, 3))));
    let (commands, _) = press(&w, Key::Left);
    assert_eq!(commands, vec![Command::WantsToMove { entity: 21, destination: Point::new(2, 3) }]);
}

#[test]
fn world_without_player_is_refused() {
    let w = world(vec![enemy_at(2, 5, 5), item_at(3, 5, 5)]);
    assert!(!accepts(&w, Key::Right));
    assert!(!accepts(&w, Key::Other));
    assert_eq!(find_player(&w), None);
    assert_eq!(find_placed_player(&w), None);
}

#[test]
fn step_out_of_range_is_refused() {
    let w = world(vec![player_at(i32::MAX, i32::MIN)]);
    assert!(!accepts(&w, Key::Right));
    assert!(!accepts(&w, Key::Up));
    assert!(accepts(&w, Key::Left));
    assert!(accepts(&w, Key::Down));
    assert!(accepts(&w, Key::G));
    let (commands, _) = press(&w, Key::Left);
    assert_eq!(
        commands,
        vec![Command::WantsToMove { entity: PLAYER, destination: Point::new(i32::MAX - 1, i32::MIN) }]
    );
}

#[test]
fn usable_lists_the_slots() {
    let w = world(vec![
        carried_item(4, PLAYER),
        carried_weapon(7, PLAYER),
        carried_item(5, 99),
        player_at(5, 5),
        item_at(8, 5, 5),
        carried_item(6, PLAYER),
    ]);
    assert_eq!(usable(&w), vec![4, 6]);
    assert_eq!(usable(&world(vec![player_at(5, 5)])), Vec::<Entity>::new());
}
