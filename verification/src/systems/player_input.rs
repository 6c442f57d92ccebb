use vstd::prelude::*;
use crate::geometry::Point;
use crate::world::{Command, Entity, EntitySnapshot, Key, TurnState, WorldView};

verus! {

/// Whether `e` is a player that stands on the map.
pub open spec fn is_placed_player(e: EntitySnapshot) -> bool {
    e.is_player && e.position is Some
}

/// The first player of `entities` that stands on the map.
pub open spec fn first_placed_player(entities: Seq<EntitySnapshot>) -> Option<EntitySnapshot>
    decreases entities.len(),
{
    if entities.len() == 0 {
        None
    } else if is_placed_player(entities[0]) {
        Some(entities[0])
    } else {
        first_placed_player(entities.drop_first())
    }
}

/// The first player of `entities`, on the map or not.
pub open spec fn first_player(entities: Seq<EntitySnapshot>) -> Option<EntitySnapshot>
    decreases entities.len(),
{
    if entities.len() == 0 {
        None
    } else if entities[0].is_player {
        Some(entities[0])
    } else {
        first_player(entities.drop_first())
    }
}

/// Where there is a player on the map, there is a player.
pub proof fn lemma_placed_player_is_player(entities: Seq<EntitySnapshot>)
    requires
        first_placed_player(entities) is Some,
    ensures
        first_player(entities) is Some,
    decreases entities.len(),
{
    if entities.len() > 0 && !entities[0].is_player {
        lemma_placed_player_is_player(entities.drop_first());
    }
}

/// The first player that stands on the map, with its position.
pub fn find_placed_player(world: &WorldView) -> (found: Option<(Entity, Point)>)
    ensures
        match first_placed_player(world@) {
            Some(e) => found == Some((e.entity, e.position->Some_0)),
            None => found.is_none(),
        },
{
    let mut i: usize = 0;
    assert(world@.skip(0) =~= world@);
    while i < world.entities.len()
        invariant
            i <= world@.len(),
            first_placed_player(world@) == first_placed_player(world@.skip(i as int)),
        decreases world.entities.len() - i,
    {
        let e = world.entities[i];
        assert(world@.skip(i as int)[0] == world@[i as int]);
        assert(world@.skip(i as int).drop_first() =~= world@.skip(i + 1));
        if e.is_player {
            match e.position {
                Some(pos) => {
                    return Some((e.entity, pos));
                },
                None => {},
            }
        }
        i = i + 1;
    }
    None
}

/// The first player, on the map or not.
pub fn find_player(world: &WorldView) -> (found: Option<Entity>)
    ensures
        match first_player(world@) {
            Some(e) => found == Some(e.entity),
            None => found.is_none(),
        },
{
    let mut i: usize = 0;
    assert(world@.skip(0) =~= world@);
    while i < world.entities.len()
        invariant
            i <= world@.len(),
            first_player(world@) == first_player(world@.skip(i as int)),
        decreases world.entities.len() - i,
    {
        let e = world.entities[i];
        assert(world@.skip(i as int)[0] == world@[i as int]);
        assert(world@.skip(i as int).drop_first() =~= world@.skip(i + 1));
        if e.is_player {
            return Some(e.entity);
        }
        i = i + 1;
    }
    None
}

/// The item that `player` can use: carried by `player`, and no weapon.
pub open spec fn usable_by(player: Entity) -> spec_fn(EntitySnapshot) -> Option<Entity> {
    |e: EntitySnapshot|
        if e.is_item && e.carried_by == Some(player) && !e.is_weapon {
            Some(e.entity)
        } else {
            None
        }
}

/// The items that `player` can use, in the order of the world.
pub open spec fn usable_items(entities: Seq<EntitySnapshot>, player: Entity) -> Seq<Entity> {
    entities.filter_map(usable_by(player))
}

/// The items that the first player can use, in the order of their slots: the
/// item in slot `n` stands at position `n`.
pub fn usable(world: &WorldView) -> (items: Vec<Entity>)
    requires
        first_player(world@) is Some,
    ensures
        items@ == usable_items(world@, first_player(world@)->Some_0.entity),
{
    let player = find_player(world).unwrap();
    let ghost f = usable_by(player);
    let mut items: Vec<Entity> = Vec::new();
    let mut i: usize = 0;
    assert(world@.take(0) =~= Seq::<EntitySnapshot>::empty());
    assert(items@ =~= world@.take(0).filter_map(f));
    while i < world.entities.len()
        invariant
            i <= world@.len(),
            f == usable_by(player),
            items@ == world@.take(i as int).filter_map(f),
        decreases world.entities.len() - i,
    {
        let e = world.entities[i];
        proof {
            world@.lemma_filter_map_take_succ(f, i as int);
        }
        let carried = match e.carried_by {
            Some(carrier) => carrier == player,
            None => false,
        };
        if e.is_item && carried && !e.is_weapon {
            items.push(e.entity);
        }
        assert(items@ =~= world@.take(i + 1).filter_map(f));
        i = i + 1;
    }
    assert(world@.take(world@.len() as int) =~= world@);
    items
}

/// What using the item in slot `n` asks for: that the first player use the
/// `n`-th of the items it can use, counted from 0; nothing where it has no
/// such item.
pub open spec fn use_item_commands(entities: Seq<EntitySnapshot>, n: nat) -> Seq<Command> {
    let player = first_player(entities)->Some_0.entity;
    let items = usable_items(entities, player);
    if n < items.len() {
        seq![Command::ActivateItem { used_by: player, item: items[n as int] }]
    } else {
        Seq::empty()
    }
}

/// Asks for the item in slot `n` of the player to be used, if the player has
/// that many items. The player stays where it is: the step that is returned
/// is zero.
pub fn use_item(n: usize, world: &WorldView, commands: &mut Vec<Command>) -> (delta: Point)
    requires
        first_player(world@) is Some,
    ensures
        delta == (Point { x: 0, y: 0 }),
        final(commands)@ == old(commands)@ + use_item_commands(world@, n as nat),
{
    let player = find_player(world).unwrap();
    let ghost f = usable_by(player);
    let mut count: usize = 0;
    let mut i: usize = 0;
    assert(world@.take(0) =~= Seq::<EntitySnapshot>::empty());
    while i < world.entities.len()
        invariant
            i <= world@.len(),
            f == usable_by(player),
            first_player(world@) is Some,
            player == first_player(world@)->Some_0.entity,
            count == world@.take(i as int).filter_map(f).len(),
            count <= i,
            count <= n,
            commands@ == old(commands)@,
        decreases world.entities.len() - i,
    {
        let e = world.entities[i];
        proof {
            world@.lemma_filter_map_take_succ(f, i as int);
        }
        let carried = match e.carried_by {
            Some(carrier) => carrier == player,
            None => false,
        };
        if e.is_item && carried && !e.is_weapon {
            if count == n {
                proof {
                    let head = world@.take(i + 1);
                    let tail = world@.skip(i + 1);
                    assert(world@ =~= head + tail);
                    lemma_filter_map_add(head, tail, f);
                    assert(usable_items(world@, player)[n as int] == e.entity);
                    assert(old(commands)@ + use_item_commands(world@, n as nat) =~= old(
                        commands,
                    )@.push(Command::ActivateItem { used_by: player, item: e.entity }));
                }
                commands.push(Command::ActivateItem { used_by: player, item: e.entity });
                return Point::zero();
            }
            count = count + 1;
        }
        i = i + 1;
    }
    proof {
        assert(world@.take(world@.len() as int) =~= world@);
        assert(old(commands)@ + use_item_commands(world@, n as nat) =~= old(commands)@);
    }
    Point::zero()
}

/// Picking from two sequences laid end to end is picking from each and
/// laying the results end to end.
pub proof fn lemma_filter_map_add<A, B>(a: Seq<A>, b: Seq<A>, f: spec_fn(A) -> Option<B>)
    ensures
        (a + b).filter_map(f) == a.filter_map(f) + b.filter_map(f),
    decreases b.len(),
{
    if b.len() == 0 {
        assert(a + b =~= a);
        assert(a.filter_map(f) + b.filter_map(f) =~= a.filter_map(f));
    } else {
        lemma_filter_map_add(a, b.drop_last(), f);
        assert((a + b).drop_last() =~= a + b.drop_last());
        assert((a + b).last() == b.last());
        match f(b.last()) {
            Some(v) => {
                assert(a.filter_map(f) + (b.drop_last().filter_map(f) + seq![v]) =~= (a.filter_map(f)
                    + b.drop_last().filter_map(f)) + seq![v]);
            },
            None => {},
        }
    }
}

/// The order to delete `e`, if `e` is a weapon that `player` carries.
pub open spec fn wielded_by(player: Entity) -> spec_fn(EntitySnapshot) -> Option<Command> {
    |e: EntitySnapshot|
        if e.is_weapon && e.carried_by == Some(player) {
            Some(Command::Delete { entity: e.entity })
        } else {
            None
        }
}

/// The orders that rid `player` of the weapons it carries.
pub open spec fn evictions(entities: Seq<EntitySnapshot>, player: Entity) -> Seq<Command> {
    entities.filter_map(wielded_by(player))
}

/// Whether `e` is an item that lies at `pos`.
pub open spec fn lies_at(e: EntitySnapshot, pos: Point) -> bool {
    e.is_item && e.position == Some(pos)
}

/// What picking up `item` asks for: where it is a weapon, first that the
/// weapons which `player` carries be deleted; then that `item` leave the map
/// and be carried by `player`.
pub open spec fn pick_up_one(entities: Seq<EntitySnapshot>, player: Entity, item: EntitySnapshot) -> Seq<
    Command,
> {
    (if item.is_weapon {
        evictions(entities, player)
    } else {
        Seq::empty()
    }) + seq![
        Command::RemovePosition { entity: item.entity },
        Command::Carry { entity: item.entity, carrier: player },
    ]
}

/// What picking up the items at `pos` among the first `upto` entities asks for.
pub open spec fn pick_ups(entities: Seq<EntitySnapshot>, upto: nat, player: Entity, pos: Point) -> Seq<
    Command,
>
    decreases upto,
{
    if upto == 0 {
        Seq::empty()
    } else {
        let e = entities[upto - 1];
        pick_ups(entities, (upto - 1) as nat, player, pos) + (if lies_at(e, pos) {
            pick_up_one(entities, player, e)
        } else {
            Seq::empty()
        })
    }
}

/// What the pickup key asks for: that the player pick up every item that
/// lies where it stands, in the order of the world.
pub open spec fn pick_up_commands(entities: Seq<EntitySnapshot>) -> Seq<Command> {
    let player = first_placed_player(entities)->Some_0;
    pick_ups(entities, entities.len(), player.entity, player.position->Some_0)
}

/// Asks for the weapons that `player` carries to be deleted.
fn evict_weapons(world: &WorldView, player: Entity, commands: &mut Vec<Command>)
    ensures
        final(commands)@ == old(commands)@ + evictions(world@, player),
{
    let ghost f = wielded_by(player);
    let mut i: usize = 0;
    assert(world@.take(0) =~= Seq::<EntitySnapshot>::empty());
    assert(commands@ =~= old(commands)@ + world@.take(0).filter_map(f));
    while i < world.entities.len()
        invariant
            i <= world@.len(),
            f == wielded_by(player),
            commands@ == old(commands)@ + world@.take(i as int).filter_map(f),
        decreases world.entities.len() - i,
    {
        let e = world.entities[i];
        proof {
            world@.lemma_filter_map_take_succ(f, i as int);
        }
        let carried = match e.carried_by {
            Some(carrier) => carrier == player,
            None => false,
        };
        if e.is_weapon && carried {
            commands.push(Command::Delete { entity: e.entity });
        }
        assert(commands@ =~= old(commands)@ + world@.take(i + 1).filter_map(f));
        i = i + 1;
    }
    assert(world@.take(world@.len() as int) =~= world@);
}

/// Asks for every item that lies where the player stands to be picked up.
/// The player stays where it is: the step that is returned is zero.
pub fn pick_up_item(world: &WorldView, commands: &mut Vec<Command>) -> (delta: Point)
    requires
        first_placed_player(world@) is Some,
    ensures
        delta == (Point { x: 0, y: 0 }),
        final(commands)@ == old(commands)@ + pick_up_commands(world@),
{
    let (player, player_pos) = find_placed_player(world).unwrap();
    let mut i: usize = 0;
    assert(commands@ =~= old(commands)@ + pick_ups(world@, 0, player, player_pos));
    while i < world.entities.len()
        invariant
            i <= world@.len(),
            commands@ == old(commands)@ + pick_ups(world@, i as nat, player, player_pos),
        decreases world.entities.len() - i,
    {
        let e = world.entities[i];
        let here = match e.position {
            Some(pos) => pos == player_pos,
            None => false,
        };
        let ghost before = commands@;
        if e.is_item && here {
            if e.is_weapon {
                evict_weapons(world, player, commands);
            }
            commands.push(Command::RemovePosition { entity: e.entity });
            commands.push(Command::Carry { entity: e.entity, carrier: player });
            assert(commands@ =~= before + pick_up_one(world@, player, e));
        }
        assert(commands@ =~= old(commands)@ + pick_ups(world@, (i + 1) as nat, player, player_pos));
        i = i + 1;
    }
    Point::zero()
}

/// The step that a key stands for; zero for a key that is no movement key.
pub open spec fn key_delta(key: Key) -> Point {
    match key {
        Key::Left => Point { x: -1i32, y: 0 },
        Key::Right => Point { x: 1, y: 0 },
        Key::Up => Point { x: 0, y: -1i32 },
        Key::Down => Point { x: 0, y: 1 },
        _ => Point { x: 0, y: 0 },
    }
}

/// What a key asks for that is not a step: `G` picks up, the digit keys use
/// the item in the slot one below the digit.
pub open spec fn key_action(entities: Seq<EntitySnapshot>, key: Key) -> Seq<Command> {
    match key {
        Key::G => pick_up_commands(entities),
        Key::Key1 => use_item_commands(entities, 0),
        Key::Key2 => use_item_commands(entities, 1),
        Key::Key3 => use_item_commands(entities, 2),
        Key::Key4 => use_item_commands(entities, 3),
        Key::Key5 => use_item_commands(entities, 4),
        Key::Key6 => use_item_commands(entities, 5),
        Key::Key7 => use_item_commands(entities, 6),
        Key::Key8 => use_item_commands(entities, 7),
        Key::Key9 => use_item_commands(entities, 8),
        _ => Seq::empty(),
    }
}

/// The order that `attacker` strike `e`, if `e` is an enemy that stands at `dest`.
pub open spec fn attack_on(attacker: Entity, dest: Point) -> spec_fn(EntitySnapshot) -> Option<Command> {
    |e: EntitySnapshot|
        if e.is_enemy && e.position == Some(dest) {
            Some(Command::WantsToAttack { attacker, victim: e.entity })
        } else {
            None
        }
}

/// What the step `delta` of the player asks for: nothing where the step is
/// zero; an attack on every enemy that stands where the step leads; the move
/// itself where no enemy stands there.
pub open spec fn step_commands(entities: Seq<EntitySnapshot>, delta: Point) -> Seq<Command> {
    let player = first_placed_player(entities)->Some_0;
    let destination = player.position->Some_0.offset(delta);
    let attacks = entities.filter_map(attack_on(player.entity, destination));
    if delta.x == 0 && delta.y == 0 {
        Seq::empty()
    } else if attacks.len() > 0 {
        attacks
    } else {
        seq![Command::WantsToMove { entity: player.entity, destination }]
    }
}

/// Everything that `key` asks for.
pub open spec fn key_commands(entities: Seq<EntitySnapshot>, key: Key) -> Seq<Command> {
    key_action(entities, key) + step_commands(entities, key_delta(key))
}

/// Whether `key` is one of the four keys that move the player.
pub open spec fn is_movement(key: Key) -> bool {
    key == Key::Left || key == Key::Right || key == Key::Up || key == Key::Down
}

/// Where the step that `key` stands for leads the player.
pub open spec fn destination(entities: Seq<EntitySnapshot>, key: Key) -> Point {
    first_placed_player(entities)->Some_0.position->Some_0.offset(key_delta(key))
}

/// The test whether an entity is an enemy that stands at `pos`.
pub open spec fn enemy_at(pos: Point) -> spec_fn(EntitySnapshot) -> bool {
    |e: EntitySnapshot| e.is_enemy && e.position == Some(pos)
}

/// The enemies that stand at `pos`, in the order of the world.
pub open spec fn enemies_at(entities: Seq<EntitySnapshot>, pos: Point) -> Seq<EntitySnapshot> {
    entities.filter(enemy_at(pos))
}

/// The order that `attacker` strike a given entity.
pub open spec fn attack_by(attacker: Entity) -> spec_fn(EntitySnapshot) -> Command {
    |e: EntitySnapshot| Command::WantsToAttack { attacker, victim: e.entity }
}

/// The attacks on what stands at `pos` are the attacks on the enemies that
/// stand there: one for each, in the order of the world.
pub proof fn lemma_attacks_on_enemies(entities: Seq<EntitySnapshot>, attacker: Entity, pos: Point)
    ensures
        entities.filter_map(attack_on(attacker, pos)) == enemies_at(entities, pos).map_values(
            attack_by(attacker),
        ),
    decreases entities.len(),
{
    let f = attack_on(attacker, pos);
    let p = enemy_at(pos);
    let g = attack_by(attacker);
    if entities.len() == 0 {
        reveal(Seq::filter);
        assert(entities.filter_map(f) =~= entities.filter(p).map_values(g));
    } else {
        let front = entities.drop_last();
        let last = entities.last();
        lemma_attacks_on_enemies(front, attacker, pos);
        assert(entities =~= front.push(last));
        front.lemma_filter_push(last, p);
        if p(last) {
            assert(front.filter(p).push(last).map_values(g) =~= front.filter(p).map_values(g).push(
                g(last),
            ));
            assert(entities.filter_map(f) =~= front.filter_map(f) + seq![g(last)]);
            assert(front.filter_map(f) + seq![g(last)] =~= front.filter_map(f).push(g(last)));
        }
    }
}

/// A movement key that leads the player to a cell where no enemy stands asks
/// for one thing only: that the player move there.
pub proof fn lemma_step_onto_free_cell(entities: Seq<EntitySnapshot>, key: Key)
    requires
        can_handle(entities, key),
        is_movement(key),
        forall|i: int|
            0 <= i < entities.len() ==> !enemy_at(destination(entities, key))(#[trigger] entities[i]),
    ensures
        key_commands(entities, key) == seq![
            Command::WantsToMove {
                entity: first_placed_player(entities)->Some_0.entity,
                destination: destination(entities, key),
            },
        ],
{
    let player = first_placed_player(entities)->Some_0.entity;
    let dest = destination(entities, key);
    let p = enemy_at(dest);
    lemma_attacks_on_enemies(entities, player, dest);
    if entities.filter(p).len() > 0 {
        let e = entities.filter(p)[0];
        entities.filter_lemma(p);
        assert(entities.filter(p).contains(e));
        entities.lemma_filter_contains_rev(p, e);
        let i = choose|i: int| 0 <= i < entities.len() && entities[i] == e;
        assert(p(entities[i]));
    }
    assert(key_action(entities, key) =~= Seq::<Command>::empty());
    assert(key_commands(entities, key) =~= step_commands(entities, key_delta(key)));
}

/// A movement key that leads the player to a cell where enemies stand asks
/// for an attack on each of them, in the order of the world, and for nothing
/// else: the player does not move.
pub proof fn lemma_step_into_enemies(entities: Seq<EntitySnapshot>, key: Key)
    requires
        can_handle(entities, key),
        is_movement(key),
        exists|i: int|
            0 <= i < entities.len() && enemy_at(destination(entities, key))(#[trigger] entities[i]),
    ensures
        enemies_at(entities, destination(entities, key)).len() >= 1,
        key_commands(entities, key) == enemies_at(entities, destination(entities, key)).map_values(
            attack_by(first_placed_player(entities)->Some_0.entity),
        ),
{
    let player = first_placed_player(entities)->Some_0.entity;
    let dest = destination(entities, key);
    let p = enemy_at(dest);
    lemma_attacks_on_enemies(entities, player, dest);
    let i = choose|i: int| 0 <= i < entities.len() && enemy_at(dest)(#[trigger] entities[i]);
    entities.filter_lemma(p);
    assert(entities.filter(p).contains(entities[i]));
    assert(key_action(entities, key) =~= Seq::<Command>::empty());
    assert(key_commands(entities, key) =~= step_commands(entities, key_delta(key)));
}

/// Whether `key` can be handled in this world: a player stands on the map,
/// and the step that the key stands for does not lead out of the coordinate
/// range.
pub open spec fn can_handle(entities: Seq<EntitySnapshot>, key: Key) -> bool {
    match first_placed_player(entities) {
        Some(player) => player.position->Some_0.can_offset(key_delta(key)),
        None => false,
    }
}

/// Tells whether `key` can be handled in this world.
pub fn accepts(world: &WorldView, key: Key) -> (ok: bool)
    ensures
        ok == can_handle(world@, key),
{
    match find_placed_player(world) {
        Some((_, pos)) => match key {
            Key::Left => pos.x > i32::MIN,
            Key::Right => pos.x < i32::MAX,
            Key::Up => pos.y > i32::MIN,
            Key::Down => pos.y < i32::MAX,
            _ => true,
        },
        None => false,
    }
}

/// Handles the key that is pressed, if one is: appends to `commands` what the
/// key asks for and hands the turn to the player's move. Without a key
/// nothing changes.
pub fn player_input(
    world: &WorldView,
    commands: &mut Vec<Command>,
    key: &Option<Key>,
    turn_state: &mut TurnState,
)
    requires
        *key matches Some(k) ==> can_handle(world@, k),
    ensures
        *key is None ==> final(commands)@ == old(commands)@ && *final(turn_state) == *old(
            turn_state,
        ),
        *key matches Some(k) ==> final(commands)@ == old(commands)@ + key_commands(world@, k)
            && *final(turn_state) == TurnState::PlayerTurn,
{
    if let Some(key) = *key {
        proof {
            lemma_placed_player_is_player(world@);
        }
        let delta = match key {
            Key::Left => Point::new(-1, 0),
            Key::Right => Point::new(1, 0),
            Key::Up => Point::new(0, -1),
            Key::Down => Point::new(0, 1),
            Key::G => pick_up_item(world, commands),
            Key::Key1 => use_item(0, world, commands),
            Key::Key2 => use_item(1, world, commands),
            Key::Key3 => use_item(2, world, commands),
            Key::Key4 => use_item(3, world, commands),
            Key::Key5 => use_item(4, world, commands),
            Key::Key6 => use_item(5, world, commands),
            Key::Key7 => use_item(6, world, commands),
            Key::Key8 => use_item(7, world, commands),
            Key::Key9 => use_item(8, world, commands),
            _ => Point::zero(),
        };
        assert(delta == key_delta(key));
        assert(commands@ =~= old(commands)@ + key_action(world@, key));
        let (player_entity, position) = find_placed_player(world).unwrap();
        let destination = position.add(delta);
        if delta.x != 0 || delta.y != 0 {
            let ghost acted = commands@;
            let ghost f = attack_on(player_entity, destination);
            let mut hit_something = false;
            let mut i: usize = 0;
            assert(world@.take(0) =~= Seq::<EntitySnapshot>::empty());
            assert(commands@ =~= acted + world@.take(0).filter_map(f));
            while i < world.entities.len()
                invariant
                    i <= world@.len(),
                    f == attack_on(player_entity, destination),
                    commands@ == acted + world@.take(i as int).filter_map(f),
                    hit_something == (world@.take(i as int).filter_map(f).len() > 0),
                decreases world.entities.len() - i,
            {
                let e = world.entities[i];
                proof {
                    world@.lemma_filter_map_take_succ(f, i as int);
                }
                let there = match e.position {
                    Some(pos) => pos == destination,
                    None => false,
                };
                if e.is_enemy && there {
                    hit_something = true;
                    commands.push(
                        Command::WantsToAttack { attacker: player_entity, victim: e.entity },
                    );
                }
                assert(commands@ =~= acted + world@.take(i + 1).filter_map(f));
                i = i + 1;
            }
            assert(world@.take(world@.len() as int) =~= world@);
            if !hit_something {
                commands.push(Command::WantsToMove { entity: player_entity, destination });
            }
            assert(commands@ =~= acted + step_commands(world@, delta));
        }
        assert(commands@ =~= old(commands)@ + key_commands(world@, key));
        *turn_state = TurnState::PlayerTurn;
    }
}

} // verus!
