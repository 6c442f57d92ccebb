use vstd::prelude::*;
use crate::geometry::Point;

verus! {

/// Handle of an entity of the game world.
pub type Entity = u64;

/// What the game is waiting for.
#[derive(Clone, Copy, Debug, PartialEq, Eq, Structural)]
pub enum TurnState {
    AwaitingInput,
    PlayerTurn,
    MonsterTurn,
    GameOver,
    Victory,
    NextLevel,
}

/// The keys that the game tells apart; every other key is `Other`.
#[derive(Clone, Copy, Debug, PartialEq, Eq, Structural)]
pub enum Key {
    Left,
    Right,
    Up,
    Down,
    G,
    Key1,
    Key2,
    Key3,
    Key4,
    Key5,
    Key6,
    Key7,
    Key8,
    Key9,
    Other,
}

/// What is known of one entity when a key is handled.
#[derive(Clone, Copy, Debug)]
pub struct EntitySnapshot {
    pub entity: Entity,
    /// Where the entity stands; `None` for one that is carried or otherwise
    /// off the map.
    pub position: Option<Point>,
    /// The entity is the one that the player controls.
    pub is_player: bool,
    /// The entity is hostile to the player.
    pub is_enemy: bool,
    /// The entity can be picked up.
    pub is_item: bool,
    /// The entity is a weapon: of these only one is carried at a time.
    pub is_weapon: bool,
    /// Who carries the entity, if anyone does.
    pub carried_by: Option<Entity>,
}

/// The entities of the world, in the order in which the world lists them.
pub struct WorldView {
    pub entities: Vec<EntitySnapshot>,
}

impl View for WorldView {
    type V = Seq<EntitySnapshot>;

    open spec fn view(&self) -> Seq<EntitySnapshot> {
        self.entities@
    }
}

/// A change to the world that is asked for now and made later, once the key
/// has been handled.
#[derive(Clone, Copy, Debug, PartialEq, Eq, Structural)]
pub enum Command {
    /// `entity` wants to step to `destination`.
    WantsToMove { entity: Entity, destination: Point },
    /// `attacker` wants to strike `victim`.
    WantsToAttack { attacker: Entity, victim: Entity },
    /// `used_by` wants to use `item`.
    ActivateItem { used_by: Entity, item: Entity },
    /// `entity` is taken off the map.
    RemovePosition { entity: Entity },
    /// `entity` is from now on carried by `carrier`.
    Carry { entity: Entity, carrier: Entity },
    /// `entity` ceases to exist.
    Delete { entity: Entity },
}

} // verus!
