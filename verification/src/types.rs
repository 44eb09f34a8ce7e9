//! Interchange records shared by the lock, draft, identity, scoring and map rules.
//! Every record here holds integers, booleans and strings only.
use vstd::prelude::*;
use crate::safe::GroupSlot;

verus! {

pub type Tick = u32;

pub type PlayerId = u8;

pub type Revision = u32;

pub type TypeKey = String;

pub type TeamId = String;

/// A map cell.
#[derive(Debug, Clone, Copy, PartialEq, Eq, Structural)]
pub struct Tile {
    pub x: u16,
    pub y: u16,
}

/// An inclusive tile rectangle.
#[derive(Debug, Clone, Copy, PartialEq, Eq, Structural)]
pub struct Rect {
    pub min: Tile,
    pub max: Tile,
}

/// Facing of an entity, clockwise from north.
#[derive(Debug, Clone, Copy, PartialEq, Eq, Structural)]
pub enum Direction {
    N,
    Ne,
    E,
    Se,
    S,
    Sw,
    W,
    Nw,
}

/// Output side of a factory.
#[derive(Debug, Clone, Copy, PartialEq, Eq, Structural)]
pub enum CardinalDirection {
    N,
    E,
    S,
    W,
}

#[derive(Debug, Clone, Copy, PartialEq, Eq, Structural)]
pub enum Priority {
    High,
    Medium,
    Low,
}

/// What a command does to orders that were saved for later ticks.
#[derive(Debug, Clone, Copy, PartialEq, Eq, Structural)]
pub enum FutureOrderPolicy {
    Keep,
    DropAll,
    DropWindow,
}

/// Ticks `after_tick < t <= through_tick` that a lock covers.
#[derive(Debug, Clone, Copy, PartialEq, Eq, Structural)]
pub struct PreviewInterval {
    pub after_tick: Tick,
    pub through_tick: Tick,
}

/// A future-order lock: older rounds may not write orders for ticks in `(from_tick, until_tick]`.
#[derive(Debug, Clone, Copy, PartialEq, Eq, Structural)]
pub struct OrderLock {
    pub from_tick: Tick,
    pub until_tick: Tick,
    pub issued_round: u32,
}

/// The command that caused a birth: round, player and index within that player's turn.
#[derive(Debug, Clone, Copy, PartialEq, Eq, Structural)]
pub struct CommandId {
    pub round: u32,
    pub player: PlayerId,
    pub index: u32,
}

/// A command together with the index of the target (factory) it acted on.
#[derive(Debug, Clone, Copy, PartialEq, Eq, Structural)]
pub struct BirthCommandId {
    pub command: CommandId,
    pub target_index: u16,
}

/// Fixed-size causal identity of an entity or blueprint.
#[derive(Debug, Clone, Copy, PartialEq, Eq, Structural)]
pub struct EntityId {
    pub birth_command: BirthCommandId,
    pub item_index: u16,
    pub occurrence: u32,
}

pub type BlueprintId = EntityId;

/// Identity of a production queue item.
#[derive(Debug, Clone, Copy, PartialEq, Eq, Structural)]
pub struct QueueItemId {
    pub birth_command: BirthCommandId,
    pub item_index: u16,
}

/// A player's control group.
#[derive(Debug, Clone, Copy, PartialEq, Eq, Structural)]
pub struct ControlGroupId {
    pub owner: PlayerId,
    pub slot: GroupSlot,
}

/// What a suppression silences: one entity's order component, or a whole group order.
#[derive(Debug, Clone, Copy, PartialEq, Eq, Structural)]
pub enum SuppressionTarget {
    EntityComponent { entity_id: EntityId },
    EntireGroupOrder { group: ControlGroupId },
}

/// The position of a command's effect in the deterministic event order.
#[derive(Debug, Clone, Copy, PartialEq, Eq, Structural)]
pub struct EventKey {
    pub tick: Tick,
    pub round: u32,
    pub player_rank: u8,
    pub command_index: u32,
}

/// The action an entity performs.
#[derive(Debug, Clone, Copy, PartialEq, Eq, Structural)]
pub enum Order {
    Idle {},
    AttackMove { destination: Tile },
    Support { target: EntityId },
    Mine { area: Rect },
    Construct { area: Rect },
}

#[derive(Debug, Clone, PartialEq, Eq)]
pub enum MemberEdit {
    Replace { entities: Vec<EntityId> },
    Add { entities: Vec<EntityId> },
    Remove { entities: Vec<EntityId> },
}

/// A production queue edit; `Q` names queue items (resolved ids, or draft references).
#[derive(Debug, Clone, PartialEq, Eq)]
pub enum ProductionEdit<Q> {
    Append { items: Vec<TypeKey> },
    ReplacePending { items: Vec<TypeKey> },
    RemovePending { item_ids: Vec<Q> },
    SetItemLoop { item_ids: Vec<Q>, enabled: bool },
    CancelActive {},
}

#[derive(Debug, Clone, PartialEq, Eq)]
pub struct MissileLaunch {
    pub type_key: TypeKey,
    pub target: Tile,
}

#[derive(Debug, Clone, PartialEq, Eq)]
pub struct SiloPlan {
    pub automatic: bool,
    pub launches: Vec<MissileLaunch>,
}

/// Settings a blueprint hands to the structure it becomes.
#[derive(Debug, Clone, PartialEq, Eq)]
pub struct BlueprintSettings {
    pub queue: Vec<TypeKey>,
    pub queue_loop_flags: Vec<bool>,
    pub order: Order,
    pub priority: Priority,
    pub loop_enabled: bool,
    pub silo_plan: Option<SiloPlan>,
}

/// A reference to a blueprint or queue item: a persistent id, or the `item_index`-th item
/// created by an earlier command of the same draft.
#[derive(Debug, Clone, PartialEq, Eq)]
pub enum DraftItemRef<Id> {
    Persistent { id: Id },
    Draft { local_id: String, item_index: u32 },
}

/// A player command. `B` names blueprints and `Q` queue items.
#[derive(Debug, Clone, PartialEq, Eq)]
pub enum Command<B = BlueprintId, Q = QueueItemId> {
    AssignOrder { entities: Vec<EntityId>, order: Order },
    AssignGroupOrder { group: ControlGroupId, order: Order },
    EditGroupMembers { group: ControlGroupId, edit: MemberEdit },
    BindFactoryGroup { factories: Vec<EntityId>, group: Option<ControlGroupId> },
    SetPriority { entities: Vec<EntityId>, priority: Priority },
    PlaceBlueprints {
        type_key: TypeKey,
        tiles: Vec<Tile>,
        priority: Priority,
        output_directions: Option<Vec<CardinalDirection>>,
    },
    ConfigureBlueprints { blueprint_ids: Vec<B>, settings: BlueprintSettings },
    CancelBlueprints { blueprint_ids: Vec<B> },
    EditProduction { factories: Vec<EntityId>, edit: ProductionEdit<Q> },
    SetQueueLoop { factories: Vec<EntityId>, enabled: bool },
    SetSiloPlan { silos: Vec<EntityId>, plan: SiloPlan },
    SetStoredOrder { factories: Vec<EntityId>, order: Order },
}

/// A command as drafted: references may point at earlier commands of the same draft.
pub type DraftBody = Command<DraftItemRef<BlueprintId>, DraftItemRef<QueueItemId>>;

#[derive(Debug, Clone, PartialEq, Eq)]
pub struct DraftCommand {
    pub local_id: String,
    pub command: DraftBody,
    pub future_orders: FutureOrderPolicy,
}

#[derive(Debug, Clone, PartialEq, Eq)]
pub struct TurnDraft {
    pub based_on_revision: Revision,
    pub tick: Tick,
    pub commands: Vec<DraftCommand>,
}

} // verus!
