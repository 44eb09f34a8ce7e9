//! Admission of a resolved turn against the locked world: every command must address the
//! player's own entities, groups and blueprints, with orders and recipes their types support.
use vstd::prelude::*;
use crate::types::{Command, ControlGroupId, EntityId, Order, PlayerId, Tile, TypeKey};
use crate::map::TerrainCell;

verus! {

#[derive(Debug, Clone, Copy, PartialEq, Eq, Structural)]
pub enum TypeKind {
    Unit,
    Structure,
}

/// What admission reads of a content type.
#[derive(Debug, Clone, PartialEq, Eq)]
pub struct TypeCaps {
    pub key: TypeKey,
    pub kind: TypeKind,
    pub moves: bool,
    pub mines: bool,
    pub constructs: bool,
    /// The recipes of a type that produces.
    pub production: Option<Vec<TypeKey>>,
}

#[derive(Debug, Clone, PartialEq, Eq)]
pub struct EntityView {
    pub id: EntityId,
    pub owner: PlayerId,
    pub type_key: TypeKey,
    pub tile: Tile,
}

#[derive(Debug, Clone, PartialEq, Eq)]
pub struct BlueprintView {
    pub id: EntityId,
    pub owner: PlayerId,
    pub type_key: TypeKey,
    pub site_id: Option<EntityId>,
}

/// The locked world as admission sees it.
#[derive(Debug, Clone, PartialEq, Eq)]
pub struct StateView {
    pub width: u16,
    pub height: u16,
    pub cells: Vec<TerrainCell>,
    pub entities: Vec<EntityView>,
    pub blueprints: Vec<BlueprintView>,
}

// ---- specification --------------------------------------------------------------------------

pub open spec fn is_first_entity(es: Seq<EntityView>, id: EntityId, i: int) -> bool {
    &&& 0 <= i < es.len()
    &&& es[i].id == id
    &&& forall|j: int| 0 <= j < i ==> es[j].id != id
}

/// The entity with that id (the first, should several carry it).
pub open spec fn entity_of(es: Seq<EntityView>, id: EntityId) -> Option<EntityView> {
    if exists|i: int| is_first_entity(es, id, i) {
        Some(es[choose|i: int| is_first_entity(es, id, i)])
    } else {
        None
    }
}

/// The entity with that id, when the player owns it.
pub open spec fn owned_entity(es: Seq<EntityView>, player: PlayerId, id: EntityId) -> Option<EntityView> {
    match entity_of(es, id) {
        Some(e) => if e.owner == player { Some(e) } else { None },
        None => None,
    }
}

pub open spec fn is_first_type(types: Seq<TypeCaps>, key: Seq<char>, i: int) -> bool {
    &&& 0 <= i < types.len()
    &&& types[i].key@ == key
    &&& forall|j: int| 0 <= j < i ==> types[j].key@ != key
}

/// The type of that key (the first, should several carry it).
pub open spec fn caps_of(types: Seq<TypeCaps>, key: Seq<char>) -> Option<TypeCaps> {
    if exists|i: int| is_first_type(types, key, i) {
        Some(types[choose|i: int| is_first_type(types, key, i)])
    } else {
        None
    }
}

/// The type can perform the order; a producer stores any order for its products.
pub open spec fn order_ok(c: TypeCaps, o: Order) -> bool {
    c.production is Some || match o {
        Order::Idle {} => true,
        Order::AttackMove { .. } => c.moves,
        Order::Support { .. } => c.moves,
        Order::Mine { .. } => c.mines,
        Order::Construct { .. } => c.constructs,
    }
}

/// The player owns that entity and its type is known.
pub open spec fn owned_with_type(es: Seq<EntityView>, types: Seq<TypeCaps>, player: PlayerId, id: EntityId) -> Option<TypeCaps> {
    match owned_entity(es, player, id) {
        Some(e) => caps_of(types, e.type_key@),
        None => None,
    }
}

pub open spec fn blueprint_owned(bps: Seq<BlueprintView>, player: PlayerId, id: EntityId) -> bool {
    exists|i: int| 0 <= i < bps.len() && (#[trigger] bps[i]).id == id && bps[i].owner == player
}

pub open spec fn is_first_unsited(bps: Seq<BlueprintView>, player: PlayerId, id: EntityId, i: int) -> bool {
    &&& 0 <= i < bps.len()
    &&& bps[i].id == id && bps[i].owner == player && bps[i].site_id is None
    &&& forall|j: int| 0 <= j < i ==> !(bps[j].id == id && bps[j].owner == player && bps[j].site_id is None)
}

/// The structure type of a blueprint the player placed earlier and that has no site yet.
pub open spec fn unsited_key(bps: Seq<BlueprintView>, player: PlayerId, id: EntityId) -> Option<Seq<char>> {
    if exists|i: int| is_first_unsited(bps, player, id, i) {
        Some(bps[choose|i: int| is_first_unsited(bps, player, id, i)].type_key@)
    } else {
        None
    }
}

/// The structure type of a blueprint placed by a command of this same turn.
pub open spec fn drafted_key(round: u32, player: PlayerId, commands: Seq<Command>, id: EntityId) -> Option<Seq<char>> {
    let c = id.birth_command.command;
    let idx = c.index as int;
    if 0 <= idx < commands.len() && c.player == player && c.round == round {
        match commands[idx] {
            Command::PlaceBlueprints { type_key, tiles, .. } => {
                if (id.item_index as int) < tiles@.len() { Some(type_key@) } else { None }
            },
            _ => None,
        }
    } else {
        None
    }
}

pub open spec fn blueprint_key(round: u32, player: PlayerId, commands: Seq<Command>, bps: Seq<BlueprintView>, id: EntityId) -> Option<Seq<char>> {
    match unsited_key(bps, player, id) {
        Some(k) => Some(k),
        None => drafted_key(round, player, commands, id),
    }
}

/// Some structure stands on `t`.
pub open spec fn structure_at(es: Seq<EntityView>, types: Seq<TypeCaps>, t: Tile) -> bool {
    exists|i: int| 0 <= i < es.len() && (#[trigger] es[i]).tile == t && is_structure(types, es[i].type_key@)
}

/// The type of that key is known and is a structure.
pub open spec fn is_structure(types: Seq<TypeCaps>, key: Seq<char>) -> bool {
    match caps_of(types, key) {
        Some(c) => c.kind == TypeKind::Structure,
        None => false,
    }
}

/// The player owns the entity, its type is known and can perform the order.
pub open spec fn assign_ok(es: Seq<EntityView>, types: Seq<TypeCaps>, player: PlayerId, id: EntityId, order: Order) -> bool {
    match owned_with_type(es, types, player, id) {
        Some(cp) => order_ok(cp, order),
        None => false,
    }
}

/// The blueprint is the player's, its structure type is known and produces the queue.
pub open spec fn configure_ok(round: u32, player: PlayerId, commands: Seq<Command>, bps: Seq<BlueprintView>, types: Seq<TypeCaps>, id: EntityId, queue: Seq<TypeKey>) -> bool {
    match blueprint_key(round, player, commands, bps, id) {
        Some(k) => match caps_of(types, k) {
            Some(cp) => recipes_ok(cp, queue),
            None => false,
        },
        None => false,
    }
}

/// The player owns the factory and its type produces.
pub open spec fn factory_ok(es: Seq<EntityView>, types: Seq<TypeCaps>, player: PlayerId, id: EntityId) -> bool {
    match owned_with_type(es, types, player, id) {
        Some(cp) => cp.production is Some,
        None => false,
    }
}

/// A tile where a structure may be placed: on the map, floor, and free of structures.
pub open spec fn placeable(state: StateView, types: Seq<TypeCaps>, t: Tile) -> bool {
    &&& t.x < state.width
    &&& t.y < state.height
    &&& state.cells@[t.y * state.width + t.x] == TerrainCell::Floor
    &&& !structure_at(state.entities@, types, t)
}

pub open spec fn recipe_listed(recipes: Seq<TypeKey>, k: Seq<char>) -> bool {
    exists|i: int| 0 <= i < recipes.len() && (#[trigger] recipes[i])@ == k
}

/// Blueprint recipes: none, or recipes the structure produces.
pub open spec fn recipes_ok(c: TypeCaps, queue: Seq<TypeKey>) -> bool {
    queue.len() == 0 || match c.production {
        Some(rs) => forall|i: int| 0 <= i < queue.len() ==> recipe_listed(rs@, (#[trigger] queue[i])@),
        None => false,
    }
}

pub open spec fn group_ok(player: PlayerId, g: ControlGroupId) -> bool {
    g.owner == player
}

/// One command is admissible for `player` against the locked state.
pub open spec fn command_ok(round: u32, player: PlayerId, commands: Seq<Command>, state: StateView, types: Seq<TypeCaps>, c: Command) -> bool {
    let es = state.entities@;
    match c {
        Command::AssignOrder { entities, order } => {
            &&& entities@.len() > 0
            &&& forall|i: int| 0 <= i < entities@.len() ==> assign_ok(es, types, player, #[trigger] entities@[i], order)
        },
        Command::AssignGroupOrder { group, .. } => group_ok(player, group),
        Command::EditGroupMembers { group, .. } => group_ok(player, group),
        Command::BindFactoryGroup { factories, group } => {
            &&& match group {
                Some(g) => group_ok(player, g),
                None => true,
            }
            &&& forall|i: int| 0 <= i < factories@.len() ==> (#[trigger] owned_entity(es, player, factories@[i])) is Some
        },
        Command::SetPriority { entities, .. } => forall|i: int| 0 <= i < entities@.len() ==>
            (#[trigger] owned_entity(es, player, entities@[i])) is Some || blueprint_owned(state.blueprints@, player, entities@[i]),
        Command::PlaceBlueprints { type_key, tiles, .. } => {
            &&& is_structure(types, type_key@)
            &&& tiles@.len() > 0
            &&& forall|i: int| 0 <= i < tiles@.len() ==> placeable(state, types, #[trigger] tiles@[i])
        },
        Command::ConfigureBlueprints { blueprint_ids, settings } => {
            &&& settings.queue@.len() <= 65536
            &&& forall|i: int| 0 <= i < blueprint_ids@.len() ==>
                configure_ok(round, player, commands, state.blueprints@, types, #[trigger] blueprint_ids@[i], settings.queue@)
        },
        Command::CancelBlueprints { blueprint_ids } => forall|i: int| 0 <= i < blueprint_ids@.len() ==>
            blueprint_owned(state.blueprints@, player, #[trigger] blueprint_ids@[i]),
        Command::EditProduction { factories, .. } => factories_ok(es, types, player, factories@),
        Command::SetQueueLoop { factories, .. } => factories_ok(es, types, player, factories@),
        Command::SetStoredOrder { factories, .. } => factories_ok(es, types, player, factories@),
        Command::SetSiloPlan { .. } => true,
    }
}

/// Every factory is the player's and its type produces.
pub open spec fn factories_ok(es: Seq<EntityView>, types: Seq<TypeCaps>, player: PlayerId, factories: Seq<EntityId>) -> bool {
    forall|i: int| 0 <= i < factories.len() ==> factory_ok(es, types, player, #[trigger] factories[i])
}

// ---- execution --------------------------------------------------------------------------------

fn find_entity(es: &Vec<EntityView>, id: EntityId) -> (r: Option<usize>)
    ensures
        match r {
            Some(i) => i < es@.len() && entity_of(es@, id) == Some(es@[i as int]),
            None => entity_of(es@, id) is None,
        },
{
    let mut i: usize = 0;
    while i < es.len()
        invariant
            0 <= i <= es@.len(),
            forall|j: int| 0 <= j < i ==> es@[j].id != id,
        decreases es.len() - i,
    {
        if es[i].id == id {
            proof {
                assert(is_first_entity(es@, id, i as int));
                let c = choose|c: int| is_first_entity(es@, id, c);
                if c < i {
                    assert(es@[c].id != id);
                } else if c > i {
                    assert(es@[i as int].id != id);
                }
            }
            return Some(i);
        }
        i += 1;
    }
    None
}

fn owned_index(es: &Vec<EntityView>, player: PlayerId, id: EntityId) -> (r: Option<usize>)
    ensures
        match r {
            Some(i) => i < es@.len() && owned_entity(es@, player, id) == Some(es@[i as int]),
            None => owned_entity(es@, player, id) is None,
        },
{
    match find_entity(es, id) {
        Some(i) => {
            if es[i].owner == player {
                Some(i)
            } else {
                None
            }
        },
        None => None,
    }
}

pub(crate) fn find_caps(types: &Vec<TypeCaps>, key: &TypeKey) -> (r: Option<usize>)
    ensures
        match r {
            Some(i) => i < types@.len() && caps_of(types@, key@) == Some(types@[i as int]),
            None => caps_of(types@, key@) is None,
        },
{
    let mut i: usize = 0;
    while i < types.len()
        invariant
            0 <= i <= types@.len(),
            forall|j: int| 0 <= j < i ==> types@[j].key@ != key@,
        decreases types.len() - i,
    {
        if types[i].key == *key {
            proof {
                assert(is_first_type(types@, key@, i as int));
                let c = choose|c: int| is_first_type(types@, key@, c);
                if c < i {
                    assert(types@[c].key@ != key@);
                } else if c > i {
                    assert(types@[i as int].key@ != key@);
                }
            }
            return Some(i);
        }
        i += 1;
    }
    None
}

fn owned_caps(es: &Vec<EntityView>, types: &Vec<TypeCaps>, player: PlayerId, id: EntityId) -> (r: Option<usize>)
    ensures
        match r {
            Some(i) => i < types@.len() && owned_with_type(es@, types@, player, id) == Some(types@[i as int]),
            None => owned_with_type(es@, types@, player, id) is None,
        },
{
    match owned_index(es, player, id) {
        Some(e) => find_caps(types, &es[e].type_key),
        None => None,
    }
}

fn blueprint_owned_exec(bps: &Vec<BlueprintView>, player: PlayerId, id: EntityId) -> (r: bool)
    ensures
        r == blueprint_owned(bps@, player, id),
{
    let mut i: usize = 0;
    while i < bps.len()
        invariant
            0 <= i <= bps@.len(),
            forall|j: int| 0 <= j < i ==> !(bps@[j].id == id && bps@[j].owner == player),
        decreases bps.len() - i,
    {
        if bps[i].id == id && bps[i].owner == player {
            assert(bps@[i as int].id == id);
            return true;
        }
        i += 1;
    }
    false
}

fn unsited_index(bps: &Vec<BlueprintView>, player: PlayerId, id: EntityId) -> (r: Option<usize>)
    ensures
        match r {
            Some(i) => i < bps@.len() && unsited_key(bps@, player, id) == Some(bps@[i as int].type_key@),
            None => unsited_key(bps@, player, id) is None,
        },
{
    let mut i: usize = 0;
    while i < bps.len()
        invariant
            0 <= i <= bps@.len(),
            forall|j: int| 0 <= j < i ==> !(bps@[j].id == id && bps@[j].owner == player && bps@[j].site_id is None),
        decreases bps.len() - i,
    {
        if bps[i].id == id && bps[i].owner == player && bps[i].site_id.is_none() {
            proof {
                assert(is_first_unsited(bps@, player, id, i as int));
                let c = choose|c: int| is_first_unsited(bps@, player, id, c);
                if c < i {
                    assert(!(bps@[c].id == id && bps@[c].owner == player && bps@[c].site_id is None));
                } else if c > i {
                    assert(!(bps@[i as int].id == id && bps@[i as int].owner == player && bps@[i as int].site_id is None));
                }
            }
            return Some(i);
        }
        i += 1;
    }
    None
}

fn drafted_key_exec(round: u32, player: PlayerId, commands: &Vec<Command>, id: EntityId) -> (r: Option<TypeKey>)
    ensures
        match r {
            Some(k) => drafted_key(round, player, commands@, id) == Some(k@),
            None => drafted_key(round, player, commands@, id) is None,
        },
{
    let c = id.birth_command.command;
    let idx = c.index as usize;
    if idx < commands.len() && c.player == player && c.round == round {
        match &commands[idx] {
            Command::PlaceBlueprints { type_key, tiles, .. } => {
                if (id.item_index as usize) < tiles.len() {
                    Some(type_key.clone())
                } else {
                    None
                }
            },
            _ => None,
        }
    } else {
        None
    }
}

fn blueprint_key_exec(round: u32, player: PlayerId, commands: &Vec<Command>, bps: &Vec<BlueprintView>, id: EntityId) -> (r: Option<TypeKey>)
    ensures
        match r {
            Some(k) => blueprint_key(round, player, commands@, bps@, id) == Some(k@),
            None => blueprint_key(round, player, commands@, bps@, id) is None,
        },
{
    match unsited_index(bps, player, id) {
        Some(i) => Some(bps[i].type_key.clone()),
        None => drafted_key_exec(round, player, commands, id),
    }
}

fn is_structure_exec(types: &Vec<TypeCaps>, key: &TypeKey) -> (r: bool)
    ensures
        r == is_structure(types@, key@),
{
    match find_caps(types, key) {
        Some(i) => types[i].kind == TypeKind::Structure,
        None => false,
    }
}

fn structure_at_exec(es: &Vec<EntityView>, types: &Vec<TypeCaps>, t: Tile) -> (r: bool)
    ensures
        r == structure_at(es@, types@, t),
{
    let mut i: usize = 0;
    while i < es.len()
        invariant
            0 <= i <= es@.len(),
            forall|j: int| 0 <= j < i ==> !(es@[j].tile == t && is_structure(types@, es@[j].type_key@)),
        decreases es.len() - i,
    {
        if es[i].tile == t && is_structure_exec(types, &es[i].type_key) {
            assert(es@[i as int].tile == t);
            return true;
        }
        i += 1;
    }
    false
}

fn placeable_exec(state: &StateView, types: &Vec<TypeCaps>, t: Tile) -> (r: bool)
    requires
        state.cells@.len() == state.width * state.height,
    ensures
        r == placeable(*state, types@, t),
{
    if t.x >= state.width || t.y >= state.height {
        return false;
    }
    proof {
        assert(t.y * state.width + t.x < state.width * state.height) by (nonlinear_arith)
            requires
                t.x < state.width,
                t.y < state.height,
        ;
        assert(t.y * state.width <= t.y * state.width + t.x);
        assert(state.width * state.height <= 0xffff * 0xffff) by (nonlinear_arith)
            requires
                state.width <= 0xffff,
                state.height <= 0xffff,
        ;
    }
    let i = (t.y as usize) * (state.width as usize) + (t.x as usize);
    if state.cells[i] != TerrainCell::Floor {
        return false;
    }
    !structure_at_exec(&state.entities, types, t)
}

pub(crate) fn recipe_listed_exec(recipes: &Vec<TypeKey>, k: &TypeKey) -> (r: bool)
    ensures
        r == recipe_listed(recipes@, k@),
{
    let mut i: usize = 0;
    while i < recipes.len()
        invariant
            0 <= i <= recipes@.len(),
            forall|j: int| 0 <= j < i ==> recipes@[j]@ != k@,
        decreases recipes.len() - i,
    {
        if recipes[i] == *k {
            return true;
        }
        i += 1;
    }
    false
}

pub(crate) fn recipes_ok_exec(c: &TypeCaps, queue: &Vec<TypeKey>) -> (r: bool)
    ensures
        r == recipes_ok(*c, queue@),
{
    if queue.len() == 0 {
        return true;
    }
    let rs = match &c.production {
        Some(rs) => rs,
        None => {
            return false;
        },
    };
    let mut i: usize = 0;
    while i < queue.len()
        invariant
            c.production == Some(*rs),
            0 <= i <= queue@.len(),
            forall|j: int| 0 <= j < i ==> recipe_listed(rs@, (#[trigger] queue@[j])@),
        decreases queue.len() - i,
    {
        if !recipe_listed_exec(rs, &queue[i]) {
            return false;
        }
        i += 1;
    }
    true
}

fn factories_ok_exec(es: &Vec<EntityView>, types: &Vec<TypeCaps>, player: PlayerId, factories: &Vec<EntityId>) -> (r: bool)
    ensures
        r == factories_ok(es@, types@, player, factories@),
{
    let mut i: usize = 0;
    while i < factories.len()
        invariant
            0 <= i <= factories@.len(),
            forall|j: int| 0 <= j < i ==> factory_ok(es@, types@, player, #[trigger] factories@[j]),
        decreases factories.len() - i,
    {
        match owned_caps(es, types, player, factories[i]) {
            Some(c) => {
                if types[c].production.is_none() {
                    return false;
                }
            },
            None => {
                return false;
            },
        }
        i += 1;
    }
    true
}

fn owned_check(es: &Vec<EntityView>, player: PlayerId, id: EntityId) -> (r: Result<usize, String>)
    ensures
        match r {
            Ok(i) => i < es@.len() && owned_entity(es@, player, id) == Some(es@[i as int]),
            Err(_) => owned_entity(es@, player, id) is None,
        },
{
    match find_entity(es, id) {
        Some(i) => {
            if es[i].owner != player {
                return Err("entity is not yours".to_string());
            }
            Ok(i)
        },
        None => Err("entity does not exist at that tick".to_string()),
    }
}

/// Checks one command against the locked state.
#[verifier::loop_isolation(false)]
fn check_command(
    round: u32,
    player: PlayerId,
    commands: &Vec<Command>,
    state: &StateView,
    types: &Vec<TypeCaps>,
    command: &Command,
) -> (r: Result<(), String>)
    requires
        state.cells@.len() == state.width * state.height,
    ensures
        r is Ok <==> command_ok(round, player, commands@, *state, types@, *command),
{
    let es = &state.entities;
    match command {
        Command::AssignOrder { entities, order } => {
            if entities.len() == 0 {
                return Err("assignment without recipients".to_string());
            }
            let mut i: usize = 0;
            while i < entities.len()
                invariant
                    0 <= i <= entities@.len(),
                    forall|j: int| 0 <= j < i ==> assign_ok(es@, types@, player, #[trigger] entities@[j], *order),
                decreases entities.len() - i,
            {
                let e = owned_check(es, player, entities[i])?;
                let c = match find_caps(types, &es[e].type_key) {
                    Some(c) => c,
                    None => {
                        return Err("unknown type".to_string());
                    },
                };
                let caps = &types[c];
                let ok = match order {
                    Order::Idle {} => true,
                    Order::AttackMove { .. } => caps.moves,
                    Order::Support { .. } => caps.moves,
                    Order::Mine { .. } => caps.mines,
                    Order::Construct { .. } => caps.constructs,
                };
                if !ok && caps.production.is_none() {
                    return Err("the entity's type cannot perform that order".to_string());
                }
                i += 1;
            }
            Ok(())
        },
        Command::AssignGroupOrder { group, .. } => {
            if group.owner != player {
                return Err("not your control group".to_string());
            }
            Ok(())
        },
        Command::EditGroupMembers { group, .. } => {
            if group.owner != player {
                return Err("not your control group".to_string());
            }
            Ok(())
        },
        Command::BindFactoryGroup { factories, group } => {
            if let Some(g) = group {
                if g.owner != player {
                    return Err("not your control group".to_string());
                }
            }
            let mut i: usize = 0;
            while i < factories.len()
                invariant
                    0 <= i <= factories@.len(),
                    forall|j: int| 0 <= j < i ==> (#[trigger] owned_entity(es@, player, factories@[j])) is Some,
                decreases factories.len() - i,
            {
                owned_check(es, player, factories[i])?;
                i += 1;
            }
            Ok(())
        },
        Command::SetPriority { entities, .. } => {
            let mut i: usize = 0;
            while i < entities.len()
                invariant
                    0 <= i <= entities@.len(),
                    forall|j: int| 0 <= j < i ==> (#[trigger] owned_entity(es@, player, entities@[j])) is Some
                        || blueprint_owned(state.blueprints@, player, entities@[j]),
                decreases entities.len() - i,
            {
                if owned_index(es, player, entities[i]).is_none() && !blueprint_owned_exec(&state.blueprints, player, entities[i]) {
                    return Err("priority target is not yours".to_string());
                }
                i += 1;
            }
            Ok(())
        },
        Command::PlaceBlueprints { type_key, tiles, .. } => {
            match find_caps(types, type_key) {
                None => {
                    return Err("unknown structure type".to_string());
                },
                Some(c) => {
                    if types[c].kind != TypeKind::Structure {
                        return Err("only structures can be placed".to_string());
                    }
                },
            }
            if tiles.len() == 0 {
                return Err("no placement tiles".to_string());
            }
            let mut i: usize = 0;
            while i < tiles.len()
                invariant
                    state.cells@.len() == state.width * state.height,
                    0 <= i <= tiles@.len(),
                    forall|j: int| 0 <= j < i ==> placeable(*state, types@, #[trigger] tiles@[j]),
                decreases tiles.len() - i,
            {
                if !placeable_exec(state, types, tiles[i]) {
                    return Err("cannot place a structure there".to_string());
                }
                i += 1;
            }
            Ok(())
        },
        Command::ConfigureBlueprints { blueprint_ids, settings } => {
            if settings.queue.len() > 65536 {
                return Err("too many queued recipes".to_string());
            }
            let mut i: usize = 0;
            while i < blueprint_ids.len()
                invariant
                    0 <= i <= blueprint_ids@.len(),
                    forall|j: int| 0 <= j < i ==>
                        configure_ok(round, player, commands@, state.blueprints@, types@, #[trigger] blueprint_ids@[j], settings.queue@),
                decreases blueprint_ids.len() - i,
            {
                let key = match blueprint_key_exec(round, player, commands, &state.blueprints, blueprint_ids[i]) {
                    Some(k) => k,
                    None => {
                        return Err("blueprint is not yours or does not exist".to_string());
                    },
                };
                let c = match find_caps(types, &key) {
                    Some(c) => c,
                    None => {
                        return Err("unknown structure".to_string());
                    },
                };
                if !recipes_ok_exec(&types[c], &settings.queue) {
                    return Err("invalid blueprint recipe".to_string());
                }
                i += 1;
            }
            Ok(())
        },
        Command::CancelBlueprints { blueprint_ids } => {
            let mut i: usize = 0;
            while i < blueprint_ids.len()
                invariant
                    0 <= i <= blueprint_ids@.len(),
                    forall|j: int| 0 <= j < i ==> blueprint_owned(state.blueprints@, player, #[trigger] blueprint_ids@[j]),
                decreases blueprint_ids.len() - i,
            {
                if !blueprint_owned_exec(&state.blueprints, player, blueprint_ids[i]) {
                    return Err("blueprint is not yours or does not exist".to_string());
                }
                i += 1;
            }
            Ok(())
        },
        Command::EditProduction { factories, .. } => {
            if !factories_ok_exec(es, types, player, factories) {
                return Err("target is not a factory".to_string());
            }
            Ok(())
        },
        Command::SetQueueLoop { factories, .. } => {
            if !factories_ok_exec(es, types, player, factories) {
                return Err("target is not a factory".to_string());
            }
            Ok(())
        },
        Command::SetStoredOrder { factories, .. } => {
            if !factories_ok_exec(es, types, player, factories) {
                return Err("target is not a factory".to_string());
            }
            Ok(())
        },
        Command::SetSiloPlan { .. } => Ok(()),
    }
}

/// Admits a resolved turn of `player` in `round` against the locked state: each command must
/// address the player's own entities, groups and blueprints, place structures on free floor
/// inside the map, and use orders and recipes the addressed types support.
pub fn validate_against_state(
    round: u32,
    player: PlayerId,
    commands: &Vec<Command>,
    state: &StateView,
    types: &Vec<TypeCaps>,
) -> (r: Result<(), String>)
    requires
        state.cells@.len() == state.width * state.height,
    ensures
        r is Ok <==> forall|i: int| 0 <= i < commands@.len() ==> command_ok(round, player, commands@, *state, types@, #[trigger] commands@[i]),
{
    let mut i: usize = 0;
    while i < commands.len()
        invariant
            state.cells@.len() == state.width * state.height,
            0 <= i <= commands@.len(),
            forall|j: int| 0 <= j < i ==> command_ok(round, player, commands@, *state, types@, #[trigger] commands@[j]),
        decreases commands.len() - i,
    {
        check_command(round, player, commands, state, types, &commands[i])?;
        i += 1;
    }
    Ok(())
}

/// An admitted order fits every entity it addresses: each is the player's, and unless its type
/// produces (and stores any order for its products), the type has the ability the order needs —
/// construction for a construct order, mining for a mine order, movement for an attack-move or
/// support order.
pub proof fn law_admitted_orders_fit(
    round: u32,
    player: PlayerId,
    commands: Seq<Command>,
    state: StateView,
    types: Seq<TypeCaps>,
    k: int,
    entities: Vec<EntityId>,
    order: Order,
    m: int,
    ei: int,
    ti: int,
)
    requires
        forall|i: int| 0 <= i < commands.len() ==> command_ok(round, player, commands, state, types, #[trigger] commands[i]),
        0 <= k < commands.len(),
        commands[k] == (Command::<crate::types::BlueprintId, crate::types::QueueItemId>::AssignOrder { entities, order }),
        0 <= m < entities@.len(),
        0 <= ei < state.entities@.len(),
        state.entities@[ei].id == entities@[m],
        forall|u: int| 0 <= u < ei ==> state.entities@[u].id != entities@[m],
        0 <= ti < types.len(),
        types[ti].key@ == state.entities@[ei].type_key@,
        forall|u: int| 0 <= u < ti ==> types[u].key@ != state.entities@[ei].type_key@,
    ensures
        state.entities@[ei].owner == player,
        types[ti].production is None ==> {
            &&& order is Construct ==> types[ti].constructs
            &&& order is Mine ==> types[ti].mines
            &&& order is AttackMove ==> types[ti].moves
            &&& order is Support ==> types[ti].moves
        },
{
    let es = state.entities@;
    let id = entities@[m];
    assert(command_ok(round, player, commands, state, types, commands[k]));
    assert(assign_ok(es, types, player, entities@[m], order));
    assert(is_first_entity(es, id, ei));
    let c = choose|i: int| is_first_entity(es, id, i);
    assert(c == ei) by {
        if c < ei {
            assert(es[c].id != id);
        } else if c > ei {
            assert(es[ei].id != id);
        }
    }
    let key = es[ei].type_key@;
    assert(is_first_type(types, key, ti));
    let d = choose|i: int| is_first_type(types, key, i);
    assert(d == ti) by {
        if d < ti {
            assert(types[d].key@ != key);
        } else if d > ti {
            assert(types[ti].key@ != key);
        }
    }
}

} // verus!
