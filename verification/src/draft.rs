//! Structural draft checks and local-reference resolution.
use vstd::prelude::*;
use crate::types::{
    BirthCommandId, BlueprintId, BlueprintSettings, CardinalDirection, Command, CommandId,
    DraftBody, DraftCommand, DraftItemRef, EntityId, FutureOrderPolicy, MemberEdit,
    MissileLaunch, PlayerId, PreviewInterval, ProductionEdit, QueueItemId, SiloPlan, Tick, Tile,
    TurnDraft, TypeKey,
};
use crate::identity::{blueprint, command_id, queue_item, spec_blueprint, spec_queue_item};

verus! {

/// Where a lock installed at `tick` ends, or `None` when the policy installs none;
/// `Err` is represented by the outer `None`.
pub open spec fn spec_lock_interval(
    tick: Tick,
    policy: FutureOrderPolicy,
    window: Option<Tick>,
    max_tick: Tick,
) -> Option<Option<PreviewInterval>> {
    if tick >= max_tick {
        None
    } else {
        match policy {
            FutureOrderPolicy::Keep => Some(None),
            FutureOrderPolicy::DropAll => {
                let through = (max_tick - 1) as Tick;
                Some(if through > tick { Some(PreviewInterval { after_tick: tick, through_tick: through }) } else { None })
            },
            FutureOrderPolicy::DropWindow => match window {
                Some(w) if w > 0 => {
                    let sum = if tick + w > u32::MAX { u32::MAX as int } else { tick + w };
                    let through = (if sum < max_tick - 1 { sum } else { max_tick - 1 }) as Tick;
                    Some(if through > tick { Some(PreviewInterval { after_tick: tick, through_tick: through }) } else { None })
                },
                _ => None,
            },
        }
    }
}

/// The interval a future-order policy removes: it excludes `tick` and includes the returned end.
/// `Ok(None)` means Keep, or that no tick lies after `tick` inside the horizon.
pub fn lock_interval(
    tick: Tick,
    policy: FutureOrderPolicy,
    window: Option<Tick>,
    max_tick: Tick,
) -> (r: Result<Option<PreviewInterval>, String>)
    ensures
        r is Ok <==> spec_lock_interval(tick, policy, window, max_tick) is Some,
        r matches Ok(v) ==> spec_lock_interval(tick, policy, window, max_tick) == Some(v),
{
    if tick >= max_tick {
        return Err("draft tick is outside horizon".to_string());
    }
    let through_tick: Tick = match policy {
        FutureOrderPolicy::Keep => {
            return Ok(None);
        },
        FutureOrderPolicy::DropAll => max_tick - 1,
        FutureOrderPolicy::DropWindow => {
            let w: Tick = match window {
                Some(w) if w > 0 => w,
                _ => {
                    return Err("drop_window requires a positive configured window".to_string());
                },
            };
            let sum: Tick = tick.saturating_add(w);
            if sum < max_tick - 1 { sum } else { max_tick - 1 }
        },
    };
    if through_tick > tick {
        Ok(Some(PreviewInterval { after_tick: tick, through_tick }))
    } else {
        Ok(None)
    }
}


/// Only action assignments may carry a lock; a window lock needs a positive configured window.
pub open spec fn policy_valid(command: DraftBody, future_orders: FutureOrderPolicy, window: Option<Tick>) -> bool {
    future_orders != FutureOrderPolicy::Keep ==> {
        &&& (command is AssignOrder || command is AssignGroupOrder)
        &&& (future_orders == FutureOrderPolicy::DropWindow ==> (window matches Some(w) && w > 0))
    }
}

/// Checks that a drafted command may install the future-order lock it asks for.
pub fn validate_policy(command: &DraftCommand, window: Option<Tick>) -> (r: Result<(), String>)
    ensures
        r is Ok <==> policy_valid(command.command, command.future_orders, window),
{
    if command.future_orders != FutureOrderPolicy::Keep {
        let assignment = match &command.command {
            Command::AssignOrder { .. } | Command::AssignGroupOrder { .. } => true,
            _ => false,
        };
        if !assignment {
            return Err("only action assignments may install future-order locks".to_string());
        }
        if command.future_orders == FutureOrderPolicy::DropWindow {
            let positive = match window {
                Some(w) => w > 0,
                None => false,
            };
            if !positive {
                return Err("drop_window requires a positive configured window".to_string());
            }
        }
    }
    Ok(())
}

// ---- orders on identities ------------------------------------------------------------------

/// Derived order of entity ids: round, player, command index, target, item, occurrence.
pub open spec fn entity_lt(a: EntityId, b: EntityId) -> bool {
    let (ca, cb) = (a.birth_command.command, b.birth_command.command);
    ||| ca.round < cb.round
    ||| ca.round == cb.round && ca.player < cb.player
    ||| ca.round == cb.round && ca.player == cb.player && ca.index < cb.index
    ||| ca == cb && a.birth_command.target_index < b.birth_command.target_index
    ||| a.birth_command == b.birth_command && a.item_index < b.item_index
    ||| a.birth_command == b.birth_command && a.item_index == b.item_index && a.occurrence < b.occurrence
}

/// Derived order of queue item ids: round, player, command index, target, item.
pub open spec fn qid_lt(a: QueueItemId, b: QueueItemId) -> bool {
    let (ca, cb) = (a.birth_command.command, b.birth_command.command);
    ||| ca.round < cb.round
    ||| ca.round == cb.round && ca.player < cb.player
    ||| ca.round == cb.round && ca.player == cb.player && ca.index < cb.index
    ||| ca == cb && a.birth_command.target_index < b.birth_command.target_index
    ||| a.birth_command == b.birth_command && a.item_index < b.item_index
}

pub(crate) fn entity_lt_exec(a: &EntityId, b: &EntityId) -> (r: bool)
    ensures
        r == entity_lt(*a, *b),
{
    let (ca, cb) = (a.birth_command.command, b.birth_command.command);
    if ca.round != cb.round {
        return ca.round < cb.round;
    }
    if ca.player != cb.player {
        return ca.player < cb.player;
    }
    if ca.index != cb.index {
        return ca.index < cb.index;
    }
    if a.birth_command.target_index != b.birth_command.target_index {
        return a.birth_command.target_index < b.birth_command.target_index;
    }
    if a.item_index != b.item_index {
        return a.item_index < b.item_index;
    }
    a.occurrence < b.occurrence
}

fn qid_lt_exec(a: &QueueItemId, b: &QueueItemId) -> (r: bool)
    ensures
        r == qid_lt(*a, *b),
{
    let (ca, cb) = (a.birth_command.command, b.birth_command.command);
    if ca.round != cb.round {
        return ca.round < cb.round;
    }
    if ca.player != cb.player {
        return ca.player < cb.player;
    }
    if ca.index != cb.index {
        return ca.index < cb.index;
    }
    if a.birth_command.target_index != b.birth_command.target_index {
        return a.birth_command.target_index < b.birth_command.target_index;
    }
    a.item_index < b.item_index
}

proof fn lemma_qid_lt_order(a: QueueItemId, b: QueueItemId, c: QueueItemId)
    ensures
        qid_lt(a, b) && qid_lt(b, c) ==> qid_lt(a, c),
        a == b || qid_lt(a, b) || qid_lt(b, a),
        !(qid_lt(a, b) && qid_lt(b, a)),
        !qid_lt(a, a),
{
}

pub open spec fn qid_sorted(s: Seq<QueueItemId>) -> bool {
    forall|i: int, j: int| 0 <= i < j < s.len() ==> qid_lt(#[trigger] s[i], #[trigger] s[j])
}

/// Adds `x` to a strictly sorted id list unless it is already there.
fn insert_qid(out: &mut Vec<QueueItemId>, x: QueueItemId)
    requires
        qid_sorted(old(out)@),
    ensures
        qid_sorted(final(out)@),
        forall|y: QueueItemId| #[trigger] final(out)@.contains(y) <==> (old(out)@.contains(y) || y == x),
{
    let mut p: usize = 0;
    while p < out.len() && qid_lt_exec(&out[p], &x)
        invariant
            0 <= p <= out.len(),
            qid_sorted(out@),
            forall|k: int| 0 <= k < p ==> qid_lt(#[trigger] out@[k], x),
        decreases out.len() - p,
    {
        p += 1;
    }
    if p < out.len() && out[p] == x {
        assert(out@.contains(x));
        return;
    }
    let ghost before = out@;
    proof {
        if p < before.len() {
            lemma_qid_lt_order(before[p as int], x, x);
            assert forall|k: int| p <= k < before.len() implies qid_lt(x, #[trigger] before[k]) by {
                if k > p {
                    lemma_qid_lt_order(x, before[p as int], before[k]);
                }
            }
        }
    }
    out.insert(p, x);
    assert(out@ == before.insert(p as int, x));
    assert forall|i: int, j: int| 0 <= i < j < out@.len() implies qid_lt(#[trigger] out@[i], #[trigger] out@[j]) by {
        if i < p && j > p {
            lemma_qid_lt_order(before[i], x, before[j - 1]);
        }
    }
    assert forall|y: QueueItemId| #[trigger] out@.contains(y) <==> (before.contains(y) || y == x) by {
        if out@.contains(y) {
            let k = choose|k: int| 0 <= k < out@.len() && out@[k] == y;
            if k < p {
                assert(before[k] == y);
            } else if k > p {
                assert(before[k - 1] == y);
            }
        }
        if before.contains(y) {
            let k = choose|k: int| 0 <= k < before.len() && before[k] == y;
            if k < p {
                assert(out@[k] == y);
            } else {
                assert(out@[k + 1] == y);
            }
        }
        if y == x {
            assert(out@[p as int] == x);
        }
    }
}

// ---- draft reference resolution ------------------------------------------------------------

/// Byte length of a string in UTF-8, as `str::len` reports it.
pub open spec fn utf8_len(s: Seq<char>) -> nat {
    (vstd::utf8::encode_utf8(s).len() as usize) as nat
}

/// Index of the earlier command (before `i`) with local id `id`, if any.
pub open spec fn find_local(cmds: Seq<DraftCommand>, i: int, id: Seq<char>) -> Option<int> {
    if exists|j: int| 0 <= j < i && #[trigger] cmds[j].local_id@ == id {
        Some(choose|j: int| 0 <= j < i && #[trigger] cmds[j].local_id@ == id)
    } else {
        None
    }
}

/// First position of `x` in `s`.
pub open spec fn first_index(s: Seq<EntityId>, x: EntityId) -> int {
    choose|p: int| 0 <= p < s.len() && s[p] == x && forall|q: int| 0 <= q < p ==> s[q] != x
}

pub open spec fn local_command_id(round: u32, player: PlayerId, j: int) -> CommandId {
    CommandId { round, player, index: j as u32 }
}

/// What a blueprint reference of command `i` resolves to, or `None` when it cannot.
pub open spec fn resolve_bp_ref(
    cmds: Seq<DraftCommand>,
    i: int,
    r: DraftItemRef<BlueprintId>,
    round: u32,
    player: PlayerId,
) -> Option<BlueprintId> {
    match r {
        DraftItemRef::Persistent { id } => Some(id),
        DraftItemRef::Draft { local_id, item_index } => match find_local(cmds, i, local_id@) {
            None => None,
            Some(j) => match cmds[j].command {
                Command::PlaceBlueprints { tiles, .. } => if item_index < tiles@.len()
                    && item_index <= u16::MAX {
                    Some(spec_blueprint(local_command_id(round, player, j), item_index))
                } else {
                    None
                },
                _ => None,
            },
        },
    }
}

pub open spec fn bp_refs_ok(cmds: Seq<DraftCommand>, i: int, refs: Seq<DraftItemRef<BlueprintId>>, round: u32, player: PlayerId) -> bool {
    forall|k: int| 0 <= k < refs.len() ==> (#[trigger] resolve_bp_ref(cmds, i, refs[k], round, player)) is Some
}

pub open spec fn bp_refs_resolved(
    cmds: Seq<DraftCommand>,
    i: int,
    refs: Seq<DraftItemRef<BlueprintId>>,
    round: u32,
    player: PlayerId,
    out: Seq<BlueprintId>,
) -> bool {
    &&& out.len() == refs.len()
    &&& forall|k: int| 0 <= k < refs.len() ==> #[trigger] resolve_bp_ref(cmds, i, refs[k], round, player) == Some(out[k])
}

/// The new queue items that command `j` created, if it is an append or replacement.
pub open spec fn created_items(c: DraftBody) -> Option<(Seq<EntityId>, Seq<TypeKey>)> {
    match c {
        Command::EditProduction { factories, edit } => match edit {
            ProductionEdit::Append { items } => Some((factories@, items@)),
            ProductionEdit::ReplacePending { items } => Some((factories@, items@)),
            _ => None,
        },
        _ => None,
    }
}

/// The queue item ids a reference of command `i`, which targets `factories`, stands for:
/// a persistent id, or one id per targeted factory for an earlier queue edit's item.
pub open spec fn queue_ref_ids(
    cmds: Seq<DraftCommand>,
    i: int,
    r: DraftItemRef<QueueItemId>,
    factories: Seq<EntityId>,
    round: u32,
    player: PlayerId,
) -> Option<Seq<QueueItemId>> {
    match r {
        DraftItemRef::Persistent { id } => Some(seq![id]),
        DraftItemRef::Draft { local_id, item_index } => match find_local(cmds, i, local_id@) {
            None => None,
            Some(j) => match created_items(cmds[j].command) {
                None => None,
                Some((sources, items)) => if item_index < items.len()
                    && item_index <= u16::MAX
                    && (forall|m: int| 0 <= m < factories.len() ==> sources.contains(#[trigger] factories[m]))
                    && (forall|m: int| 0 <= m < factories.len() ==> first_index(sources, #[trigger] factories[m]) <= u16::MAX) {
                    Some(Seq::new(factories.len(), |m: int| spec_queue_item(
                        local_command_id(round, player, j),
                        first_index(sources, factories[m]) as u32,
                        item_index,
                    )))
                } else {
                    None
                },
            },
        },
    }
}

pub open spec fn queue_refs_ok(
    cmds: Seq<DraftCommand>,
    i: int,
    refs: Seq<DraftItemRef<QueueItemId>>,
    factories: Seq<EntityId>,
    round: u32,
    player: PlayerId,
) -> bool {
    forall|k: int| 0 <= k < refs.len() ==> (#[trigger] queue_ref_ids(cmds, i, refs[k], factories, round, player)) is Some
}

/// `q` is one of the ids the references stand for.
pub open spec fn queue_collected(
    cmds: Seq<DraftCommand>,
    i: int,
    refs: Seq<DraftItemRef<QueueItemId>>,
    factories: Seq<EntityId>,
    round: u32,
    player: PlayerId,
    q: QueueItemId,
) -> bool {
    exists|k: int, m: int|
        #![trigger queue_ref_ids(cmds, i, refs[k], factories, round, player)->0[m]]
        0 <= k < refs.len() && 0 <= m < queue_ref_ids(cmds, i, refs[k], factories, round, player)->0.len()
            && queue_ref_ids(cmds, i, refs[k], factories, round, player)->0[m] == q
}

/// `out` lists every id the references stand for, once, in id order.
pub open spec fn queue_refs_resolved(
    cmds: Seq<DraftCommand>,
    i: int,
    refs: Seq<DraftItemRef<QueueItemId>>,
    factories: Seq<EntityId>,
    round: u32,
    player: PlayerId,
    out: Seq<QueueItemId>,
) -> bool {
    &&& qid_sorted(out)
    &&& forall|q: QueueItemId| #[trigger] out.contains(q) <==> queue_collected(cmds, i, refs, factories, round, player, q)
}

pub open spec fn strictly_increasing(s: Seq<EntityId>) -> bool {
    forall|k: int| 0 <= k < s.len() - 1 ==> entity_lt(#[trigger] s[k], s[k + 1])
}

/// Local ids are nonempty, at most 64 bytes and unique within the draft so far.
pub open spec fn local_ok(cmds: Seq<DraftCommand>, i: int) -> bool {
    &&& cmds[i].local_id@.len() > 0
    &&& utf8_len(cmds[i].local_id@) <= 64
    &&& find_local(cmds, i, cmds[i].local_id@) is None
}

/// Size limits and shapes of a command that do not depend on other commands.
pub open spec fn shape_ok(c: DraftBody) -> bool {
    match c {
        Command::EditProduction { factories, edit } => {
            &&& factories@.len() <= 65536
            &&& strictly_increasing(factories@)
            &&& match edit {
                ProductionEdit::Append { items } => items@.len() <= 65536,
                ProductionEdit::ReplacePending { items } => items@.len() <= 65536,
                _ => true,
            }
        },
        Command::ConfigureBlueprints { blueprint_ids, settings } => {
            &&& blueprint_ids@.len() <= 65536
            &&& settings.queue@.len() <= 65536
            &&& (settings.queue_loop_flags@.len() == 0 || settings.queue_loop_flags@.len() == settings.queue@.len())
        },
        Command::PlaceBlueprints { tiles, output_directions, .. } => {
            &&& tiles@.len() <= 65536
            &&& (output_directions matches Some(d) ==> d@.len() == tiles@.len())
        },
        _ => true,
    }
}

/// Every draft reference of command `i` resolves.
pub open spec fn refs_ok(cmds: Seq<DraftCommand>, i: int, round: u32, player: PlayerId) -> bool {
    match cmds[i].command {
        Command::EditProduction { factories, edit } => match edit {
            ProductionEdit::RemovePending { item_ids } => queue_refs_ok(cmds, i, item_ids@, factories@, round, player),
            ProductionEdit::SetItemLoop { item_ids, .. } => queue_refs_ok(cmds, i, item_ids@, factories@, round, player),
            _ => true,
        },
        Command::ConfigureBlueprints { blueprint_ids, .. } => bp_refs_ok(cmds, i, blueprint_ids@, round, player),
        Command::CancelBlueprints { blueprint_ids } => bp_refs_ok(cmds, i, blueprint_ids@, round, player),
        _ => true,
    }
}

/// The checks on command `i` of the draft: its local id, index, shape and references.
pub open spec fn entry_valid(cmds: Seq<DraftCommand>, i: int, round: u32, player: PlayerId) -> bool {
    &&& local_ok(cmds, i)
    &&& i <= u32::MAX
    &&& shape_ok(cmds[i].command)
    &&& refs_ok(cmds, i, round, player)
}

pub open spec fn silo_same(a: SiloPlan, b: SiloPlan) -> bool {
    a.automatic == b.automatic && a.launches@ == b.launches@
}

pub open spec fn settings_same(a: BlueprintSettings, b: BlueprintSettings) -> bool {
    &&& a.queue@ == b.queue@
    &&& a.queue_loop_flags@ == b.queue_loop_flags@
    &&& a.order == b.order
    &&& a.priority == b.priority
    &&& a.loop_enabled == b.loop_enabled
    &&& match (a.silo_plan, b.silo_plan) {
        (None, None) => true,
        (Some(x), Some(y)) => silo_same(x, y),
        _ => false,
    }
}

pub open spec fn member_edit_same(a: MemberEdit, b: MemberEdit) -> bool {
    match (a, b) {
        (MemberEdit::Replace { entities: x }, MemberEdit::Replace { entities: y }) => x@ == y@,
        (MemberEdit::Add { entities: x }, MemberEdit::Add { entities: y }) => x@ == y@,
        (MemberEdit::Remove { entities: x }, MemberEdit::Remove { entities: y }) => x@ == y@,
        _ => false,
    }
}

/// `out` is command `i` with every reference resolved and everything else unchanged.
pub open spec fn resolved_as(cmds: Seq<DraftCommand>, i: int, round: u32, player: PlayerId, out: Command) -> bool {
    match (cmds[i].command, out) {
        (Command::AssignOrder { entities: a, order: o }, Command::AssignOrder { entities: b, order: p }) => a@ == b@ && o == p,
        (Command::AssignGroupOrder { group: g, order: o }, Command::AssignGroupOrder { group: h, order: p }) => g == h && o == p,
        (Command::EditGroupMembers { group: g, edit: e }, Command::EditGroupMembers { group: h, edit: f }) => g == h && member_edit_same(e, f),
        (Command::BindFactoryGroup { factories: a, group: g }, Command::BindFactoryGroup { factories: b, group: h }) => a@ == b@ && g == h,
        (Command::SetPriority { entities: a, priority: p }, Command::SetPriority { entities: b, priority: q }) => a@ == b@ && p == q,
        (
            Command::PlaceBlueprints { type_key: k, tiles: a, priority: p, output_directions: d },
            Command::PlaceBlueprints { type_key: l, tiles: b, priority: q, output_directions: e },
        ) => k == l && a@ == b@ && p == q && match (d, e) {
            (None, None) => true,
            (Some(x), Some(y)) => x@ == y@,
            _ => false,
        },
        (Command::ConfigureBlueprints { blueprint_ids: r, settings: s }, Command::ConfigureBlueprints { blueprint_ids: b, settings: t }) =>
            bp_refs_resolved(cmds, i, r@, round, player, b@) && settings_same(s, t),
        (Command::CancelBlueprints { blueprint_ids: r }, Command::CancelBlueprints { blueprint_ids: b }) =>
            bp_refs_resolved(cmds, i, r@, round, player, b@),
        (Command::EditProduction { factories: a, edit: e }, Command::EditProduction { factories: b, edit: f }) => a@ == b@ && match (e, f) {
            (ProductionEdit::Append { items: x }, ProductionEdit::Append { items: y }) => x@ == y@,
            (ProductionEdit::ReplacePending { items: x }, ProductionEdit::ReplacePending { items: y }) => x@ == y@,
            (ProductionEdit::RemovePending { item_ids: r }, ProductionEdit::RemovePending { item_ids: q }) =>
                queue_refs_resolved(cmds, i, r@, a@, round, player, q@),
            (ProductionEdit::SetItemLoop { item_ids: r, enabled: x }, ProductionEdit::SetItemLoop { item_ids: q, enabled: y }) =>
                queue_refs_resolved(cmds, i, r@, a@, round, player, q@) && x == y,
            (ProductionEdit::CancelActive {}, ProductionEdit::CancelActive {}) => true,
            _ => false,
        },
        (Command::SetQueueLoop { factories: a, enabled: x }, Command::SetQueueLoop { factories: b, enabled: y }) => a@ == b@ && x == y,
        (Command::SetSiloPlan { silos: a, plan: p }, Command::SetSiloPlan { silos: b, plan: q }) => a@ == b@ && silo_same(p, q),
        (Command::SetStoredOrder { factories: a, order: o }, Command::SetStoredOrder { factories: b, order: p }) => a@ == b@ && o == p,
        _ => false,
    }
}

// ---- copying ---------------------------------------------------------------------------------

pub(crate) fn copy_vec<T: Copy>(v: &Vec<T>) -> (r: Vec<T>)
    ensures
        r@ == v@,
{
    let mut r: Vec<T> = Vec::new();
    let mut i: usize = 0;
    while i < v.len()
        invariant
            0 <= i <= v.len(),
            r@ == v@.subrange(0, i as int),
        decreases v.len() - i,
    {
        r.push(v[i]);
        i += 1;
    }
    assert(v@.subrange(0, v@.len() as int) == v@);
    r
}

fn copy_strings(v: &Vec<String>) -> (r: Vec<String>)
    ensures
        r@ == v@,
{
    let mut r: Vec<String> = Vec::new();
    let mut i: usize = 0;
    while i < v.len()
        invariant
            0 <= i <= v.len(),
            r@ == v@.subrange(0, i as int),
        decreases v.len() - i,
    {
        r.push(v[i].clone());
        i += 1;
    }
    assert(v@.subrange(0, v@.len() as int) == v@);
    r
}

fn copy_launches(v: &Vec<MissileLaunch>) -> (r: Vec<MissileLaunch>)
    ensures
        r@ == v@,
{
    let mut r: Vec<MissileLaunch> = Vec::new();
    let mut i: usize = 0;
    while i < v.len()
        invariant
            0 <= i <= v.len(),
            r@ == v@.subrange(0, i as int),
        decreases v.len() - i,
    {
        r.push(MissileLaunch { type_key: v[i].type_key.clone(), target: v[i].target });
        i += 1;
    }
    assert(v@.subrange(0, v@.len() as int) == v@);
    r
}

fn copy_silo(p: &SiloPlan) -> (r: SiloPlan)
    ensures
        silo_same(*p, r),
{
    SiloPlan { automatic: p.automatic, launches: copy_launches(&p.launches) }
}

pub(crate) fn copy_settings(s: &BlueprintSettings) -> (r: BlueprintSettings)
    ensures
        settings_same(*s, r),
{
    BlueprintSettings {
        queue: copy_strings(&s.queue),
        queue_loop_flags: copy_vec(&s.queue_loop_flags),
        order: s.order,
        priority: s.priority,
        loop_enabled: s.loop_enabled,
        silo_plan: match &s.silo_plan {
            Some(p) => Some(copy_silo(p)),
            None => None,
        },
    }
}

fn copy_member_edit(e: &MemberEdit) -> (r: MemberEdit)
    ensures
        member_edit_same(*e, r),
{
    match e {
        MemberEdit::Replace { entities } => MemberEdit::Replace { entities: copy_vec(entities) },
        MemberEdit::Add { entities } => MemberEdit::Add { entities: copy_vec(entities) },
        MemberEdit::Remove { entities } => MemberEdit::Remove { entities: copy_vec(entities) },
    }
}


// ---- resolution ------------------------------------------------------------------------------

pub open spec fn prefix_unique(cmds: Seq<DraftCommand>, i: int) -> bool {
    forall|j: int, k: int| 0 <= j < k < i ==> #[trigger] cmds[j].local_id@ != #[trigger] cmds[k].local_id@
}

proof fn lemma_prefix_unique(cmds: Seq<DraftCommand>, i: int, a: int, b: int)
    requires
        prefix_unique(cmds, i),
        0 <= a < i,
        0 <= b < i,
        cmds[a].local_id@ == cmds[b].local_id@,
    ensures
        a == b,
{
    if a < b {
        assert(cmds[a].local_id@ != cmds[b].local_id@);
    } else if b < a {
        assert(cmds[b].local_id@ != cmds[a].local_id@);
    }
}

fn find_local_exec(cmds: &Vec<DraftCommand>, i: usize, id: &String) -> (r: Option<usize>)
    requires
        i <= cmds@.len(),
        prefix_unique(cmds@, i as int),
    ensures
        match r {
            None => find_local(cmds@, i as int, id@) is None,
            Some(j) => j < i && find_local(cmds@, i as int, id@) == Some(j as int),
        },
{
    let mut j: usize = 0;
    while j < i
        invariant
            0 <= j <= i <= cmds@.len(),
            prefix_unique(cmds@, i as int),
            forall|k: int| 0 <= k < j ==> #[trigger] cmds@[k].local_id@ != id@,
        decreases i - j,
    {
        if cmds[j].local_id == *id {
            proof {
                assert(cmds@[j as int].local_id@ == id@);
                let c = choose|c: int| 0 <= c < i && #[trigger] cmds@[c].local_id@ == id@;
                lemma_prefix_unique(cmds@, i as int, c, j as int);
            }
            return Some(j);
        }
        j += 1;
    }
    None
}

fn first_index_exec(s: &Vec<EntityId>, x: &EntityId) -> (r: Option<usize>)
    ensures
        match r {
            None => !s@.contains(*x),
            Some(p) => p < s@.len() && s@.contains(*x) && p == first_index(s@, *x),
        },
{
    let mut p: usize = 0;
    while p < s.len()
        invariant
            0 <= p <= s@.len(),
            forall|q: int| 0 <= q < p ==> s@[q] != *x,
        decreases s.len() - p,
    {
        if s[p] == *x {
            proof {
                assert(s@.contains(*x));
                let c = choose|c: int| 0 <= c < s@.len() && s@[c] == *x && forall|q: int| 0 <= q < c ==> s@[q] != *x;
                assert(c == p) by {
                    if c < p {
                    } else if c > p {
                        assert(s@[p as int] == *x);
                    }
                }
            }
            return Some(p);
        }
        p += 1;
    }
    None
}

fn resolve_bp_ref_exec(
    cmds: &Vec<DraftCommand>,
    i: usize,
    r: &DraftItemRef<BlueprintId>,
    round: u32,
    player: PlayerId,
) -> (out: Result<BlueprintId, String>)
    requires
        i < cmds@.len(),
        i <= u32::MAX,
        prefix_unique(cmds@, i as int),
    ensures
        out is Ok <==> resolve_bp_ref(cmds@, i as int, *r, round, player) is Some,
        out matches Ok(b) ==> resolve_bp_ref(cmds@, i as int, *r, round, player) == Some(b),
{
    match r {
        DraftItemRef::Persistent { id } => Ok(*id),
        DraftItemRef::Draft { local_id, item_index } => {
            let j = match find_local_exec(cmds, i, local_id) {
                Some(j) => j,
                None => {
                    return Err("unknown, forward or cyclic draft reference".to_string());
                },
            };
            match &cmds[j].command {
                Command::PlaceBlueprints { tiles, .. } => {
                    if *item_index as usize >= tiles.len() {
                        return Err("blueprint item_index out of range".to_string());
                    }
                    blueprint(&command_id(round, player, j as u32), *item_index)
                },
                _ => Err("blueprint reference must point to placement".to_string()),
            }
        },
    }
}

fn resolve_bp_refs(
    cmds: &Vec<DraftCommand>,
    i: usize,
    refs: &Vec<DraftItemRef<BlueprintId>>,
    round: u32,
    player: PlayerId,
) -> (out: Result<Vec<BlueprintId>, String>)
    requires
        i < cmds@.len(),
        i <= u32::MAX,
        prefix_unique(cmds@, i as int),
    ensures
        out is Ok <==> bp_refs_ok(cmds@, i as int, refs@, round, player),
        out matches Ok(v) ==> bp_refs_resolved(cmds@, i as int, refs@, round, player, v@),
{
    let mut v: Vec<BlueprintId> = Vec::new();
    let mut k: usize = 0;
    while k < refs.len()
        invariant
            0 <= k <= refs@.len(),
            i < cmds@.len(),
            i <= u32::MAX,
            prefix_unique(cmds@, i as int),
            v@.len() == k,
            forall|m: int| 0 <= m < k ==> #[trigger] resolve_bp_ref(cmds@, i as int, refs@[m], round, player) == Some(v@[m]),
        decreases refs.len() - k,
    {
        let b = match resolve_bp_ref_exec(cmds, i, &refs[k], round, player) {
            Ok(b) => b,
            Err(e) => {
                return Err(e);
            },
        };
        v.push(b);
        k += 1;
    }
    Ok(v)
}

/// The ids that one draft queue reference stands for, in factory order.
fn draft_queue_ids(
    cmds: &Vec<DraftCommand>,
    i: usize,
    local_id: &String,
    item_index: u32,
    factories: &Vec<EntityId>,
    round: u32,
    player: PlayerId,
) -> (out: Result<Vec<QueueItemId>, String>)
    requires
        i < cmds@.len(),
        i <= u32::MAX,
        round != 0,
        prefix_unique(cmds@, i as int),
    ensures
        out is Ok <==> queue_ref_ids(cmds@, i as int, DraftItemRef::Draft { local_id: *local_id, item_index }, factories@, round, player) is Some,
        out matches Ok(v) ==> queue_ref_ids(cmds@, i as int, DraftItemRef::Draft { local_id: *local_id, item_index }, factories@, round, player) == Some(v@),
{
    let ghost r = DraftItemRef::<QueueItemId>::Draft { local_id: *local_id, item_index };
    let j = match find_local_exec(cmds, i, local_id) {
        Some(j) => j,
        None => {
            return Err("unknown, forward or cyclic draft reference".to_string());
        },
    };
    let (sources, items_len) = match &cmds[j].command {
        Command::EditProduction { factories: sources, edit } => match edit {
            ProductionEdit::Append { items } => (sources, items.len()),
            ProductionEdit::ReplacePending { items } => (sources, items.len()),
            _ => {
                return Err("queue reference must point to new items".to_string());
            },
        },
        _ => {
            return Err("queue reference must point to a queue edit".to_string());
        },
    };
    let ghost created = created_items(cmds@[j as int].command)->0;
    assert(created.0 == sources@ && created.1.len() == items_len);
    if item_index as usize >= items_len {
        return Err("queue item_index out of range".to_string());
    }
    let mut ids: Vec<QueueItemId> = Vec::new();
    let mut m: usize = 0;
    while m < factories.len()
        invariant
            0 <= m <= factories@.len(),
            j < i <= u32::MAX,
            i < cmds@.len(),
            find_local(cmds@, i as int, local_id@) == Some(j as int),
            created_items(cmds@[j as int].command) matches Some(c) && c.0 == sources@ && c.1.len() == items_len,
            round != 0,
            (item_index as int) < items_len,
            ids@.len() == m,
            forall|q: int| 0 <= q < m ==> sources@.contains(#[trigger] factories@[q]),
            forall|q: int| 0 <= q < m ==> first_index(sources@, #[trigger] factories@[q]) <= u16::MAX,
            item_index <= u16::MAX ==> forall|q: int| 0 <= q < m ==> #[trigger] ids@[q] == spec_queue_item(
                local_command_id(round, player, j as int),
                first_index(sources@, factories@[q]) as u32,
                item_index,
            ),
            m > 0 ==> item_index <= u16::MAX,
        decreases factories.len() - m,
    {
        let position = match first_index_exec(sources, &factories[m]) {
            Some(p) => p,
            None => {
                assert(!sources@.contains(factories@[m as int]));
                return Err("referenced queue edit did not target this factory".to_string());
            },
        };
        if position > 0xffff {
            assert(first_index(sources@, factories@[m as int]) > u16::MAX);
            return Err("target index exceeds u16".to_string());
        }
        let q = queue_item(&command_id(round, player, j as u32), position as u32, item_index)?;
        ids.push(q);
        m += 1;
    }
    if item_index > 0xffff {
        return Err("item index exceeds u16".to_string());
    }
    proof {
        let expected = Seq::new(factories@.len(), |q: int| spec_queue_item(
            local_command_id(round, player, j as int),
            first_index(sources@, factories@[q]) as u32,
            item_index,
        ));
        assert(ids@ =~= expected);
    }
    Ok(ids)
}

fn resolve_queue_refs(
    cmds: &Vec<DraftCommand>,
    i: usize,
    refs: &Vec<DraftItemRef<QueueItemId>>,
    factories: &Vec<EntityId>,
    round: u32,
    player: PlayerId,
) -> (out: Result<Vec<QueueItemId>, String>)
    requires
        i < cmds@.len(),
        i <= u32::MAX,
        round != 0,
        prefix_unique(cmds@, i as int),
    ensures
        out is Ok <==> queue_refs_ok(cmds@, i as int, refs@, factories@, round, player),
        out matches Ok(v) ==> queue_refs_resolved(cmds@, i as int, refs@, factories@, round, player, v@),
{
    let mut out: Vec<QueueItemId> = Vec::new();
    let mut k: usize = 0;
    while k < refs.len()
        invariant
            0 <= k <= refs@.len(),
            i < cmds@.len(),
            i <= u32::MAX,
            round != 0,
            prefix_unique(cmds@, i as int),
            qid_sorted(out@),
            forall|kk: int| 0 <= kk < k ==> (#[trigger] queue_ref_ids(cmds@, i as int, refs@[kk], factories@, round, player)) is Some,
            forall|q: QueueItemId| #[trigger] out@.contains(q) <==> queue_collected(cmds@, i as int, refs@.subrange(0, k as int), factories@, round, player, q),
        decreases refs.len() - k,
    {
        let ghost before = out@;
        let ids: Vec<QueueItemId> = match &refs[k] {
            DraftItemRef::Persistent { id } => {
                let mut v = Vec::new();
                v.push(*id);
                assert(v@ == seq![*id]);
                v
            },
            DraftItemRef::Draft { local_id, item_index } => {
                match draft_queue_ids(cmds, i, local_id, *item_index, factories, round, player) {
                    Ok(v) => v,
                    Err(e) => {
                        return Err(e);
                    },
                }
            },
        };
        let ghost idk = queue_ref_ids(cmds@, i as int, refs@[k as int], factories@, round, player)->0;
        assert(ids@ == idk);
        let mut m: usize = 0;
        while m < ids.len()
            invariant
                0 <= m <= ids@.len(),
                qid_sorted(out@),
                forall|q: QueueItemId| #[trigger] out@.contains(q) <==> (before.contains(q) || exists|mm: int| 0 <= mm < m && ids@[mm] == q),
            decreases ids.len() - m,
        {
            insert_qid(&mut out, ids[m]);
            proof {
                assert forall|q: QueueItemId| #[trigger] out@.contains(q) <==> (before.contains(q) || exists|mm: int| 0 <= mm < m + 1 && ids@[mm] == q) by {
                    if q == ids@[m as int] {
                        assert(exists|mm: int| 0 <= mm < m + 1 && ids@[mm] == q);
                    }
                }
            }
            m += 1;
        }
        proof {
            let pre = refs@.subrange(0, k as int);
            let post = refs@.subrange(0, k + 1);
            assert forall|q: QueueItemId| #[trigger] out@.contains(q) <==> queue_collected(cmds@, i as int, post, factories@, round, player, q) by {
                if queue_collected(cmds@, i as int, post, factories@, round, player, q) {
                    let (kk, mm) = choose|kk: int, mm: int|
                        #![trigger queue_ref_ids(cmds@, i as int, post[kk], factories@, round, player)->0[mm]]
                        0 <= kk < post.len() && 0 <= mm < queue_ref_ids(cmds@, i as int, post[kk], factories@, round, player)->0.len()
                            && queue_ref_ids(cmds@, i as int, post[kk], factories@, round, player)->0[mm] == q;
                    if kk < k {
                        assert(pre[kk] == post[kk]);
                        assert(queue_collected(cmds@, i as int, pre, factories@, round, player, q));
                    } else {
                        assert(ids@[mm] == q);
                    }
                }
                if before.contains(q) {
                    let (kk, mm) = choose|kk: int, mm: int|
                        #![trigger queue_ref_ids(cmds@, i as int, pre[kk], factories@, round, player)->0[mm]]
                        0 <= kk < pre.len() && 0 <= mm < queue_ref_ids(cmds@, i as int, pre[kk], factories@, round, player)->0.len()
                            && queue_ref_ids(cmds@, i as int, pre[kk], factories@, round, player)->0[mm] == q;
                    assert(pre[kk] == post[kk]);
                    assert(queue_collected(cmds@, i as int, post, factories@, round, player, q));
                }
                if exists|mm: int| 0 <= mm < ids@.len() && ids@[mm] == q {
                    let mm = choose|mm: int| 0 <= mm < ids@.len() && ids@[mm] == q;
                    assert(post[k as int] == refs@[k as int]);
                    assert(queue_ref_ids(cmds@, i as int, post[k as int], factories@, round, player)->0[mm] == q);
                    assert(queue_collected(cmds@, i as int, post, factories@, round, player, q));
                }
            }
        }
        k += 1;
    }
    proof {
        assert(refs@.subrange(0, refs@.len() as int) == refs@);
    }
    Ok(out)
}


fn strictly_increasing_exec(v: &Vec<EntityId>) -> (r: bool)
    ensures
        r == strictly_increasing(v@),
{
    if v.len() < 2 {
        return true;
    }
    let mut k: usize = 0;
    while k + 1 < v.len()
        invariant
            0 <= k < v@.len(),
            v@.len() >= 2,
            forall|q: int| 0 <= q < k ==> entity_lt(#[trigger] v@[q], v@[q + 1]),
        decreases v.len() - k,
    {
        if !entity_lt_exec(&v[k], &v[k + 1]) {
            return false;
        }
        k += 1;
    }
    true
}

/// Checks the size limits and shape of one drafted command.
fn check_shape(c: &DraftBody) -> (r: Result<(), String>)
    ensures
        r is Ok <==> shape_ok(*c),
{
    match c {
        Command::EditProduction { factories, edit } => {
            if factories.len() > 65536 || !strictly_increasing_exec(factories) {
                return Err("factory targets must be sorted, unique and fit u16 indices".to_string());
            }
            let too_many = match edit {
                ProductionEdit::Append { items } => items.len() > 65536,
                ProductionEdit::ReplacePending { items } => items.len() > 65536,
                _ => false,
            };
            if too_many {
                return Err("too many queue items".to_string());
            }
            Ok(())
        },
        Command::ConfigureBlueprints { blueprint_ids, settings } => {
            if blueprint_ids.len() > 65536 || settings.queue.len() > 65536 {
                return Err("too many blueprint targets or recipes".to_string());
            }
            if settings.queue_loop_flags.len() != 0 && settings.queue_loop_flags.len() != settings.queue.len() {
                return Err("queue loop flags must match the queued recipe count".to_string());
            }
            Ok(())
        },
        Command::PlaceBlueprints { tiles, output_directions, .. } => {
            if tiles.len() > 65536 {
                return Err("too many blueprint tiles".to_string());
            }
            let mismatch = match output_directions {
                Some(d) => d.len() != tiles.len(),
                None => false,
            };
            if mismatch {
                return Err("output directions must correspond to every placement tile".to_string());
            }
            Ok(())
        },
        _ => Ok(()),
    }
}

/// Resolves the draft references of command `i` and copies everything else.
fn resolve_one(cmds: &Vec<DraftCommand>, i: usize, round: u32, player: PlayerId) -> (r: Result<Command, String>)
    requires
        i < cmds@.len(),
        i <= u32::MAX,
        round != 0,
        prefix_unique(cmds@, i as int),
    ensures
        r is Ok <==> refs_ok(cmds@, i as int, round, player),
        r matches Ok(c) ==> resolved_as(cmds@, i as int, round, player, c),
{
    match &cmds[i].command {
        Command::AssignOrder { entities, order } => Ok(Command::AssignOrder { entities: copy_vec(entities), order: *order }),
        Command::AssignGroupOrder { group, order } => Ok(Command::AssignGroupOrder { group: *group, order: *order }),
        Command::EditGroupMembers { group, edit } => Ok(Command::EditGroupMembers { group: *group, edit: copy_member_edit(edit) }),
        Command::BindFactoryGroup { factories, group } => Ok(Command::BindFactoryGroup { factories: copy_vec(factories), group: *group }),
        Command::SetPriority { entities, priority } => Ok(Command::SetPriority { entities: copy_vec(entities), priority: *priority }),
        Command::PlaceBlueprints { type_key, tiles, priority, output_directions } => Ok(Command::PlaceBlueprints {
            type_key: type_key.clone(),
            tiles: copy_vec(tiles),
            priority: *priority,
            output_directions: match output_directions {
                Some(d) => Some(copy_vec(d)),
                None => None,
            },
        }),
        Command::ConfigureBlueprints { blueprint_ids, settings } => {
            let ids = resolve_bp_refs(cmds, i, blueprint_ids, round, player)?;
            Ok(Command::ConfigureBlueprints { blueprint_ids: ids, settings: copy_settings(settings) })
        },
        Command::CancelBlueprints { blueprint_ids } => {
            let ids = resolve_bp_refs(cmds, i, blueprint_ids, round, player)?;
            Ok(Command::CancelBlueprints { blueprint_ids: ids })
        },
        Command::EditProduction { factories, edit } => {
            let edit = match edit {
                ProductionEdit::Append { items } => ProductionEdit::Append { items: copy_strings(items) },
                ProductionEdit::ReplacePending { items } => ProductionEdit::ReplacePending { items: copy_strings(items) },
                ProductionEdit::RemovePending { item_ids } => ProductionEdit::RemovePending {
                    item_ids: resolve_queue_refs(cmds, i, item_ids, factories, round, player)?,
                },
                ProductionEdit::SetItemLoop { item_ids, enabled } => ProductionEdit::SetItemLoop {
                    item_ids: resolve_queue_refs(cmds, i, item_ids, factories, round, player)?,
                    enabled: *enabled,
                },
                ProductionEdit::CancelActive {} => ProductionEdit::CancelActive {},
            };
            Ok(Command::EditProduction { factories: copy_vec(factories), edit })
        },
        Command::SetQueueLoop { factories, enabled } => Ok(Command::SetQueueLoop { factories: copy_vec(factories), enabled: *enabled }),
        Command::SetSiloPlan { silos, plan } => Ok(Command::SetSiloPlan { silos: copy_vec(silos), plan: copy_silo(plan) }),
        Command::SetStoredOrder { factories, order } => Ok(Command::SetStoredOrder { factories: copy_vec(factories), order: *order }),
    }
}

/// Resolves the references a turn draft makes to blueprints and queue items created by its
/// own earlier commands into the causal ids those items will have, checking local ids, sizes
/// and shapes. It fails as a whole when any command fails. It never creates predicted
/// entities or ticks; round zero is reserved for genesis.
pub fn resolve_local_references(draft: &TurnDraft, round: u32, player: PlayerId) -> (r: Result<Vec<Command>, String>)
    ensures
        r is Ok <==> round != 0 && forall|i: int| 0 <= i < draft.commands@.len() ==> #[trigger] entry_valid(draft.commands@, i, round, player),
        r matches Ok(v) ==> v@.len() == draft.commands@.len() && forall|i: int| 0 <= i < v@.len() ==> #[trigger] resolved_as(draft.commands@, i, round, player, v@[i]),
{
    if round == 0 {
        return Err("round zero is reserved for genesis".to_string());
    }
    let cmds = &draft.commands;
    let mut resolved: Vec<Command> = Vec::new();
    let mut i: usize = 0;
    while i < cmds.len()
        invariant
            0 <= i <= cmds@.len(),
            cmds == &draft.commands,
            round != 0,
            prefix_unique(cmds@, i as int),
            resolved@.len() == i,
            forall|k: int| 0 <= k < i ==> #[trigger] entry_valid(cmds@, k, round, player),
            forall|k: int| 0 <= k < i ==> #[trigger] resolved_as(cmds@, k, round, player, resolved@[k]),
        decreases cmds.len() - i,
    {
        let entry = &cmds[i];
        let id_str = entry.local_id.as_str();
        let empty = id_str.is_empty();
        let bytes = id_str.len();
        let earlier = find_local_exec(cmds, i, &entry.local_id);
        assert(empty == (cmds@[i as int].local_id@.len() == 0));
        assert(bytes == utf8_len(cmds@[i as int].local_id@));
        if empty || bytes > 64 || earlier.is_some() {
            assert(!local_ok(cmds@, i as int));
            assert(!entry_valid(cmds@, i as int, round, player));
            return Err("draft local IDs must be nonempty, unique and at most 64 bytes".to_string());
        }
        if let Err(e) = check_shape(&entry.command) {
            assert(!entry_valid(cmds@, i as int, round, player));
            return Err(e);
        }
        if i as u64 > 0xffff_ffff {
            assert(!entry_valid(cmds@, i as int, round, player));
            return Err("too many draft commands".to_string());
        }
        let command = match resolve_one(cmds, i, round, player) {
            Ok(c) => c,
            Err(e) => {
                assert(!entry_valid(cmds@, i as int, round, player));
                return Err(e);
            },
        };
        assert(local_ok(cmds@, i as int));
        assert(shape_ok(cmds@[i as int].command));
        assert(refs_ok(cmds@, i as int, round, player));
        assert(entry_valid(cmds@, i as int, round, player));
        proof {
            assert forall|j: int, k: int| 0 <= j < k < i + 1 implies #[trigger] cmds@[j].local_id@ != #[trigger] cmds@[k].local_id@ by {
                if k == i {
                    if cmds@[j].local_id@ == cmds@[k].local_id@ {
                        assert(exists|jj: int| 0 <= jj < i && #[trigger] cmds@[jj].local_id@ == cmds@[i as int].local_id@);
                    }
                }
            }
        }
        resolved.push(command);
        i += 1;
    }
    Ok(resolved)
}

} // verus!
