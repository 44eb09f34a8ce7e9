//! Fixed-size causal identities, turn precedence and the SHA-256 digest of canonical bytes.
use vstd::prelude::*;
use crate::types::{BirthCommandId, BlueprintId, CommandId, EntityId, PlayerId, QueueItemId};
use crate::text::string_push;
use sha2::Digest;

verus! {

/// Identity of the `index`-th command of `player`'s turn in `round`.
pub fn command_id(round: u32, player: PlayerId, index: u32) -> (c: CommandId)
    ensures
        c == (CommandId { round, player, index }),
{
    CommandId { round, player, index }
}

pub open spec fn spec_blueprint(command: CommandId, tile_index: u32) -> BlueprintId {
    EntityId {
        birth_command: BirthCommandId { command, target_index: 0 },
        item_index: tile_index as u16,
        occurrence: 0,
    }
}

/// Identity of the blueprint placed at the `tile_index`-th tile of `command`; the index must fit 16 bits.
pub fn blueprint(command: &CommandId, tile_index: u32) -> (r: Result<BlueprintId, String>)
    ensures
        r is Ok <==> tile_index <= u16::MAX,
        r matches Ok(b) ==> b == spec_blueprint(*command, tile_index),
{
    if tile_index > 0xffff {
        return Err("blueprint index exceeds u16".to_string());
    }
    Ok(EntityId {
        birth_command: BirthCommandId { command: *command, target_index: 0 },
        item_index: tile_index as u16,
        occurrence: 0,
    })
}

/// Identity of the `slot`-th starting entity of `player`: a blueprint of round zero's command.
pub fn genesis(player: PlayerId, slot: u32) -> (r: Result<EntityId, String>)
    ensures
        r is Ok <==> slot <= u16::MAX,
        r matches Ok(e) ==> e == spec_blueprint(CommandId { round: 0, player, index: 0 }, slot),
{
    blueprint(&command_id(0, player, 0), slot)
}

/// A completed structure keeps the identity of its blueprint.
pub fn structure(blueprint: &BlueprintId) -> (e: EntityId)
    ensures
        e == *blueprint,
{
    *blueprint
}

pub open spec fn spec_queue_item(command: CommandId, target_index: u32, item_index: u32) -> QueueItemId {
    QueueItemId {
        birth_command: BirthCommandId { command, target_index: target_index as u16 },
        item_index: item_index as u16,
    }
}

/// Identity of the `item_index`-th queued item of `command` on its `target_index`-th factory.
/// Round zero is reserved for genesis; both indices must fit 16 bits.
pub fn queue_item(command: &CommandId, target_index: u32, item_index: u32) -> (r: Result<QueueItemId, String>)
    ensures
        r is Ok <==> command.round != 0 && target_index <= u16::MAX && item_index <= u16::MAX,
        r matches Ok(q) ==> q == spec_queue_item(*command, target_index, item_index),
{
    if command.round == 0 {
        return Err("round zero is reserved for genesis".to_string());
    }
    if target_index > 0xffff {
        return Err("target index exceeds u16".to_string());
    }
    if item_index > 0xffff {
        return Err("item index exceeds u16".to_string());
    }
    Ok(QueueItemId {
        birth_command: BirthCommandId { command: *command, target_index: target_index as u16 },
        item_index: item_index as u16,
    })
}

/// Identity of the `occurrence`-th unit produced from a queue item.
pub fn production(item: &QueueItemId, occurrence: u32) -> (e: EntityId)
    ensures
        e == (EntityId { birth_command: item.birth_command, item_index: item.item_index, occurrence }),
{
    EntityId { birth_command: item.birth_command, item_index: item.item_index, occurrence }
}

/// Law: produced identities determine their queue item and occurrence.
pub proof fn law_production_injective(a: QueueItemId, oa: u32, b: QueueItemId, ob: u32)
    requires
        (EntityId { birth_command: a.birth_command, item_index: a.item_index, occurrence: oa })
            == (EntityId { birth_command: b.birth_command, item_index: b.item_index, occurrence: ob }),
    ensures
        a == b,
        oa == ob,
{
}

/// Law: distinct in-range (command, target, item) triples give distinct queue items,
/// and distinct in-range (command, tile) pairs give distinct blueprints.
pub proof fn law_identities_injective(
    c1: CommandId, t1: u32, i1: u32,
    c2: CommandId, t2: u32, i2: u32,
)
    requires
        t1 <= u16::MAX && i1 <= u16::MAX && t2 <= u16::MAX && i2 <= u16::MAX,
    ensures
        spec_queue_item(c1, t1, i1) == spec_queue_item(c2, t2, i2) ==> c1 == c2 && t1 == t2 && i1 == i2,
        spec_blueprint(c1, i1) == spec_blueprint(c2, i2) ==> c1 == c2 && i1 == i2,
{
}

/// Order in which the players of a round apply their turns.
#[derive(Debug, Clone, PartialEq, Eq)]
pub struct RoundPrecedence {
    pub round: u32,
    pub players: Vec<PlayerId>,
}

pub open spec fn precedence_player(round: u32, player_count: u8, p: int) -> int {
    (p + (round as int) % (player_count as int)) % (player_count as int)
}

/// Player precedence of a round: the player list rotated by the round number.
/// It is fixed per round so arrival timing never chooses precedence.
pub fn round_precedence(round: u32, player_count: u8) -> (r: Result<RoundPrecedence, String>)
    ensures
        r is Ok <==> player_count >= 2,
        r matches Ok(rp) ==> {
            &&& rp.round == round
            &&& rp.players@.len() == player_count
            &&& forall|p: int| 0 <= p < player_count ==> #[trigger] rp.players@[p] == precedence_player(round, player_count, p)
        },
{
    if player_count < 2 {
        return Err("at least two players required".to_string());
    }
    let n = player_count as u32;
    let offset = round % n;
    let mut players: Vec<PlayerId> = Vec::new();
    let mut p: u8 = 0;
    while p < player_count
        invariant
            p <= player_count,
            n == player_count,
            offset == (round as int) % (player_count as int),
            player_count >= 2,
            players@.len() == p,
            forall|q: int| 0 <= q < p ==> #[trigger] players@[q] == precedence_player(round, player_count, q),
        decreases player_count - p,
    {
        let v = (p as u32 + offset) % n;
        players.push(v as u8);
        p += 1;
    }
    Ok(RoundPrecedence { round, players })
}

/// Law: each round's precedence lists every player exactly once.
pub proof fn law_precedence_is_permutation(round: u32, player_count: u8, p: int, q: int)
    requires
        player_count >= 2,
        0 <= p < player_count,
        0 <= q < player_count,
    ensures
        0 <= precedence_player(round, player_count, p) < player_count,
        precedence_player(round, player_count, p) == precedence_player(round, player_count, q) ==> p == q,
{
    let n = player_count as int;
    let off = (round as int) % n;
    assert(0 <= off < n) by (nonlinear_arith) requires n >= 2, off == (round as int) % n;
    let a = p + off;
    let b = q + off;
    assert(0 <= a % n < n) by (nonlinear_arith) requires n >= 2;
    assert(a % n == b % n ==> a == b) by (nonlinear_arith)
        requires n >= 2, 0 <= a < 2 * n, 0 <= b < 2 * n, a == p + off, b == q + off, 0 <= p < n, 0 <= q < n, 0 <= off < n;
}

/// SHA-256 of a byte string, as the 32 digest bytes.
pub uninterp spec fn spec_sha256(bytes: Seq<u8>) -> Seq<u8>;

/// `sha2::Sha256::digest`: the 32-byte digest of `bytes`.
#[verifier::external_body]
fn sha256_digest(bytes: &[u8]) -> (r: Vec<u8>)
    ensures
        r@ == spec_sha256(bytes@),
        r@.len() == 32,
{
    <sha2::Sha256 as Digest>::digest(bytes).to_vec()
}

pub open spec fn hex_digit(n: int) -> char {
    if n < 10 { (48 + n) as char } else { (87 + n) as char }
}

/// Lower-case hexadecimal, two digits per byte, high nibble first.
pub open spec fn lower_hex(bytes: Seq<u8>) -> Seq<char>
    decreases bytes.len(),
{
    if bytes.len() == 0 {
        Seq::empty()
    } else {
        lower_hex(bytes.drop_last()).push(hex_digit(bytes.last() as int / 16)).push(hex_digit(bytes.last() as int % 16))
    }
}

fn hex_digit_exec(n: u8) -> (c: char)
    requires
        n < 16,
    ensures
        c == hex_digit(n as int),
{
    if n < 10 { (48 + n) as char } else { (87 + n) as char }
}

/// Lower-case hex SHA-256 of `bytes`.
pub fn sha256(bytes: &[u8]) -> (r: String)
    ensures
        r@ == lower_hex(spec_sha256(bytes@)),
        r@.len() == 64,
{
    let digest = sha256_digest(bytes);
    let mut out = String::new();
    let mut i: usize = 0;
    while i < digest.len()
        invariant
            0 <= i <= digest.len(),
            out@ == lower_hex(digest@.subrange(0, i as int)),
            out@.len() == 2 * i,
        decreases digest.len() - i,
    {
        let b = digest[i];
        string_push(&mut out, hex_digit_exec(b / 16));
        string_push(&mut out, hex_digit_exec(b % 16));
        assert(digest@.subrange(0, i + 1).drop_last() == digest@.subrange(0, i as int));
        i += 1;
    }
    assert(digest@.subrange(0, digest@.len() as int) == digest@);
    out
}

} // verus!
