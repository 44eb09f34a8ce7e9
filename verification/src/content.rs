//! Content normalization: the type roster sorted by key with unique, well-formed keys, positive
//! cooldowns, structures that stay put, and production recipes that are sorted sets of unit
//! types; the starting roster must name known types.
use vstd::prelude::*;
use crate::types::{Tick, TypeKey};
use crate::admission::TypeKind;
use crate::text::{chars_of, lemma_seq_lt_irrefl, lemma_seq_lt_total, lemma_seq_lt_trans, seq_lt, seq_lt_exec};
use vstd::string::StringExecFns;

verus! {

broadcast use vstd::string::group_string_axioms;

/// What normalization reads of a content type: its key, kind, the cooldowns of its
/// capabilities, and its production recipes.
#[derive(Debug, Clone, PartialEq, Eq)]
pub struct ContentType {
    pub key: TypeKey,
    pub kind: TypeKind,
    pub movement_cooldown: Option<Tick>,
    pub weapon_cooldown: Option<Tick>,
    pub mining_cooldown: Option<Tick>,
    pub construction_cooldown: Option<Tick>,
    pub recipes: Option<Vec<TypeKey>>,
    pub healing_cooldown: Option<Tick>,
}

pub open spec fn is_key_char(c: char) -> bool {
    ||| 'a' <= c <= 'z'
    ||| '0' <= c <= '9'
    ||| c == '_'
}

/// A type key: 1 to 64 lowercase ASCII letters, digits and underscores.
pub open spec fn key_valid(k: Seq<char>) -> bool {
    &&& 0 < k.len() <= 64
    &&& forall|i: int| 0 <= i < k.len() ==> is_key_char(#[trigger] k[i])
}

/// An absent capability, or one with a positive cooldown.
pub open spec fn cooldown_ok(c: Option<Tick>) -> bool {
    match c {
        Some(v) => v > 0,
        None => true,
    }
}

pub open spec fn unit_key(ts: Seq<ContentType>, k: Seq<char>) -> bool {
    exists|i: int| 0 <= i < ts.len() && (#[trigger] ts[i]).key@ == k && ts[i].kind == TypeKind::Unit
}

pub open spec fn known_key(ts: Seq<ContentType>, k: Seq<char>) -> bool {
    exists|i: int| 0 <= i < ts.len() && (#[trigger] ts[i]).key@ == k
}

/// Recipes: a nonempty set of unit types.
pub open spec fn recipes_valid(ts: Seq<ContentType>, r: Seq<TypeKey>) -> bool {
    &&& r.len() > 0
    &&& forall|i: int| 0 <= i < r.len() ==> unit_key(ts, (#[trigger] r[i])@)
    &&& forall|i: int, j: int| 0 <= i < j < r.len() ==> (#[trigger] r[i])@ != (#[trigger] r[j])@
}

pub open spec fn type_valid(ts: Seq<ContentType>, t: ContentType) -> bool {
    &&& key_valid(t.key@)
    &&& cooldown_ok(t.movement_cooldown)
    &&& cooldown_ok(t.weapon_cooldown)
    &&& cooldown_ok(t.mining_cooldown)
    &&& cooldown_ok(t.construction_cooldown)
    &&& cooldown_ok(t.healing_cooldown)
    &&& !(t.kind == TypeKind::Structure && t.movement_cooldown is Some)
    &&& match t.recipes {
        Some(r) => recipes_valid(ts, r@),
        None => true,
    }
}

/// Content that normalizes: a nonempty roster of distinct, valid types and a nonempty
/// starting roster of known types.
pub open spec fn content_valid(ts: Seq<ContentType>, roster: Seq<TypeKey>) -> bool {
    &&& ts.len() > 0
    &&& forall|i: int, j: int| 0 <= i < j < ts.len() ==> (#[trigger] ts[i]).key@ != (#[trigger] ts[j]).key@
    &&& forall|i: int| 0 <= i < ts.len() ==> type_valid(ts, #[trigger] ts[i])
    &&& roster.len() > 0
    &&& forall|i: int| 0 <= i < roster.len() ==> known_key(ts, (#[trigger] roster[i])@)
}

pub open spec fn strings_sorted(s: Seq<TypeKey>) -> bool {
    forall|i: int, j: int| 0 <= i < j < s.len() ==> seq_lt((#[trigger] s[i])@, (#[trigger] s[j])@)
}

pub open spec fn has_string(s: Seq<TypeKey>, k: Seq<char>) -> bool {
    exists|i: int| 0 <= i < s.len() && (#[trigger] s[i])@ == k
}

/// `o` is `t` with its recipes in increasing order.
pub open spec fn normalized_from(o: ContentType, t: ContentType) -> bool {
    &&& o == (ContentType { recipes: o.recipes, ..t })
    &&& match (t.recipes, o.recipes) {
        (Some(a), Some(b)) => {
            &&& strings_sorted(b@)
            &&& b@.len() == a@.len()
            &&& forall|k: Seq<char>| #[trigger] has_string(b@, k) <==> has_string(a@, k)
        },
        (None, None) => true,
        _ => false,
    }
}

pub open spec fn types_sorted(ts: Seq<ContentType>) -> bool {
    forall|i: int, j: int| 0 <= i < j < ts.len() ==> seq_lt((#[trigger] ts[i]).key@, (#[trigger] ts[j]).key@)
}

fn string_lt(a: &String, b: &String) -> (r: bool)
    ensures
        r == seq_lt(a@, b@),
{
    let x = chars_of(a.as_str());
    let y = chars_of(b.as_str());
    seq_lt_exec(&x, &y)
}

fn key_valid_exec(k: &String) -> (r: bool)
    ensures
        r == key_valid(k@),
{
    let c = chars_of(k.as_str());
    if c.len() == 0 || c.len() > 64 {
        return false;
    }
    let mut i: usize = 0;
    while i < c.len()
        invariant
            0 <= i <= c@.len(),
            c@ == k@,
            forall|j: int| 0 <= j < i ==> is_key_char(#[trigger] c@[j]),
        decreases c.len() - i,
    {
        let ch = c[i];
        if !(('a' <= ch && ch <= 'z') || ('0' <= ch && ch <= '9') || ch == '_') {
            return false;
        }
        i += 1;
    }
    true
}

fn cooldown_ok_exec(c: Option<Tick>) -> (r: bool)
    ensures
        r == cooldown_ok(c),
{
    match c {
        Some(v) => v > 0,
        None => true,
    }
}

// ---- sorting -----------------------------------------------------------------------------------

/// Inserts `t` into a key-sorted roster, unless a type with its key is already there.
fn insert_type(sorted: &mut Vec<ContentType>, t: ContentType) -> (r: bool)
    requires
        types_sorted(old(sorted)@),
    ensures
        r <==> !known_key(old(sorted)@, t.key@),
        !r ==> final(sorted)@ == old(sorted)@,
        r ==> {
            &&& types_sorted(final(sorted)@)
            &&& final(sorted)@.len() == old(sorted)@.len() + 1
            &&& forall|x: ContentType| #[trigger] final(sorted)@.contains(x) <==> (old(sorted)@.contains(x) || x == t)
        },
{
    let mut p: usize = 0;
    while p < sorted.len() && string_lt(&sorted[p].key, &t.key)
        invariant
            0 <= p <= sorted.len(),
            types_sorted(sorted@),
            forall|k: int| 0 <= k < p ==> seq_lt((#[trigger] sorted@[k]).key@, t.key@),
        decreases sorted.len() - p,
    {
        p += 1;
    }
    let ghost before = sorted@;
    if p < sorted.len() && sorted[p].key == t.key {
        assert(before[p as int].key@ == t.key@);
        return false;
    }
    proof {
        assert(!known_key(before, t.key@)) by {
            if known_key(before, t.key@) {
                let i = choose|i: int| 0 <= i < before.len() && (#[trigger] before[i]).key@ == t.key@;
                if i < p {
                    lemma_seq_lt_total(t.key@, t.key@);
                } else {
                    lemma_seq_lt_total(before[p as int].key@, t.key@);
                    if i > p {
                        assert(seq_lt(before[p as int].key@, before[i].key@));
                        lemma_seq_lt_total(before[i].key@, before[p as int].key@);
                    }
                }
            }
        }
        if p < before.len() {
            lemma_seq_lt_total(before[p as int].key@, t.key@);
            assert forall|k: int| p <= k < before.len() implies seq_lt(t.key@, (#[trigger] before[k]).key@) by {
                if k > p {
                    lemma_seq_lt_trans(t.key@, before[p as int].key@, before[k].key@);
                }
            }
        }
    }
    sorted.insert(p, t);
    proof {
        let after = sorted@;
        assert(after == before.insert(p as int, t));
        assert forall|i: int, j: int| 0 <= i < j < after.len() implies seq_lt((#[trigger] after[i]).key@, (#[trigger] after[j]).key@) by {
            if i < p && j > p {
                lemma_seq_lt_trans(before[i].key@, t.key@, before[j - 1].key@);
            }
        }
        assert forall|x: ContentType| #[trigger] after.contains(x) <==> (before.contains(x) || x == t) by {
            if after.contains(x) {
                let k = choose|k: int| 0 <= k < after.len() && after[k] == x;
                if k < p {
                    assert(before[k] == x);
                } else if k > p {
                    assert(before[k - 1] == x);
                }
            }
            if before.contains(x) {
                let k = choose|k: int| 0 <= k < before.len() && before[k] == x;
                if k < p {
                    assert(after[k] == x);
                } else {
                    assert(after[k + 1] == x);
                }
            }
            if x == t {
                assert(after[p as int] == t);
            }
        }
    }
    true
}

/// The types sorted by key, or `None` when two share a key.
#[verifier::loop_isolation(false)]
fn sort_types(types: Vec<ContentType>) -> (r: Option<Vec<ContentType>>)
    ensures
        r is Some <==> forall|i: int, j: int| 0 <= i < j < types@.len() ==> (#[trigger] types@[i]).key@ != (#[trigger] types@[j]).key@,
        r matches Some(out) ==> {
            &&& types_sorted(out@)
            &&& out@.len() == types@.len()
            &&& forall|x: ContentType| #[trigger] out@.contains(x) <==> types@.contains(x)
        },
{
    let ghost all = types@;
    let mut rest = types;
    let mut sorted: Vec<ContentType> = Vec::new();
    let mut k: usize = 0;
    let total = rest.len();
    while rest.len() > 0
        invariant
            k + rest@.len() == all.len(),
            total == all.len(),
            rest@ == all.skip(k as int),
            types_sorted(sorted@),
            sorted@.len() == k,
            forall|x: ContentType| #[trigger] sorted@.contains(x) <==> all.take(k as int).contains(x),
            forall|i: int, j: int| 0 <= i < j < k ==> (#[trigger] all[i]).key@ != (#[trigger] all[j]).key@,
        decreases rest.len(),
    {
        let t = rest.remove(0);
        let ghost pre = all.take(k as int);
        proof {
            assert(t == all[k as int]);
            assert(rest@ =~= all.skip(k + 1));
            assert(all.take(k + 1) == pre.push(t));
        }
        let ghost sorted0 = sorted@;
        if !insert_type(&mut sorted, t) {
            proof {
                let i = choose|i: int| 0 <= i < sorted0.len() && (#[trigger] sorted0[i]).key@ == all[k as int].key@;
                assert(sorted0.contains(sorted0[i]));
                assert(pre.contains(sorted0[i]));
                let j = choose|j: int| 0 <= j < pre.len() && pre[j] == sorted0[i];
                assert(pre[j] == all[j]);
                assert(all[j].key@ == all[k as int].key@ && 0 <= j < k < all.len());
                assert(!(forall|a: int, b: int| 0 <= a < b < all.len() ==> (#[trigger] all[a]).key@ != (#[trigger] all[b]).key@));
            }
            return None;
        }
        proof {
            assert forall|x: ContentType| #[trigger] sorted@.contains(x) <==> all.take(k + 1).contains(x) by {
                if pre.push(t).contains(x) && x != t {
                    let j = choose|j: int| 0 <= j < pre.len() + 1 && #[trigger] pre.push(t)[j] == x;
                    assert(pre[j] == x);
                }
                if pre.contains(x) {
                    let j = choose|j: int| 0 <= j < pre.len() && #[trigger] pre[j] == x;
                    assert(pre.push(t)[j] == x);
                }
                if x == t {
                    assert(pre.push(t)[pre.len() as int] == t);
                }
            }
            assert forall|i: int, j: int| 0 <= i < j < k + 1 implies (#[trigger] all[i]).key@ != (#[trigger] all[j]).key@ by {
                if j == k {
                    if all[i].key@ == t.key@ {
                        assert(pre[i] == all[i]);
                        assert(pre.contains(all[i]));
                        assert(sorted0.contains(all[i]));
                        let m = choose|m: int| 0 <= m < sorted0.len() && sorted0[m] == all[i];
                        assert(known_key(sorted0, t.key@));
                    }
                }
            }
        }
        k += 1;
    }
    proof {
        assert(all.take(k as int) == all);
    }
    Some(sorted)
}

/// Inserts `k` into a sorted string list, unless an equal string is already there.
fn insert_string(sorted: &mut Vec<TypeKey>, k: TypeKey) -> (r: bool)
    requires
        strings_sorted(old(sorted)@),
    ensures
        r <==> !has_string(old(sorted)@, k@),
        !r ==> final(sorted)@ == old(sorted)@,
        r ==> {
            &&& strings_sorted(final(sorted)@)
            &&& final(sorted)@.len() == old(sorted)@.len() + 1
            &&& forall|x: Seq<char>| #[trigger] has_string(final(sorted)@, x) <==> (has_string(old(sorted)@, x) || x == k@)
        },
{
    let mut p: usize = 0;
    while p < sorted.len() && string_lt(&sorted[p], &k)
        invariant
            0 <= p <= sorted.len(),
            strings_sorted(sorted@),
            forall|i: int| 0 <= i < p ==> seq_lt((#[trigger] sorted@[i])@, k@),
        decreases sorted.len() - p,
    {
        p += 1;
    }
    let ghost before = sorted@;
    if p < sorted.len() && sorted[p] == k {
        assert(before[p as int]@ == k@);
        return false;
    }
    proof {
        assert(!has_string(before, k@)) by {
            if has_string(before, k@) {
                let i = choose|i: int| 0 <= i < before.len() && (#[trigger] before[i])@ == k@;
                if i < p {
                    lemma_seq_lt_total(k@, k@);
                } else {
                    lemma_seq_lt_total(before[p as int]@, k@);
                    if i > p {
                        assert(seq_lt(before[p as int]@, before[i]@));
                        lemma_seq_lt_total(before[i]@, before[p as int]@);
                    }
                }
            }
        }
        if p < before.len() {
            lemma_seq_lt_total(before[p as int]@, k@);
            assert forall|j: int| p <= j < before.len() implies seq_lt(k@, (#[trigger] before[j])@) by {
                if j > p {
                    lemma_seq_lt_trans(k@, before[p as int]@, before[j]@);
                }
            }
        }
    }
    let ghost kv = k@;
    sorted.insert(p, k);
    proof {
        let after = sorted@;
        assert(after == before.insert(p as int, after[p as int]));
        assert(after[p as int]@ == kv);
        assert forall|i: int, j: int| 0 <= i < j < after.len() implies seq_lt((#[trigger] after[i])@, (#[trigger] after[j])@) by {
            if i < p && j > p {
                lemma_seq_lt_trans(before[i]@, kv, before[j - 1]@);
            } else if i < p && j < p {
                assert(after[i] == before[i] && after[j] == before[j]);
            } else if i > p {
                assert(after[i] == before[i - 1] && after[j] == before[j - 1]);
            } else if i == p {
                assert(after[j] == before[j - 1]);
            } else {
                assert(after[i] == before[i]);
            }
        }
        assert forall|x: Seq<char>| #[trigger] has_string(after, x) <==> (has_string(before, x) || x == kv) by {
            if has_string(after, x) {
                let m = choose|m: int| 0 <= m < after.len() && (#[trigger] after[m])@ == x;
                if m < p {
                    assert(before[m] == after[m]);
                } else if m > p {
                    assert(before[m - 1] == after[m]);
                }
            }
            if has_string(before, x) {
                let m = choose|m: int| 0 <= m < before.len() && (#[trigger] before[m])@ == x;
                if m < p {
                    assert(after[m] == before[m]);
                } else {
                    assert(after[m + 1] == before[m]);
                }
            }
        }
    }
    true
}

/// The recipes in increasing order, or `None` when one repeats.
#[verifier::loop_isolation(false)]
fn sort_recipes(recipes: Vec<TypeKey>) -> (r: Option<Vec<TypeKey>>)
    ensures
        r is Some <==> forall|i: int, j: int| 0 <= i < j < recipes@.len() ==> (#[trigger] recipes@[i])@ != (#[trigger] recipes@[j])@,
        r matches Some(out) ==> {
            &&& strings_sorted(out@)
            &&& out@.len() == recipes@.len()
            &&& forall|x: Seq<char>| #[trigger] has_string(out@, x) <==> has_string(recipes@, x)
        },
{
    let ghost all = recipes@;
    let mut rest = recipes;
    let mut sorted: Vec<TypeKey> = Vec::new();
    let mut k: usize = 0;
    let total = rest.len();
    while rest.len() > 0
        invariant
            k + rest@.len() == all.len(),
            total == all.len(),
            rest@ == all.skip(k as int),
            strings_sorted(sorted@),
            sorted@.len() == k,
            forall|x: Seq<char>| #[trigger] has_string(sorted@, x) <==> has_string(all.take(k as int), x),
            forall|i: int, j: int| 0 <= i < j < k ==> (#[trigger] all[i])@ != (#[trigger] all[j])@,
        decreases rest.len(),
    {
        let t = rest.remove(0);
        let ghost pre = all.take(k as int);
        let ghost tv = t@;
        proof {
            assert(t == all[k as int]);
            assert(rest@ =~= all.skip(k + 1));
            assert(all.take(k + 1) == pre.push(t));
        }
        let ghost sorted0 = sorted@;
        if !insert_string(&mut sorted, t) {
            proof {
                assert(has_string(pre, tv));
                let j = choose|j: int| 0 <= j < pre.len() && (#[trigger] pre[j])@ == tv;
                assert(pre[j] == all[j]);
                assert(all[j]@ == all[k as int]@ && 0 <= j < k < all.len());
                assert(!(forall|a: int, b: int| 0 <= a < b < all.len() ==> (#[trigger] all[a])@ != (#[trigger] all[b])@));
            }
            return None;
        }
        proof {
            let post = pre.push(all[k as int]);
            assert forall|x: Seq<char>| #[trigger] has_string(sorted@, x) <==> has_string(post, x) by {
                if has_string(post, x) {
                    let j = choose|j: int| 0 <= j < post.len() && (#[trigger] post[j])@ == x;
                    if j < pre.len() {
                        assert(pre[j] == post[j]);
                        assert(has_string(pre, x));
                    }
                }
                if has_string(pre, x) {
                    let j = choose|j: int| 0 <= j < pre.len() && (#[trigger] pre[j])@ == x;
                    assert(post[j] == pre[j]);
                }
                if x == tv {
                    assert(post[pre.len() as int]@ == tv);
                }
            }
            assert forall|i: int, j: int| 0 <= i < j < k + 1 implies (#[trigger] all[i])@ != (#[trigger] all[j])@ by {
                if j == k && all[i]@ == tv {
                    assert(pre[i] == all[i]);
                    assert(has_string(pre, tv));
                }
            }
        }
        k += 1;
    }
    proof {
        assert(all.take(k as int) == all);
    }
    Some(sorted)
}


// ---- per-type checks ---------------------------------------------------------------------------

fn keyed_message(prefix: &str, key: &String, suffix: &str) -> (m: String)
    ensures
        m@ == prefix@ + key@ + suffix@,
{
    let mut m = prefix.to_owned();
    m.append(key.as_str());
    m.append(suffix);
    m
}

/// The keys of the unit types of a roster.
fn unit_keys_of(ts: &Vec<ContentType>) -> (u: Vec<TypeKey>)
    ensures
        forall|k: Seq<char>| #[trigger] has_string(u@, k) <==> unit_key(ts@, k),
{
    let mut u: Vec<TypeKey> = Vec::new();
    let mut i: usize = 0;
    while i < ts.len()
        invariant
            0 <= i <= ts@.len(),
            forall|k: Seq<char>| #[trigger] has_string(u@, k) <==>
                (exists|j: int| 0 <= j < i && (#[trigger] ts@[j]).key@ == k && ts@[j].kind == TypeKind::Unit),
        decreases ts.len() - i,
    {
        if ts[i].kind == TypeKind::Unit {
            let ghost u0 = u@;
            u.push(ts[i].key.clone());
            proof {
                assert forall|k: Seq<char>| #[trigger] has_string(u@, k) <==>
                    (exists|j: int| 0 <= j < i + 1 && (#[trigger] ts@[j]).key@ == k && ts@[j].kind == TypeKind::Unit) by {
                    if has_string(u@, k) {
                        let m = choose|m: int| 0 <= m < u@.len() && (#[trigger] u@[m])@ == k;
                        if m < u0.len() {
                            assert(u0[m] == u@[m]);
                            assert(has_string(u0, k));
                        }
                    }
                    if has_string(u0, k) {
                        let m = choose|m: int| 0 <= m < u0.len() && (#[trigger] u0[m])@ == k;
                        assert(u@[m] == u0[m]);
                    }
                    if ts@[i as int].key@ == k {
                        assert(u@[u0.len() as int]@ == k);
                    }
                }
            }
        } else {
            proof {
                assert forall|k: Seq<char>| #[trigger] has_string(u@, k) <==>
                    (exists|j: int| 0 <= j < i + 1 && (#[trigger] ts@[j]).key@ == k && ts@[j].kind == TypeKind::Unit) by {
                    if exists|j: int| 0 <= j < i + 1 && (#[trigger] ts@[j]).key@ == k && ts@[j].kind == TypeKind::Unit {
                        let j = choose|j: int| 0 <= j < i + 1 && (#[trigger] ts@[j]).key@ == k && ts@[j].kind == TypeKind::Unit;
                        assert(j < i);
                    }
                }
            }
        }
        i += 1;
    }
    u
}

/// Whether recipes are nonempty and name unit types only.
fn recipes_name_units(units: &Vec<TypeKey>, recipes: &Vec<TypeKey>, Ghost(ts): Ghost<Seq<ContentType>>) -> (r: bool)
    requires
        forall|k: Seq<char>| #[trigger] has_string(units@, k) <==> unit_key(ts, k),
    ensures
        r <==> (recipes@.len() > 0 && forall|j: int| 0 <= j < recipes@.len() ==> unit_key(ts, (#[trigger] recipes@[j])@)),
{
    if recipes.len() == 0 {
        return false;
    }
    let mut i: usize = 0;
    while i < recipes.len()
        invariant
            0 <= i <= recipes@.len(),
            forall|k: Seq<char>| #[trigger] has_string(units@, k) <==> unit_key(ts, k),
            forall|j: int| 0 <= j < i ==> unit_key(ts, (#[trigger] recipes@[j])@),
        decreases recipes.len() - i,
    {
        let mut found = false;
        let mut m: usize = 0;
        while m < units.len()
            invariant
                0 <= m <= units@.len(),
                i < recipes@.len(),
                found <==> exists|q: int| 0 <= q < m && (#[trigger] units@[q])@ == recipes@[i as int]@,
            decreases units.len() - m,
        {
            if units[m] == recipes[i] {
                found = true;
            }
            m += 1;
        }
        if !found {
            proof {
                assert(!has_string(units@, recipes@[i as int]@));
            }
            return false;
        }
        proof {
            assert(has_string(units@, recipes@[i as int]@));
        }
        i += 1;
    }
    true
}

/// One type checked and normalized against the roster's unit keys.
fn normalize_type(units: &Vec<TypeKey>, t: ContentType, Ghost(ts): Ghost<Seq<ContentType>>) -> (r: Result<ContentType, String>)
    requires
        forall|k: Seq<char>| #[trigger] has_string(units@, k) <==> unit_key(ts, k),
    ensures
        r is Ok <==> type_valid(ts, t),
        r matches Ok(o) ==> normalized_from(o, t),
{
    if !key_valid_exec(&t.key) {
        return Err(keyed_message("invalid type key ", &t.key, ""));
    }
    if !cooldown_ok_exec(t.movement_cooldown) {
        return Err("cooldown must be positive".to_string());
    }
    if t.kind == TypeKind::Structure && t.movement_cooldown.is_some() {
        return Err(keyed_message("structure ", &t.key, " cannot move"));
    }
    if !cooldown_ok_exec(t.weapon_cooldown) || !cooldown_ok_exec(t.mining_cooldown)
        || !cooldown_ok_exec(t.construction_cooldown) {
        return Err("cooldown must be positive".to_string());
    }
    let ContentType {
        key, kind, movement_cooldown, weapon_cooldown, mining_cooldown, construction_cooldown, recipes,
        healing_cooldown,
    } = t;
    let sorted = match recipes {
        Some(r) => {
            if !recipes_name_units(units, &r, Ghost(ts)) {
                return Err(keyed_message("", &key, " has empty or non-unit production recipes"));
            }
            match sort_recipes(r) {
                Some(out) => Some(out),
                None => {
                    return Err("duplicate recipe".to_string());
                },
            }
        },
        None => None,
    };
    if !cooldown_ok_exec(healing_cooldown) {
        return Err("cooldown must be positive".to_string());
    }
    Ok(ContentType {
        key, kind, movement_cooldown, weapon_cooldown, mining_cooldown, construction_cooldown,
        recipes: sorted, healing_cooldown,
    })
}

// ---- the whole content ------------------------------------------------------------------------

/// Content: its schema version, its type roster and the starting roster.
#[derive(Debug, Clone, PartialEq, Eq)]
pub struct Content {
    pub schema_version: u32,
    pub types: Vec<ContentType>,
    pub starting_roster: Vec<TypeKey>,
}

/// Every type of `a` normalizes to one of `b`, and every type of `b` comes from one of `a`.
pub open spec fn normalizes_to(a: Seq<ContentType>, b: Seq<ContentType>) -> bool {
    &&& a.len() == b.len()
    &&& forall|j: int| 0 <= j < a.len() ==> normalized_in(b, #[trigger] a[j])
    &&& forall|i: int| 0 <= i < b.len() ==> comes_from(a, #[trigger] b[i])
}

pub open spec fn normalized_in(b: Seq<ContentType>, t: ContentType) -> bool {
    exists|i: int| 0 <= i < b.len() && normalized_from(#[trigger] b[i], t)
}

pub open spec fn comes_from(a: Seq<ContentType>, o: ContentType) -> bool {
    exists|j: int| 0 <= j < a.len() && normalized_from(o, #[trigger] a[j])
}

proof fn lemma_same_members(a: Seq<ContentType>, b: Seq<ContentType>)
    requires
        forall|x: ContentType| #[trigger] a.contains(x) <==> b.contains(x),
    ensures
        forall|k: Seq<char>| #[trigger] unit_key(a, k) <==> unit_key(b, k),
        forall|k: Seq<char>| #[trigger] known_key(a, k) <==> known_key(b, k),
        forall|t: ContentType| #[trigger] type_valid(a, t) <==> type_valid(b, t),
{
    assert forall|k: Seq<char>| #[trigger] unit_key(a, k) <==> unit_key(b, k) by {
        if unit_key(a, k) {
            let i = choose|i: int| 0 <= i < a.len() && (#[trigger] a[i]).key@ == k && a[i].kind == TypeKind::Unit;
            assert(a.contains(a[i]));
            let j = choose|j: int| 0 <= j < b.len() && b[j] == a[i];
            assert(b[j].key@ == k);
        }
        if unit_key(b, k) {
            let i = choose|i: int| 0 <= i < b.len() && (#[trigger] b[i]).key@ == k && b[i].kind == TypeKind::Unit;
            assert(b.contains(b[i]));
            assert(a.contains(b[i]));
            let j = choose|j: int| 0 <= j < a.len() && a[j] == b[i];
            assert(a[j].key@ == k);
        }
    }
    assert forall|k: Seq<char>| #[trigger] known_key(a, k) <==> known_key(b, k) by {
        if known_key(a, k) {
            let i = choose|i: int| 0 <= i < a.len() && (#[trigger] a[i]).key@ == k;
            assert(a.contains(a[i]));
            let j = choose|j: int| 0 <= j < b.len() && b[j] == a[i];
            assert(b[j].key@ == k);
        }
        if known_key(b, k) {
            let i = choose|i: int| 0 <= i < b.len() && (#[trigger] b[i]).key@ == k;
            assert(b.contains(b[i]));
            assert(a.contains(b[i]));
            let j = choose|j: int| 0 <= j < a.len() && a[j] == b[i];
            assert(a[j].key@ == k);
        }
    }
    assert forall|t: ContentType| #[trigger] type_valid(a, t) <==> type_valid(b, t) by {
        if let Some(r) = t.recipes {
            assert(recipes_valid(a, r@) <==> recipes_valid(b, r@));
        }
    }
}

/// Whether a type with key `k` is in the roster.
fn known_key_exec(ts: &Vec<ContentType>, k: &String) -> (r: bool)
    ensures
        r == known_key(ts@, k@),
{
    let mut i: usize = 0;
    while i < ts.len()
        invariant
            0 <= i <= ts@.len(),
            forall|j: int| 0 <= j < i ==> (#[trigger] ts@[j]).key@ != k@,
        decreases ts.len() - i,
    {
        if ts[i].key == *k {
            return true;
        }
        i += 1;
    }
    false
}

/// Normalizes content: the roster sorted by key, each type's recipes sorted. Fails when the roster
/// is empty, two types share a key, a type has a malformed key, a zero cooldown, a structure can
/// move, production recipes are empty, name anything but units or repeat, or the starting roster
/// is empty or names an unknown type.
#[verifier::loop_isolation(false)]
pub fn normalize_content(content: Content) -> (r: Result<Content, String>)
    ensures
        r is Ok <==> content_valid(content.types@, content.starting_roster@),
        r matches Ok(out) ==> {
            &&& out.schema_version == content.schema_version
            &&& out.starting_roster@ == content.starting_roster@
            &&& types_sorted(out.types@)
            &&& normalizes_to(content.types@, out.types@)
        },
{
    let ghost input = content.types@;
    let ghost roster = content.starting_roster@;
    let Content { schema_version, types, starting_roster } = content;
    assert(types@ == input && starting_roster@ == roster);
    if types.len() == 0 {
        return Err("content roster is empty".to_string());
    }
    let sorted = match sort_types(types) {
        Some(s) => s,
        None => {
            return Err("duplicate content key".to_string());
        },
    };
    let ghost srt = sorted@;
    proof {
        lemma_same_members(srt, input);
    }
    let units = unit_keys_of(&sorted);
    let mut rest = sorted;
    let mut out: Vec<ContentType> = Vec::new();
    let mut k: usize = 0;
    while rest.len() > 0
        invariant
            k + rest@.len() == srt.len(),
            srt.len() <= usize::MAX,
            rest@ == srt.skip(k as int),
            out@.len() == k,
            forall|q: int| 0 <= q < k ==> normalized_from(#[trigger] out@[q], srt[q]),
            forall|q: int| 0 <= q < k ==> type_valid(input, #[trigger] srt[q]),
            forall|x: Seq<char>| #[trigger] has_string(units@, x) <==> unit_key(srt, x),
            forall|x: Seq<char>| #[trigger] unit_key(srt, x) <==> unit_key(input, x),
            forall|t: ContentType| #[trigger] type_valid(srt, t) <==> type_valid(input, t),
            forall|x: ContentType| #[trigger] srt.contains(x) <==> input.contains(x),
        decreases rest.len(),
    {
        let t = rest.remove(0);
        proof {
            assert(t == srt[k as int]);
            assert(rest@ =~= srt.skip(k + 1));
        }
        match normalize_type(&units, t, Ghost(input)) {
            Ok(o) => {
                out.push(o);
            },
            Err(e) => {
                proof {
                    assert(srt.contains(srt[k as int]));
                    assert(input.contains(srt[k as int]));
                    let j = choose|j: int| 0 <= j < input.len() && input[j] == srt[k as int];
                    assert(!type_valid(input, input[j]));
                    assert(!content_valid(input, roster));
                }
                return Err(e);
            },
        }
        k += 1;
    }
    proof {
        assert forall|j: int| 0 <= j < input.len() implies type_valid(input, #[trigger] input[j]) by {
            assert(input.contains(input[j]));
            assert(srt.contains(input[j]));
            let i = choose|i: int| 0 <= i < srt.len() && srt[i] == input[j];
        }
    }
    if starting_roster.len() == 0 {
        return Err("starting roster references missing content".to_string());
    }
    let mut i: usize = 0;
    while i < starting_roster.len()
        invariant
            0 <= i <= starting_roster@.len(),
            out@.len() == srt.len(),
            forall|q: int| 0 <= q < srt.len() ==> normalized_from(#[trigger] out@[q], srt[q]),
            forall|x: Seq<char>| #[trigger] known_key(srt, x) <==> known_key(input, x),
            forall|q: int| 0 <= q < i ==> known_key(input, (#[trigger] starting_roster@[q])@),
        decreases starting_roster.len() - i,
    {
        let known = known_key_exec(&out, &starting_roster[i]);
        proof {
            let kk = starting_roster@[i as int]@;
            if known_key(out@, kk) {
                let q = choose|q: int| 0 <= q < out@.len() && (#[trigger] out@[q]).key@ == kk;
                assert(normalized_from(out@[q], srt[q]));
                assert(srt[q].key@ == kk);
                assert(known_key(srt, kk));
            }
            if known_key(srt, kk) {
                let q = choose|q: int| 0 <= q < srt.len() && (#[trigger] srt[q]).key@ == kk;
                assert(normalized_from(out@[q], srt[q]));
                assert(out@[q].key@ == kk);
            }
        }
        if !known {
            assert(!known_key(input, starting_roster@[i as int]@));
            assert(!content_valid(input, roster));
            return Err("starting roster references missing content".to_string());
        }
        i += 1;
    }
    proof {
        assert forall|a: int, b: int| 0 <= a < b < out@.len() implies seq_lt((#[trigger] out@[a]).key@, (#[trigger] out@[b]).key@) by {
            assert(normalized_from(out@[a], srt[a]));
            assert(normalized_from(out@[b], srt[b]));
        }
        assert forall|j: int| 0 <= j < input.len() implies normalized_in(out@, #[trigger] input[j]) by {
            assert(input.contains(input[j]));
            assert(srt.contains(input[j]));
            let i = choose|i: int| 0 <= i < srt.len() && srt[i] == input[j];
            assert(normalized_from(out@[i], srt[i]));
        }
        assert forall|i: int| 0 <= i < out@.len() implies comes_from(input, #[trigger] out@[i]) by {
            assert(srt.contains(srt[i]));
            let j = choose|j: int| 0 <= j < input.len() && input[j] == srt[i];
            assert(normalized_from(out@[i], srt[i]));
        }
    }
    Ok(Content { schema_version, types: out, starting_roster })
}

// ---- lookup ------------------------------------------------------------------------------------

/// The position of the type with key `key` in a key-sorted roster, by binary search.
pub fn type_index(types: &Vec<ContentType>, key: &str) -> (r: Result<usize, String>)
    requires
        types_sorted(types@),
    ensures
        r is Ok <==> known_key(types@, key@),
        r matches Ok(i) ==> i < types@.len() && types@[i as int].key@ == key@,
{
    let k = chars_of(key);
    let mut lo: usize = 0;
    let mut hi: usize = types.len();
    while lo < hi
        invariant
            0 <= lo <= hi <= types@.len(),
            k@ == key@,
            types_sorted(types@),
            forall|j: int| 0 <= j < lo ==> seq_lt((#[trigger] types@[j]).key@, key@),
            forall|j: int| hi <= j < types@.len() ==> seq_lt(key@, (#[trigger] types@[j]).key@),
        decreases hi - lo,
    {
        let mid = lo + (hi - lo) / 2;
        let here = chars_of(types[mid].key.as_str());
        if seq_lt_exec(&here, &k) {
            proof {
                assert forall|j: int| 0 <= j < mid + 1 implies seq_lt((#[trigger] types@[j]).key@, key@) by {
                    if j < mid {
                        lemma_seq_lt_trans(types@[j].key@, types@[mid as int].key@, key@);
                    }
                }
            }
            lo = mid + 1;
        } else if seq_lt_exec(&k, &here) {
            proof {
                assert forall|j: int| mid <= j < types@.len() implies seq_lt(key@, (#[trigger] types@[j]).key@) by {
                    if j > mid {
                        lemma_seq_lt_trans(key@, types@[mid as int].key@, types@[j].key@);
                    }
                }
            }
            hi = mid;
        } else {
            proof {
                lemma_seq_lt_total(types@[mid as int].key@, key@);
            }
            return Ok(mid);
        }
    }
    proof {
        if known_key(types@, key@) {
            let j = choose|j: int| 0 <= j < types@.len() && (#[trigger] types@[j]).key@ == key@;
            lemma_seq_lt_irrefl(key@);
        }
    }
    let mut msg = "unknown type ".to_string();
    msg.append(key);
    Err(msg)
}

} // verus!
