use vstd::prelude::*;
use vstd::string::StrSliceExecFns;

use crate::models::{Attacker, Killmail, Victim, Zkb};

verus! {

/// A decoded payload tree, as the transport layer hands it over: numbers
/// arrive as integers (the transport rounds fractional amounts), objects as
/// key-value lists in payload order.
pub enum JsonVal {
    Null,
    Bool(bool),
    Int(i64),
    Str(String),
    Arr(Vec<JsonVal>),
    Obj(Vec<(String, JsonVal)>),
}

/// The value the first field named `key` holds, if any.
pub open spec fn spec_lookup(fields: Seq<(String, JsonVal)>, key: Seq<char>) -> Option<JsonVal>
    decreases fields.len(),
{
    if fields.len() == 0 {
        None
    } else if fields[0].0@ == key {
        Some(fields[0].1)
    } else {
        spec_lookup(fields.drop_first(), key)
    }
}

/// Required-field tolerance: a numeric identifier field that is absent or
/// not a number reads as zero, never as a decoding failure.
pub open spec fn spec_get_i64(fields: Seq<(String, JsonVal)>, key: Seq<char>) -> i64 {
    match spec_lookup(fields, key) {
        Some(JsonVal::Int(n)) => n,
        _ => 0,
    }
}

/// A monetary amount: a nonnegative number, anything else reads as zero.
pub open spec fn spec_get_u64(fields: Seq<(String, JsonVal)>, key: Seq<char>) -> u64 {
    match spec_lookup(fields, key) {
        Some(JsonVal::Int(n)) => if n >= 0 {
            n as u64
        } else {
            0
        },
        _ => 0,
    }
}

pub open spec fn spec_get_bool(fields: Seq<(String, JsonVal)>, key: Seq<char>) -> bool {
    match spec_lookup(fields, key) {
        Some(JsonVal::Bool(b)) => b,
        _ => false,
    }
}

pub open spec fn spec_get_str(fields: Seq<(String, JsonVal)>, key: Seq<char>) -> Seq<char> {
    match spec_lookup(fields, key) {
        Some(JsonVal::Str(s)) => s@,
        _ => Seq::empty(),
    }
}

/// An alliance identifier: absent, non-numeric or zero all mean the party
/// is in no alliance.
pub open spec fn spec_get_alliance(fields: Seq<(String, JsonVal)>) -> Option<i64> {
    match spec_lookup(fields, "alliance_id"@) {
        Some(JsonVal::Int(n)) => if n != 0 {
            Some(n)
        } else {
            None
        },
        _ => None,
    }
}

/// The attacker an object's fields describe, every numeric field defaulted.
pub open spec fn spec_decode_attacker(fields: Seq<(String, JsonVal)>) -> Attacker {
    Attacker {
        character_id: spec_get_i64(fields, "character_id"@),
        corporation_id: spec_get_i64(fields, "corporation_id"@),
        alliance_id: spec_get_alliance(fields),
        ship_type_id: spec_get_i64(fields, "ship_type_id"@),
        weapon_type_id: spec_get_i64(fields, "weapon_type_id"@),
        final_blow: spec_get_bool(fields, "final_blow"@),
    }
}

/// The victim an object's fields describe, every numeric field defaulted.
pub open spec fn spec_decode_victim(fields: Seq<(String, JsonVal)>) -> Victim {
    Victim {
        character_id: spec_get_i64(fields, "character_id"@),
        corporation_id: spec_get_i64(fields, "corporation_id"@),
        alliance_id: spec_get_alliance(fields),
        ship_type_id: spec_get_i64(fields, "ship_type_id"@),
    }
}

/// Structural requirements on an event payload: an object whose `victim`
/// field is an object and whose `attackers` field is a list of objects.
/// Everything else is defaulted, never required.
pub open spec fn spec_killmail_ok(v: JsonVal) -> bool {
    &&& v is Obj
    &&& spec_lookup(v->Obj_0@, "victim"@) matches Some(w) && w is Obj
    &&& spec_lookup(v->Obj_0@, "attackers"@) matches Some(a) && a is Arr && (forall|i: int|
        0 <= i < a->Arr_0@.len() ==> (#[trigger] a->Arr_0@[i]) is Obj)
}

proof fn lemma_lookup_found(fields: Seq<(String, JsonVal)>, key: Seq<char>, i: int)
    requires
        0 <= i < fields.len(),
        fields[i].0@ == key,
        forall|j: int| 0 <= j < i ==> (#[trigger] fields[j]).0@ != key,
    ensures
        spec_lookup(fields, key) == Some(fields[i].1),
    decreases fields.len(),
{
    if i > 0 {
        assert(fields[0].0@ != key);
        assert(fields.drop_first()[i - 1] == fields[i]);
        assert(forall|j: int|
            0 <= j < i - 1 ==> (#[trigger] fields.drop_first()[j]) == fields[j + 1]);
        lemma_lookup_found(fields.drop_first(), key, i - 1);
    }
}

proof fn lemma_lookup_absent(fields: Seq<(String, JsonVal)>, key: Seq<char>)
    requires
        forall|j: int| 0 <= j < fields.len() ==> (#[trigger] fields[j]).0@ != key,
    ensures
        spec_lookup(fields, key) is None,
    decreases fields.len(),
{
    if fields.len() > 0 {
        assert(forall|j: int|
            0 <= j < fields.drop_first().len() ==> (#[trigger] fields.drop_first()[j]) == fields[j
                + 1]);
        lemma_lookup_absent(fields.drop_first(), key);
    }
}

fn str_eq(a: &str, b: &str) -> (r: bool)
    ensures
        r == (a@ == b@),
{
    let na = a.unicode_len();
    let nb = b.unicode_len();
    if na != nb {
        return false;
    }
    let mut i: usize = 0;
    while i < na
        invariant
            na == a@.len(),
            nb == b@.len(),
            na == nb,
            i <= na,
            forall|j: int| 0 <= j < i ==> a@[j] == b@[j],
        decreases na - i,
    {
        let ca = a.get_char(i);
        let cb = b.get_char(i);
        if ca != cb {
            proof {
                assert(a@[i as int] != b@[i as int]);
            }
            return false;
        }
        i = i + 1;
    }
    proof {
        assert(a@ =~= b@);
    }
    true
}

fn lookup<'a>(fields: &'a Vec<(String, JsonVal)>, key: &str) -> (r: Option<&'a JsonVal>)
    ensures
        match r {
            Some(v) => spec_lookup(fields@, key@) == Some(*v),
            None => spec_lookup(fields@, key@) is None,
        },
{
    let mut i: usize = 0;
    while i < fields.len()
        invariant
            i <= fields@.len(),
            forall|j: int| 0 <= j < i ==> (#[trigger] fields@[j]).0@ != key@,
        decreases fields@.len() - i,
    {
        if str_eq(fields[i].0.as_str(), key) {
            proof {
                lemma_lookup_found(fields@, key@, i as int);
            }
            return Some(&fields[i].1);
        }
        i = i + 1;
    }
    proof {
        lemma_lookup_absent(fields@, key@);
    }
    None
}

fn get_i64(fields: &Vec<(String, JsonVal)>, key: &str) -> (r: i64)
    ensures
        r == spec_get_i64(fields@, key@),
{
    match lookup(fields, key) {
        Some(JsonVal::Int(n)) => *n,
        _ => 0,
    }
}

fn get_u64(fields: &Vec<(String, JsonVal)>, key: &str) -> (r: u64)
    ensures
        r == spec_get_u64(fields@, key@),
{
    match lookup(fields, key) {
        Some(JsonVal::Int(n)) => if *n >= 0 {
            *n as u64
        } else {
            0
        },
        _ => 0,
    }
}

fn get_bool(fields: &Vec<(String, JsonVal)>, key: &str) -> (r: bool)
    ensures
        r == spec_get_bool(fields@, key@),
{
    match lookup(fields, key) {
        Some(JsonVal::Bool(b)) => *b,
        _ => false,
    }
}

fn get_string(fields: &Vec<(String, JsonVal)>, key: &str) -> (r: String)
    ensures
        r@ == spec_get_str(fields@, key@),
{
    match lookup(fields, key) {
        Some(JsonVal::Str(s)) => s.clone(),
        _ => String::new(),
    }
}

fn get_alliance(fields: &Vec<(String, JsonVal)>) -> (r: Option<i64>)
    ensures
        r == spec_get_alliance(fields@),
{
    match lookup(fields, "alliance_id") {
        Some(JsonVal::Int(n)) => if *n != 0 {
            Some(*n)
        } else {
            None
        },
        _ => None,
    }
}

fn decode_attacker_fields(fields: &Vec<(String, JsonVal)>) -> (r: Attacker)
    ensures
        r == spec_decode_attacker(fields@),
{
    Attacker {
        character_id: get_i64(fields, "character_id"),
        corporation_id: get_i64(fields, "corporation_id"),
        alliance_id: get_alliance(fields),
        ship_type_id: get_i64(fields, "ship_type_id"),
        weapon_type_id: get_i64(fields, "weapon_type_id"),
        final_blow: get_bool(fields, "final_blow"),
    }
}

/// How a decoded event relates to the payload it came from, field by field.
pub open spec fn killmail_matches(km: Killmail, v: JsonVal) -> bool {
    let fields = v->Obj_0@;
    &&& km.killmail_id == spec_get_i64(fields, "killmail_id"@)
    &&& km.killmail_time@ == spec_get_str(fields, "killmail_time"@)
    &&& km.solar_system_id == spec_get_i64(fields, "solar_system_id"@)
    &&& km.victim == spec_decode_victim(spec_lookup(fields, "victim"@)->Some_0->Obj_0@)
    &&& km.attackers@.len() == spec_lookup(fields, "attackers"@)->Some_0->Arr_0@.len()
    &&& forall|i: int|
        0 <= i < km.attackers@.len() ==> km.attackers@[i] == spec_decode_attacker(
            (#[trigger] spec_lookup(fields, "attackers"@)->Some_0->Arr_0@[i])->Obj_0@,
        )
}

/// How decoded economic metadata relates to the payload it came from.
pub open spec fn zkb_matches(z: Zkb, v: JsonVal) -> bool {
    let fields = v->Obj_0@;
    &&& z.location_id == spec_get_i64(fields, "locationID"@)
    &&& z.hash@ == spec_get_str(fields, "hash"@)
    &&& z.fitted_value == spec_get_u64(fields, "fittedValue"@)
    &&& z.dropped_value == spec_get_u64(fields, "droppedValue"@)
    &&& z.destroyed_value == spec_get_u64(fields, "destroyedValue"@)
    &&& z.total_value == spec_get_u64(fields, "totalValue"@)
    &&& z.points == spec_get_u64(fields, "points"@)
    &&& z.npc == spec_get_bool(fields, "npc"@)
    &&& z.solo == spec_get_bool(fields, "solo"@)
    &&& z.awox == spec_get_bool(fields, "awox"@)
}

/// Decodes one event payload. Numeric identifier fields that are absent
/// upstream default to zero; only the structural shape — an object with an
/// object `victim` and a list-of-objects `attackers` — is required, and a
/// payload that lacks it yields nothing.
pub fn decode_killmail(v: &JsonVal) -> (r: Option<Killmail>)
    ensures
        r is Some <==> spec_killmail_ok(*v),
        r matches Some(km) ==> killmail_matches(km, *v),
{
    let fields = match v {
        JsonVal::Obj(fields) => fields,
        _ => {
            return None;
        },
    };
    let victim = match lookup(fields, "victim") {
        Some(w) => match w {
            JsonVal::Obj(vf) => Victim {
                character_id: get_i64(vf, "character_id"),
                corporation_id: get_i64(vf, "corporation_id"),
                alliance_id: get_alliance(vf),
                ship_type_id: get_i64(vf, "ship_type_id"),
            },
            _ => {
                proof {
                    assert(!(spec_lookup(fields@, "victim"@)->Some_0 is Obj));
                }
                return None;
            },
        },
        None => {
            return None;
        },
    };
    let items = match lookup(fields, "attackers") {
        Some(a) => match a {
            JsonVal::Arr(items) => items,
            _ => {
                proof {
                    assert(!(spec_lookup(fields@, "attackers"@)->Some_0 is Arr));
                }
                return None;
            },
        },
        None => {
            return None;
        },
    };
    let mut attackers: Vec<Attacker> = Vec::new();
    let mut i: usize = 0;
    while i < items.len()
        invariant
            i <= items@.len(),
            attackers@.len() == i,
            *v is Obj,
            v->Obj_0@ == fields@,
            (spec_lookup(fields@, "victim"@) matches Some(w) && w is Obj),
            (spec_lookup(fields@, "attackers"@) matches Some(a) && a is Arr && a->Arr_0@
                == items@),
            forall|j: int| 0 <= j < i ==> (#[trigger] items@[j]) is Obj,
            forall|j: int|
                0 <= j < i ==> (#[trigger] attackers@[j]) == spec_decode_attacker(
                    items@[j]->Obj_0@,
                ),
        decreases items@.len() - i,
    {
        match &items[i] {
            JsonVal::Obj(af) => {
                attackers.push(decode_attacker_fields(af));
            },
            _ => {
                proof {
                    assert(!(items@[i as int] is Obj));
                }
                return None;
            },
        }
        i = i + 1;
    }
    Some(
        Killmail {
            killmail_id: get_i64(fields, "killmail_id"),
            killmail_time: get_string(fields, "killmail_time"),
            solar_system_id: get_i64(fields, "solar_system_id"),
            victim,
            attackers,
        },
    )
}

/// Decodes the economic metadata object. Every field is defaulted: a zkb
/// object of any shape decodes, only a non-object yields nothing.
pub fn decode_zkb(v: &JsonVal) -> (r: Option<Zkb>)
    ensures
        r is Some <==> v is Obj,
        r matches Some(z) ==> zkb_matches(z, *v),
{
    let fields = match v {
        JsonVal::Obj(fields) => fields,
        _ => {
            return None;
        },
    };
    Some(
        Zkb {
            location_id: get_i64(fields, "locationID"),
            hash: get_string(fields, "hash"),
            fitted_value: get_u64(fields, "fittedValue"),
            dropped_value: get_u64(fields, "droppedValue"),
            destroyed_value: get_u64(fields, "destroyedValue"),
            total_value: get_u64(fields, "totalValue"),
            points: get_u64(fields, "points"),
            npc: get_bool(fields, "npc"),
            solo: get_bool(fields, "solo"),
            awox: get_bool(fields, "awox"),
        },
    )
}

/// What one long-poll response yields.
pub enum PollOutcome {
    /// A valid empty poll: the envelope's `package` field is absent or null.
    Empty,
    /// One decoded event with its economic metadata.
    Event(Killmail, Zkb),
    /// A response that fails structural decoding; the unit is dropped.
    Malformed,
}

/// Structural requirements on a non-empty poll envelope: `package` holds an
/// object whose `killmail` decodes and whose `zkb` is an object.
pub open spec fn spec_poll_event_ok(v: JsonVal) -> bool {
    &&& v is Obj
    &&& spec_lookup(v->Obj_0@, "package"@) matches Some(p) && p is Obj
    &&& spec_lookup(v->Obj_0@, "package"@) matches Some(p) && (spec_lookup(
        p->Obj_0@,
        "killmail"@,
    ) matches Some(k) && spec_killmail_ok(k))
    &&& spec_lookup(v->Obj_0@, "package"@) matches Some(p) && (spec_lookup(p->Obj_0@, "zkb"@)
        matches Some(z) && z is Obj)
}

pub open spec fn spec_poll_empty(v: JsonVal) -> bool {
    v is Obj && (spec_lookup(v->Obj_0@, "package"@) matches Some(p) ==> p is Null)
}

/// Decodes one long-poll response: an absent or null `package` is a valid
/// empty poll, a decodable `package` yields the event, and anything else is
/// a malformed unit to drop — never an error that stops polling.
pub fn decode_poll(v: &JsonVal) -> (r: PollOutcome)
    ensures
        r is Empty <==> spec_poll_empty(*v),
        r is Event <==> spec_poll_event_ok(*v),
        r matches PollOutcome::Event(km, z) ==> {
            let p = spec_lookup(v->Obj_0@, "package"@)->Some_0;
            &&& killmail_matches(km, spec_lookup(p->Obj_0@, "killmail"@)->Some_0)
            &&& zkb_matches(z, spec_lookup(p->Obj_0@, "zkb"@)->Some_0)
        },
{
    let fields = match v {
        JsonVal::Obj(fields) => fields,
        _ => {
            return PollOutcome::Malformed;
        },
    };
    let pf = match lookup(fields, "package") {
        None => {
            return PollOutcome::Empty;
        },
        Some(JsonVal::Null) => {
            return PollOutcome::Empty;
        },
        Some(JsonVal::Obj(pf)) => pf,
        Some(_) => {
            return PollOutcome::Malformed;
        },
    };
    let kv = match lookup(pf, "killmail") {
        Some(kv) => kv,
        None => {
            return PollOutcome::Malformed;
        },
    };
    let km = match decode_killmail(kv) {
        Some(km) => km,
        None => {
            return PollOutcome::Malformed;
        },
    };
    let zv = match lookup(pf, "zkb") {
        Some(zv) => zv,
        None => {
            return PollOutcome::Malformed;
        },
    };
    match decode_zkb(zv) {
        Some(z) => PollOutcome::Event(km, z),
        None => PollOutcome::Malformed,
    }
}

} // verus!
