use vstd::prelude::*;

verus! {

/// Default used where an upstream numeric identifier field is absent.
pub fn default_to_zero() -> (r: i64)
    ensures
        r == 0,
{
    0
}

/// A party credited with contributing to a loss. `alliance_id` is absent when
/// the party is not in an alliance; at most one attacker per event carries
/// `final_blow` in well-formed input, but nothing here depends on that.
#[derive(Clone, Copy, PartialEq, Eq, Structural, Debug)]
pub struct Attacker {
    pub character_id: i64,
    pub corporation_id: i64,
    pub alliance_id: Option<i64>,
    pub ship_type_id: i64,
    pub weapon_type_id: i64,
    pub final_blow: bool,
}

/// The party whose loss the event reports.
#[derive(Clone, Copy, PartialEq, Eq, Structural, Debug)]
pub struct Victim {
    pub character_id: i64,
    pub corporation_id: i64,
    pub alliance_id: Option<i64>,
    pub ship_type_id: i64,
}

/// A normalized inbound event: one loss, its location, its victim and the
/// attackers credited with it, in upstream order.
#[derive(Clone, Debug)]
pub struct Killmail {
    pub killmail_id: i64,
    pub killmail_time: String,
    pub solar_system_id: i64,
    pub victim: Victim,
    pub attackers: Vec<Attacker>,
}

/// Economic metadata attached to an event. Monetary amounts are integral
/// (smallest currency unit); `total_value` is nonnegative by construction.
#[derive(Clone, Debug)]
pub struct Zkb {
    pub location_id: i64,
    pub hash: String,
    pub fitted_value: u64,
    pub dropped_value: u64,
    pub destroyed_value: u64,
    pub total_value: u64,
    pub points: u64,
    pub npc: bool,
    pub solo: bool,
    pub awox: bool,
}

/// One tenant's subscription: the follow criteria and the destination channel
/// matched events are delivered to.
#[derive(Clone, Debug)]
pub struct ServerConfig {
    pub follow_ids: Vec<i64>,
    pub channel_id: u64,
}

/// A character name resolved by the reference-data service.
#[derive(Clone, Debug)]
pub struct Character {
    pub name: String,
}

/// An asset (ship) name resolved by the reference-data service.
#[derive(Clone, Debug)]
pub struct Ship {
    pub name: String,
}

/// A solar system resolved by the reference-data service.
#[derive(Clone, Debug)]
pub struct System {
    pub constellation_id: i64,
    pub name: String,
}

/// A constellation resolved by the reference-data service.
#[derive(Clone, Debug)]
pub struct Constellation {
    pub name: String,
    pub region_id: i64,
}

/// A region resolved by the reference-data service.
#[derive(Clone, Debug)]
pub struct Region {
    pub name: String,
}

/// A corporation resolved by the reference-data service.
#[derive(Clone, Debug)]
pub struct Corporation {
    pub name: String,
}

/// A subscription entry reduced to plain values: tenant, destination
/// channel, and the follow criteria as a sequence. Contracts speak of this
/// model rather than of the executable structs.
pub open spec fn entry_model(e: (u64, ServerConfig)) -> (u64, u64, Seq<i64>) {
    (e.0, e.1.channel_id, e.1.follow_ids@)
}

pub open spec fn entries_model(s: Seq<(u64, ServerConfig)>) -> Seq<(u64, u64, Seq<i64>)> {
    s.map_values(|e: (u64, ServerConfig)| entry_model(e))
}

/// The attacker credited with the decisive blow: the last one in upstream
/// order whose `final_blow` flag is set, or `None` when no flag is set.
pub open spec fn spec_final_blower(attackers: Seq<Attacker>) -> Option<Attacker>
    decreases attackers.len(),
{
    if attackers.len() == 0 {
        None
    } else if attackers.last().final_blow {
        Some(attackers.last())
    } else {
        spec_final_blower(attackers.drop_last())
    }
}

/// Picks the decisive attacker. When the upstream payload marks more than one
/// attacker as decisive, the last one encountered wins.
pub fn final_blower(attackers: &Vec<Attacker>) -> (r: Option<Attacker>)
    ensures
        r == spec_final_blower(attackers@),
{
    let mut i: usize = attackers.len();
    proof {
        assert(attackers@.take(i as int) =~= attackers@);
    }
    while i > 0
        invariant
            i <= attackers.len(),
            spec_final_blower(attackers@) == spec_final_blower(attackers@.take(i as int)),
        decreases i,
    {
        proof {
            assert(attackers@.take(i as int).last() == attackers@[i - 1]);
            assert(attackers@.take(i as int).drop_last() =~= attackers@.take(i - 1));
        }
        if attackers[i - 1].final_blow {
            return Some(attackers[i - 1]);
        }
        i = i - 1;
    }
    proof {
        assert(attackers@.take(0) =~= Seq::<Attacker>::empty());
    }
    None
}

} // verus!
