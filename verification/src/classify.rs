use vstd::prelude::*;

use crate::models::{Attacker, Killmail, ServerConfig, Victim};

verus! {

/// The outcome of matching an event against one tenant's criteria: the
/// tenant follows the losing side (`Loss`) or the winning side, the location
/// or an asset type (`Kill`). "No match" is `None` at the use sites.
#[derive(Clone, Copy, PartialEq, Eq, Structural, Debug)]
pub enum Classification {
    Loss,
    Kill,
}

pub open spec fn opt_in(ids: Seq<i64>, id: Option<i64>) -> bool {
    match id {
        Some(v) => ids.contains(v),
        None => false,
    }
}

/// The victim's character, corporation or alliance identifier is followed.
pub open spec fn victim_party_match(v: Victim, ids: Seq<i64>) -> bool {
    ids.contains(v.character_id) || ids.contains(v.corporation_id) || opt_in(ids, v.alliance_id)
}

/// The attacker's character, corporation or alliance identifier is followed.
pub open spec fn attacker_party_match(a: Attacker, ids: Seq<i64>) -> bool {
    ids.contains(a.character_id) || ids.contains(a.corporation_id) || opt_in(ids, a.alliance_id)
}

pub open spec fn any_attacker_party_match(atts: Seq<Attacker>, ids: Seq<i64>) -> bool {
    exists|i: int| 0 <= i < atts.len() && attacker_party_match(atts[i], ids)
}

pub open spec fn any_attacker_ship_match(atts: Seq<Attacker>, ids: Seq<i64>) -> bool {
    exists|i: int| 0 <= i < atts.len() && ids.contains(atts[i].ship_type_id)
}

/// Classification precedence, first match wins: victim identity, then
/// attacker identity, then location, then victim asset type, then attacker
/// asset type. Identity matches outrank asset-type and location matches.
pub open spec fn spec_classify(km: Killmail, ids: Seq<i64>) -> Option<Classification> {
    if victim_party_match(km.victim, ids) {
        Some(Classification::Loss)
    } else if any_attacker_party_match(km.attackers@, ids) {
        Some(Classification::Kill)
    } else if ids.contains(km.solar_system_id) {
        Some(Classification::Kill)
    } else if ids.contains(km.victim.ship_type_id) {
        Some(Classification::Loss)
    } else if any_attacker_ship_match(km.attackers@, ids) {
        Some(Classification::Kill)
    } else {
        None
    }
}

fn contains_id(ids: &Vec<i64>, x: i64) -> (r: bool)
    ensures
        r == ids@.contains(x),
{
    let mut k: usize = 0;
    while k < ids.len()
        invariant
            k <= ids.len(),
            forall|j: int| 0 <= j < k ==> ids@[j] != x,
        decreases ids.len() - k,
    {
        if ids[k] == x {
            proof {
                assert(ids@[k as int] == x);
            }
            return true;
        }
        k = k + 1;
    }
    false
}

fn opt_contains(ids: &Vec<i64>, id: &Option<i64>) -> (r: bool)
    ensures
        r == opt_in(ids@, *id),
{
    match id {
        Some(v) => contains_id(ids, *v),
        None => false,
    }
}

fn victim_matches(ids: &Vec<i64>, v: &Victim) -> (r: bool)
    ensures
        r == victim_party_match(*v, ids@),
{
    contains_id(ids, v.character_id) || contains_id(ids, v.corporation_id) || opt_contains(
        ids,
        &v.alliance_id,
    )
}

fn attacker_matches(ids: &Vec<i64>, a: &Attacker) -> (r: bool)
    ensures
        r == attacker_party_match(*a, ids@),
{
    contains_id(ids, a.character_id) || contains_id(ids, a.corporation_id) || opt_contains(
        ids,
        &a.alliance_id,
    )
}

/// Matches an event against one tenant's follow criteria. Pure: no side
/// effects, the same event and criteria always classify the same way.
pub fn classify(km: &Killmail, follow_ids: &Vec<i64>) -> (r: Option<Classification>)
    ensures
        r == spec_classify(*km, follow_ids@),
{
    if victim_matches(follow_ids, &km.victim) {
        return Some(Classification::Loss);
    }
    let mut i: usize = 0;
    while i < km.attackers.len()
        invariant
            i <= km.attackers.len(),
            !victim_party_match(km.victim, follow_ids@),
            forall|j: int|
                0 <= j < i ==> !attacker_party_match(#[trigger] km.attackers@[j], follow_ids@),
        decreases km.attackers.len() - i,
    {
        if attacker_matches(follow_ids, &km.attackers[i]) {
            proof {
                assert(attacker_party_match(km.attackers@[i as int], follow_ids@));
                assert(any_attacker_party_match(km.attackers@, follow_ids@));
            }
            return Some(Classification::Kill);
        }
        i = i + 1;
    }
    proof {
        assert(!any_attacker_party_match(km.attackers@, follow_ids@));
    }
    if contains_id(follow_ids, km.solar_system_id) {
        return Some(Classification::Kill);
    }
    if contains_id(follow_ids, km.victim.ship_type_id) {
        return Some(Classification::Loss);
    }
    let mut k: usize = 0;
    while k < km.attackers.len()
        invariant
            k <= km.attackers.len(),
            !victim_party_match(km.victim, follow_ids@),
            !any_attacker_party_match(km.attackers@, follow_ids@),
            !follow_ids@.contains(km.solar_system_id),
            !follow_ids@.contains(km.victim.ship_type_id),
            forall|j: int|
                0 <= j < k ==> !follow_ids@.contains(#[trigger] km.attackers@[j].ship_type_id),
        decreases km.attackers.len() - k,
    {
        if contains_id(follow_ids, km.attackers[k].ship_type_id) {
            proof {
                assert(follow_ids@.contains(km.attackers@[k as int].ship_type_id));
                assert(any_attacker_ship_match(km.attackers@, follow_ids@));
            }
            return Some(Classification::Kill);
        }
        k = k + 1;
    }
    proof {
        assert(!any_attacker_ship_match(km.attackers@, follow_ids@));
    }
    None
}

/// Law: whenever the primary party's character, corporation or alliance
/// identifier is among the criteria, the event classifies as `Loss`,
/// whatever secondary-party, location or asset-type overlaps exist.
pub proof fn lemma_primary_identity_wins(km: Killmail, ids: Seq<i64>)
    requires
        victim_party_match(km.victim, ids),
    ensures
        spec_classify(km, ids) == Some(Classification::Loss),
{
}

/// Law: an event none of whose party, location or asset identifiers
/// intersects the criteria classifies as no match.
pub proof fn lemma_no_overlap_no_match(km: Killmail, ids: Seq<i64>)
    requires
        !victim_party_match(km.victim, ids),
        !ids.contains(km.solar_system_id),
        !ids.contains(km.victim.ship_type_id),
        forall|i: int|
            0 <= i < km.attackers@.len() ==> !attacker_party_match(
                #[trigger] km.attackers@[i],
                ids,
            ),
        forall|i: int|
            0 <= i < km.attackers@.len() ==> !ids.contains(#[trigger] km.attackers@[i].ship_type_id),
    ensures
        spec_classify(km, ids) == None::<Classification>,
{
}

/// The deliveries one event owes: one entry per subscription whose criteria
/// match, in registry order, carrying that subscription's destination.
pub open spec fn spec_fan_out(subs: Seq<(u64, ServerConfig)>, km: Killmail) -> Seq<
    (u64, Classification),
>
    decreases subs.len(),
{
    if subs.len() == 0 {
        Seq::empty()
    } else {
        let rest = spec_fan_out(subs.drop_last(), km);
        match spec_classify(km, subs.last().1.follow_ids@) {
            Some(c) => rest.push((subs.last().1.channel_id, c)),
            None => rest,
        }
    }
}

/// Law: the fan-out depends only on the plain values of the snapshot — its
/// tenants' destinations and criteria — never on which physical copy of the
/// registry it reads.
pub proof fn lemma_fan_out_of_model(
    a: Seq<(u64, ServerConfig)>,
    b: Seq<(u64, ServerConfig)>,
    km: Killmail,
)
    requires
        crate::models::entries_model(a) == crate::models::entries_model(b),
    ensures
        spec_fan_out(a, km) == spec_fan_out(b, km),
    decreases a.len(),
{
    let ma = crate::models::entries_model(a);
    let mb = crate::models::entries_model(b);
    assert(ma.len() == a.len() && mb.len() == b.len());
    if a.len() > 0 {
        assert forall|i: int| 0 <= i < a.len() - 1 implies crate::models::entries_model(
            a.drop_last(),
        )[i] == crate::models::entries_model(b.drop_last())[i] by {
            assert(crate::models::entries_model(a.drop_last())[i] == crate::models::entry_model(
                a.drop_last()[i],
            ));
            assert(crate::models::entries_model(b.drop_last())[i] == crate::models::entry_model(
                b.drop_last()[i],
            ));
            assert(a.drop_last()[i] == a[i] && b.drop_last()[i] == b[i]);
            assert(ma[i] == crate::models::entry_model(a[i]));
            assert(mb[i] == crate::models::entry_model(b[i]));
        }
        assert(crate::models::entries_model(a.drop_last()) =~= crate::models::entries_model(
            b.drop_last(),
        ));
        lemma_fan_out_of_model(a.drop_last(), b.drop_last(), km);
        assert(ma.last() == crate::models::entry_model(a.last()));
        assert(mb.last() == crate::models::entry_model(b.last()));
        assert(a.last().1.follow_ids@ == b.last().1.follow_ids@);
        assert(a.last().1.channel_id == b.last().1.channel_id);
    }
}

/// Classifies one event against every subscription of a registry snapshot:
/// exactly the matching subscriptions appear in the result, each exactly
/// once, with their destination channel and classification.
pub fn fan_out(subs: &Vec<(u64, ServerConfig)>, km: &Killmail) -> (r: Vec<(u64, Classification)>)
    ensures
        r@ == spec_fan_out(subs@, *km),
{
    let mut out: Vec<(u64, Classification)> = Vec::new();
    let mut i: usize = 0;
    proof {
        assert(subs@.take(0) =~= Seq::<(u64, ServerConfig)>::empty());
    }
    while i < subs.len()
        invariant
            i <= subs.len(),
            out@ == spec_fan_out(subs@.take(i as int), *km),
        decreases subs.len() - i,
    {
        proof {
            assert(subs@.take(i + 1).last() == subs@[i as int]);
            assert(subs@.take(i + 1).drop_last() =~= subs@.take(i as int));
        }
        match classify(km, &subs[i].1.follow_ids) {
            Some(c) => out.push((subs[i].1.channel_id, c)),
            None => (),
        }
        i = i + 1;
    }
    proof {
        assert(subs@.take(subs@.len() as int) =~= subs@);
    }
    out
}

} // verus!
