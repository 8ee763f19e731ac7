use draugur::classify::{classify, fan_out, Classification};
use draugur::models::{Attacker, Killmail, ServerConfig, Victim};
use draugur::registry::Registry;

fn attacker(character_id: i64, corporation_id: i64, alliance_id: Option<i64>) -> Attacker {
    Attacker {
        character_id,
        corporation_id,
        alliance_id,
        ship_type_id: 0,
        weapon_type_id: 0,
        final_blow: false,
    }
}

fn event() -> Killmail {
    Killmail {
        killmail_id: 1,
        killmail_time: String::from("2024-01-01T00:00:00Z"),
        solar_system_id: 30000142,
        victim: Victim {
            character_id: 11,
            corporation_id: 500,
            alliance_id: Some(900),
            ship_type_id: 670,
        },
        attackers: vec![
            attacker(21, 600, None),
            Attacker {
                character_id: 22,
                corporation_id: 601,
                alliance_id: Some(901),
                ship_type_id: 671,
                weapon_type_id: 3,
                final_blow: true,
            },
        ],
    }
}

#[test]
fn primary_identity_beats_everything() {
    // Victim corporation and an attacker corporation both followed: the
    // primary-party match wins.
    let km = event();
    let ids: Vec<i64> = vec![500, 600, 30000142, 671];
    assert_eq!(classify(&km, &ids), Some(Classification::Loss));
    // Victim character id.
    assert_eq!(classify(&km, &vec![11]), Some(Classification::Loss));
    // Victim alliance id.
    assert_eq!(classify(&km, &vec![900]), Some(Classification::Loss));
}

#[test]
fn no_overlap_is_no_match() {
    let km = event();
    let ids: Vec<i64> = vec![1, 2, 3, 99999];
    assert_eq!(classify(&km, &ids), None);
    assert_eq!(classify(&km, &Vec::new()), None);
}

#[test]
fn attacker_identity_is_kill() {
    let km = event();
    assert_eq!(classify(&km, &vec![600]), Some(Classification::Kill));
    assert_eq!(classify(&km, &vec![22]), Some(Classification::Kill));
    assert_eq!(classify(&km, &vec![901]), Some(Classification::Kill));
}

#[test]
fn location_is_kill_unless_party_matches() {
    let km = event();
    assert_eq!(classify(&km, &vec![30000142]), Some(Classification::Kill));
    // Attacker identity outranks location.
    assert_eq!(classify(&km, &vec![30000142, 600]), Some(Classification::Kill));
    // Victim identity outranks location.
    assert_eq!(classify(&km, &vec![30000142, 500]), Some(Classification::Loss));
}

#[test]
fn asset_type_matches() {
    let km = event();
    // Victim's ship type: a loss.
    assert_eq!(classify(&km, &vec![670]), Some(Classification::Loss));
    // An attacker's ship type: a kill.
    assert_eq!(classify(&km, &vec![671]), Some(Classification::Kill));
    // Location outranks the victim's asset type.
    assert_eq!(classify(&km, &vec![670, 30000142]), Some(Classification::Kill));
}

#[test]
fn fan_out_end_to_end() {
    // Tenant A follows the victim corporation, tenant B the attacker
    // corporation: A gets a Loss, B a Kill, nobody else is invoked.
    let km = Killmail {
        killmail_id: 7,
        killmail_time: String::from("2024-05-05T12:00:00Z"),
        solar_system_id: 30000142,
        victim: Victim {
            character_id: 0,
            corporation_id: 500,
            alliance_id: None,
            ship_type_id: 0,
        },
        attackers: vec![Attacker {
            character_id: 0,
            corporation_id: 600,
            alliance_id: None,
            ship_type_id: 0,
            weapon_type_id: 0,
            final_blow: true,
        }],
    };
    let mut reg = Registry::new();
    reg.upsert(1, 500, 71);
    reg.upsert(2, 600, 72);
    reg.upsert(3, 12345, 73);
    let snap = reg.snapshot();
    let out = fan_out(&snap, &km);
    assert_eq!(out.len(), 2);
    assert!(out.contains(&(71, Classification::Loss)));
    assert!(out.contains(&(72, Classification::Kill)));
}

#[test]
fn fan_out_empty_registry() {
    let km = event();
    let snap: Vec<(u64, ServerConfig)> = Vec::new();
    assert_eq!(fan_out(&snap, &km).len(), 0);
}
