use draugur::json::{decode_killmail, decode_poll, decode_zkb, JsonVal, PollOutcome};
use draugur::models::final_blower;

fn obj(fields: Vec<(&str, JsonVal)>) -> JsonVal {
    JsonVal::Obj(
        fields
            .into_iter()
            .map(|(k, v)| (String::from(k), v))
            .collect(),
    )
}

fn full_event() -> JsonVal {
    obj(vec![
        ("killmail_id", JsonVal::Int(123)),
        ("killmail_time", JsonVal::Str(String::from("2024-01-01T00:00:00Z"))),
        ("solar_system_id", JsonVal::Int(30000142)),
        (
            "victim",
            obj(vec![
                ("character_id", JsonVal::Int(11)),
                ("corporation_id", JsonVal::Int(500)),
                ("alliance_id", JsonVal::Int(900)),
                ("ship_type_id", JsonVal::Int(670)),
            ]),
        ),
        (
            "attackers",
            JsonVal::Arr(vec![obj(vec![
                ("character_id", JsonVal::Int(21)),
                ("corporation_id", JsonVal::Int(600)),
                ("ship_type_id", JsonVal::Int(671)),
                ("final_blow", JsonVal::Bool(true)),
            ])]),
        ),
    ])
}

#[test]
fn full_event_decodes() {
    let km = decode_killmail(&full_event()).expect("well-formed payload decodes");
    assert_eq!(km.killmail_id, 123);
    assert_eq!(km.killmail_time, "2024-01-01T00:00:00Z");
    assert_eq!(km.solar_system_id, 30000142);
    assert_eq!(km.victim.corporation_id, 500);
    assert_eq!(km.victim.alliance_id, Some(900));
    assert_eq!(km.attackers.len(), 1);
    assert_eq!(km.attackers[0].corporation_id, 600);
    assert!(km.attackers[0].final_blow);
    assert_eq!(km.attackers[0].alliance_id, None);
}

#[test]
fn missing_numeric_fields_default_to_zero() {
    // The structural minimum alone: every numeric field absent decodes to
    // zero rather than failing.
    let payload = obj(vec![
        ("victim", obj(vec![])),
        ("attackers", JsonVal::Arr(vec![obj(vec![])])),
    ]);
    let km = decode_killmail(&payload).expect("defaults apply, no decode error");
    assert_eq!(km.killmail_id, 0);
    assert_eq!(km.killmail_time, "");
    assert_eq!(km.solar_system_id, 0);
    assert_eq!(km.victim.character_id, 0);
    assert_eq!(km.victim.corporation_id, 0);
    assert_eq!(km.victim.alliance_id, None);
    assert_eq!(km.attackers.len(), 1);
    assert_eq!(km.attackers[0].character_id, 0);
    assert!(!km.attackers[0].final_blow);
}

#[test]
fn empty_attacker_list_is_tolerated() {
    let payload = obj(vec![
        ("victim", obj(vec![])),
        ("attackers", JsonVal::Arr(vec![])),
    ]);
    let km = decode_killmail(&payload).unwrap();
    assert_eq!(km.attackers.len(), 0);
}

#[test]
fn structural_failures_yield_nothing() {
    // Not an object.
    assert!(decode_killmail(&JsonVal::Int(3)).is_none());
    // Victim absent.
    assert!(decode_killmail(&obj(vec![("attackers", JsonVal::Arr(vec![]))])).is_none());
    // Victim not an object.
    assert!(decode_killmail(&obj(vec![
        ("victim", JsonVal::Int(1)),
        ("attackers", JsonVal::Arr(vec![])),
    ]))
    .is_none());
    // An attacker that is not an object.
    assert!(decode_killmail(&obj(vec![
        ("victim", obj(vec![])),
        ("attackers", JsonVal::Arr(vec![JsonVal::Int(1)])),
    ]))
    .is_none());
}

#[test]
fn zero_alliance_means_none() {
    let payload = obj(vec![
        ("victim", obj(vec![("alliance_id", JsonVal::Int(0))])),
        ("attackers", JsonVal::Arr(vec![])),
    ]);
    let km = decode_killmail(&payload).unwrap();
    assert_eq!(km.victim.alliance_id, None);
}

#[test]
fn zkb_decodes_with_defaults() {
    let z = decode_zkb(&obj(vec![
        ("locationID", JsonVal::Int(40000001)),
        ("totalValue", JsonVal::Int(1_500_000)),
        ("solo", JsonVal::Bool(true)),
    ]))
    .unwrap();
    assert_eq!(z.location_id, 40000001);
    assert_eq!(z.total_value, 1_500_000);
    assert!(z.solo);
    assert!(!z.npc);
    assert_eq!(z.fitted_value, 0);
    assert_eq!(z.hash, "");
    assert!(decode_zkb(&JsonVal::Null).is_none());
}

#[test]
fn negative_amounts_read_as_zero() {
    let z = decode_zkb(&obj(vec![("totalValue", JsonVal::Int(-5))])).unwrap();
    assert_eq!(z.total_value, 0);
}

#[test]
fn null_package_is_an_empty_poll() {
    let r = decode_poll(&obj(vec![("package", JsonVal::Null)]));
    assert!(matches!(r, PollOutcome::Empty));
    let r = decode_poll(&obj(vec![]));
    assert!(matches!(r, PollOutcome::Empty));
}

#[test]
fn full_poll_yields_the_event() {
    let envelope = obj(vec![(
        "package",
        obj(vec![
            ("killmail", full_event()),
            ("zkb", obj(vec![("totalValue", JsonVal::Int(42))])),
        ]),
    )]);
    match decode_poll(&envelope) {
        PollOutcome::Event(km, z) => {
            assert_eq!(km.killmail_id, 123);
            assert_eq!(z.total_value, 42);
        }
        _ => panic!("a well-formed package must decode to an event"),
    }
}

#[test]
fn malformed_polls_are_dropped() {
    assert!(matches!(decode_poll(&JsonVal::Int(1)), PollOutcome::Malformed));
    assert!(matches!(
        decode_poll(&obj(vec![("package", JsonVal::Int(1))])),
        PollOutcome::Malformed
    ));
    // A package without a zkb object is malformed, not an event.
    let envelope = obj(vec![("package", obj(vec![("killmail", full_event())]))]);
    assert!(matches!(decode_poll(&envelope), PollOutcome::Malformed));
}

#[test]
fn final_blower_takes_the_last_decisive_attacker() {
    let mk = |id: i64, fb: bool| draugur::models::Attacker {
        character_id: id,
        corporation_id: id * 10,
        alliance_id: None,
        ship_type_id: id * 100,
        weapon_type_id: 0,
        final_blow: fb,
    };
    let attackers = vec![mk(1, true), mk(2, false), mk(3, true)];
    let fb = final_blower(&attackers).expect("a decisive attacker exists");
    assert_eq!(fb.character_id, 3);
    assert!(final_blower(&vec![mk(1, false)]).is_none());
    assert!(final_blower(&Vec::new()).is_none());
}
