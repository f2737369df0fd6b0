use simp::simulate::psp::find_rule;
use simp::simulate::psp::keys_match;
use simp::simulate::psp::status_for;
use simp::simulate::psp::validate_parameters;
use simp::simulate::psp::validate_parameters_with;
use simp::simulate::psp::wrap;
use simp::simulate::random::ScriptedDraws;
use simp::types::config::Key;
use simp::types::config::Possible;
use simp::types::config::PspSimulationConfig;
use simp::types::config::PspVariant;
use simp::types::config::Status;
use simp::types::keymap::KeyMap;

fn key(name: &str) -> Key {
    Key(name.to_string())
}

fn params(entries: Vec<(&str, &str)>) -> KeyMap<Key> {
    let mut map: KeyMap<Key> = KeyMap::new();
    for (name, value) in entries {
        map.insert(key(name), key(value));
    }
    map
}

fn rule(entries: Vec<(&str, &str)>, sr: u8) -> PspVariant {
    let mut map: KeyMap<Possible> = KeyMap::new();
    for (name, value) in entries {
        map.insert(key(name), Possible::parse(value.to_string()));
    }
    PspVariant { key: map, sr }
}

fn table(rules: Vec<(&str, PspVariant)>, otherwise: Status) -> PspSimulationConfig {
    let mut map: KeyMap<PspVariant> = KeyMap::new();
    for (connector, variant) in rules {
        map.insert(key(connector), variant);
    }
    PspSimulationConfig { config: map, otherwise }
}

fn stripe(sr: u8, otherwise: Status) -> PspSimulationConfig {
    table(vec![("stripe", rule(vec![("method", "card")], sr))], otherwise)
}

#[test]
fn a_rule_that_is_met_decides_with_one_draw() {
    let config = stripe(70, Status::Failure);
    let mut source = ScriptedDraws::new(vec![50, 99]);
    let status = validate_parameters_with(
        &config,
        "stripe".to_string(),
        params(vec![("method", "card")]),
        &mut source,
    );
    assert_eq!(status, Status::Success);
    assert_eq!(source.remaining(), 1);
}

#[test]
fn a_request_that_meets_no_rule_gets_the_default_without_a_draw() {
    let config = stripe(70, Status::Failure);
    let mut source = ScriptedDraws::new(vec![50, 99]);
    let status = validate_parameters_with(
        &config,
        "stripe".to_string(),
        params(vec![("method", "paypal")]),
        &mut source,
    );
    assert_eq!(status, Status::Failure);
    assert_eq!(source.remaining(), 2);

    let config = stripe(70, Status::Success);
    let status = validate_parameters_with(
        &config,
        "stripe".to_string(),
        params(vec![("method", "paypal")]),
        &mut source,
    );
    assert_eq!(status, Status::Success);
    assert_eq!(source.remaining(), 2);
}

#[test]
fn the_draw_is_held_against_the_success_rate() {
    assert_eq!(status_for(70, 50), Status::Success);
    assert_eq!(status_for(70, 69), Status::Success);
    assert_eq!(status_for(70, 70), Status::Failure);
    assert_eq!(status_for(70, 99), Status::Failure);
    assert_eq!(status_for(0, 0), Status::Failure);
    assert_eq!(status_for(100, 99), Status::Success);
    assert_eq!(status_for(1, 0), Status::Success);

    let config = stripe(70, Status::Success);
    let mut source = ScriptedDraws::new(vec![69, 70]);
    let first = validate_parameters_with(
        &config,
        "stripe".to_string(),
        params(vec![("method", "card")]),
        &mut source,
    );
    let second = validate_parameters_with(
        &config,
        "stripe".to_string(),
        params(vec![("method", "card")]),
        &mut source,
    );
    assert_eq!(first, Status::Success);
    assert_eq!(second, Status::Failure);
    assert_eq!(source.remaining(), 0);
}

#[test]
fn another_connector_gets_the_default() {
    let config = stripe(100, Status::Failure);
    let mut source = ScriptedDraws::new(vec![0]);
    let status = validate_parameters_with(
        &config,
        "adyen".to_string(),
        params(vec![("method", "card")]),
        &mut source,
    );
    assert_eq!(status, Status::Failure);
    assert_eq!(source.remaining(), 1);
    let status = validate_parameters_with(
        &config,
        "Stripe".to_string(),
        params(vec![("method", "card")]),
        &mut source,
    );
    assert_eq!(status, Status::Failure);
    assert_eq!(source.remaining(), 1);
}

#[test]
fn a_certain_rate_always_succeeds_and_a_rate_of_zero_never() {
    let sure = stripe(100, Status::Failure);
    let never = stripe(0, Status::Success);
    let mut round: u32 = 0;
    while round < 500 {
        assert_eq!(
            validate_parameters(&sure, "stripe".to_string(), params(vec![("method", "card")])),
            Status::Success
        );
        assert_eq!(
            validate_parameters(&never, "stripe".to_string(), params(vec![("method", "card")])),
            Status::Failure
        );
        round += 1;
    }
}

#[test]
fn a_wildcard_is_met_by_every_value_that_is_there() {
    let config = table(
        vec![("stripe", rule(vec![("method", "*"), ("currency", "eur")], 100))],
        Status::Failure,
    );
    for method in ["card", "paypal", "", "*"] {
        let mut source = ScriptedDraws::new(vec![0]);
        let status = validate_parameters_with(
            &config,
            "stripe".to_string(),
            params(vec![("currency", "eur"), ("method", method)]),
            &mut source,
        );
        assert_eq!(status, Status::Success);
        assert_eq!(source.remaining(), 0);
    }
    let mut source = ScriptedDraws::new(vec![0]);
    let status = validate_parameters_with(
        &config,
        "stripe".to_string(),
        params(vec![("currency", "eur")]),
        &mut source,
    );
    assert_eq!(status, Status::Failure);
    assert_eq!(source.remaining(), 1);
}

#[test]
fn a_rule_of_values_asks_for_the_whole_set() {
    let required = rule(vec![("method", "card"), ("currency", "eur")], 100).key;
    assert!(keys_match(&required, &wrap(params(vec![("method", "card"), ("currency", "eur")]))));
    assert!(keys_match(&required, &wrap(params(vec![("currency", "eur"), ("method", "card")]))));
    assert!(!keys_match(&required, &wrap(params(vec![("method", "card")]))));
    assert!(!keys_match(&required, &wrap(params(vec![("currency", "eur")]))));
    assert!(!keys_match(&required, &wrap(params(vec![]))));
    assert!(!keys_match(
        &required,
        &wrap(params(vec![("method", "card"), ("currency", "eur"), ("country", "de")]))
    ));
    assert!(!keys_match(&required, &wrap(params(vec![("method", "card"), ("currency", "usd")]))));
    assert!(!keys_match(&required, &wrap(params(vec![("method", "card"), ("country", "eur")]))));
    let nothing = rule(vec![], 100).key;
    assert!(keys_match(&nothing, &wrap(params(vec![]))));
    assert!(!keys_match(&nothing, &wrap(params(vec![("method", "card")]))));
}

#[test]
fn wrap_expects_each_value_as_it_is() {
    let given = wrap(params(vec![("method", "card"), ("star", "*")]));
    assert_eq!(given.len(), 2);
    match given.get(&key("method")) {
        Some(Possible::Value(value)) => assert_eq!(value.0, "card"),
        other => panic!("unexpected: {:?}", other),
    }
    match given.get(&key("star")) {
        Some(Possible::Value(value)) => assert_eq!(value.0, "*"),
        other => panic!("unexpected: {:?}", other),
    }
}

#[test]
fn find_rule_gives_the_index_of_the_rule_that_applies() {
    let config = table(
        vec![
            ("adyen", rule(vec![("method", "card")], 10)),
            ("stripe", rule(vec![("method", "card")], 20)),
            ("paypal", rule(vec![("method", "*")], 30)),
        ],
        Status::Failure,
    );
    let card = wrap(params(vec![("method", "card")]));
    assert_eq!(find_rule(&config, &"adyen".to_string(), &card), Some(0));
    assert_eq!(find_rule(&config, &"stripe".to_string(), &card), Some(1));
    assert_eq!(find_rule(&config, &"paypal".to_string(), &card), Some(2));
    assert_eq!(find_rule(&config, &"klarna".to_string(), &card), None);
    let wallet = wrap(params(vec![("method", "wallet")]));
    assert_eq!(find_rule(&config, &"stripe".to_string(), &wallet), None);
    assert_eq!(find_rule(&config, &"paypal".to_string(), &wallet), Some(2));
}

#[test]
fn the_rules_are_reached_through_the_table() {
    let config = stripe(70, Status::Failure);
    assert_eq!(config.len(), 1);
    assert_eq!(config.get(&key("stripe")).unwrap().sr, 70);
    assert!(config.get(&key("adyen")).is_none());
}
