use simp::simulate::random::RandomSource;
use simp::simulate::random::ScriptedDraws;
use simp::simulate::random::ThreadRandom;
use simp::simulate::user::choose_parameter;
use simp::simulate::user::generate_sample;
use simp::simulate::user::generate_sample_with;
use simp::simulate::user::list_parameters;
use simp::simulate::user::select_parameter;
use simp::simulate::user::ResolutionError;
use simp::types::config::Key;
use simp::types::config::ParameterConfig;
use simp::types::config::Parameters;
use simp::types::config::SimulationConfig;
use simp::types::config::UserSimulationConfig;
use simp::types::keymap::KeyMap;

fn key(name: &str) -> Key {
    Key(name.to_string())
}

fn parameters(choices: Vec<(&str, ParameterConfig)>) -> Parameters {
    let mut map: KeyMap<ParameterConfig> = KeyMap::new();
    for (name, choice) in choices {
        map.insert(key(name), choice);
    }
    Parameters(map)
}

fn level(entries: Vec<(&str, Parameters)>) -> SimulationConfig {
    let mut map: KeyMap<Parameters> = KeyMap::new();
    for (name, choices) in entries {
        map.insert(key(name), choices);
    }
    SimulationConfig(map)
}

fn card() -> ParameterConfig {
    let types = parameters(vec![
        ("credit", ParameterConfig::Percentage(50)),
        ("debit", ParameterConfig::Percentage(50)),
    ]);
    ParameterConfig::Composite { percentage: 50, next: level(vec![("payment_method_type", types)]) }
}

/// The alternatives in the order card, bnpl, wallet: card takes the numbers
/// below 50, bnpl those from 50 to 79, wallet those from 80 on.
fn methods() -> Parameters {
    parameters(vec![
        ("card", card()),
        ("bnpl", ParameterConfig::Percentage(30)),
        ("wallet", ParameterConfig::Percentage(20)),
    ])
}

/// The same alternatives in the order card, wallet, bnpl: bnpl takes the
/// numbers from 70 on.
fn methods_with_bnpl_last() -> Parameters {
    parameters(vec![
        ("card", card()),
        ("wallet", ParameterConfig::Percentage(20)),
        ("bnpl", ParameterConfig::Percentage(30)),
    ])
}

fn payment_tree() -> UserSimulationConfig {
    UserSimulationConfig { parameters: level(vec![("payment_method", methods())]) }
}

fn payment_tree_with_bnpl_last() -> UserSimulationConfig {
    UserSimulationConfig { parameters: level(vec![("payment_method", methods_with_bnpl_last())]) }
}

fn chosen(param: &Parameters, number: u8) -> Option<(String, bool)> {
    match select_parameter(param, number) {
        Ok((value, next)) => Some((value.0.clone(), next.is_some())),
        Err(ResolutionError::NoParameterFound) => None,
    }
}

fn pairs(sample: &KeyMap<Key>) -> Vec<(String, String)> {
    let mut found: Vec<(String, String)> = Vec::new();
    let mut i: usize = 0;
    while i < sample.len() {
        found.push((sample.key_at(i).0.clone(), sample.value_at(i).0.clone()));
        i += 1;
    }
    found.sort();
    found
}

fn pair(name: &str, value: &str) -> (String, String) {
    (name.to_string(), value.to_string())
}

#[test]
fn test_generate_sample() {
    let config = payment_tree();
    let sample = generate_sample(&config).unwrap();
    println!("{:#?}", sample);
    let method = sample.get(&key("payment_method")).expect("a payment method");
    match method.0.as_str() {
        "card" => {
            let kind = sample.get(&key("payment_method_type")).expect("a type of card");
            assert!(kind.0 == "credit" || kind.0 == "debit");
            assert_eq!(sample.len(), 2);
        },
        "bnpl" | "wallet" => assert_eq!(sample.len(), 1),
        other => panic!("not a declared choice: {}", other),
    }
}

#[test]
fn generated_samples_hold_declared_choices_only() {
    let config = payment_tree();
    let mut round: u32 = 0;
    while round < 300 {
        let sample = generate_sample(&config).unwrap();
        let found = pairs(&sample);
        assert!(
            found == vec![pair("payment_method", "bnpl")]
                || found == vec![pair("payment_method", "wallet")]
                || found
                    == vec![pair("payment_method", "card"), pair("payment_method_type", "credit")]
                || found
                    == vec![pair("payment_method", "card"), pair("payment_method_type", "debit")],
            "unexpected sample: {:?}",
            found
        );
        round += 1;
    }
}

#[test]
fn draws_of_zero_take_the_first_alternative_at_each_level() {
    let config = payment_tree_with_bnpl_last();
    let mut source = ScriptedDraws::new(vec![0, 0, 99, 99]);
    let sample = generate_sample_with(&config, &mut source).unwrap();
    assert_eq!(
        pairs(&sample),
        vec![pair("payment_method", "card"), pair("payment_method_type", "credit")]
    );
    assert_eq!(source.remaining(), 2);
}

#[test]
fn a_draw_of_eighty_takes_bnpl_and_draws_no_more() {
    let config = payment_tree_with_bnpl_last();
    let mut source = ScriptedDraws::new(vec![80, 0, 0]);
    let sample = generate_sample_with(&config, &mut source).unwrap();
    assert_eq!(pairs(&sample), vec![pair("payment_method", "bnpl")]);
    assert_eq!(source.remaining(), 2);
}

#[test]
fn the_order_of_the_alternatives_decides_which_numbers_each_takes() {
    let config = payment_tree();
    let mut source = ScriptedDraws::new(vec![80]);
    let sample = generate_sample_with(&config, &mut source).unwrap();
    assert_eq!(pairs(&sample), vec![pair("payment_method", "wallet")]);
    assert_eq!(source.remaining(), 0);

    let mut source = ScriptedDraws::new(vec![79]);
    let sample = generate_sample_with(&config, &mut source).unwrap();
    assert_eq!(pairs(&sample), vec![pair("payment_method", "bnpl")]);

    let mut source = ScriptedDraws::new(vec![49, 50]);
    let sample = generate_sample_with(&config, &mut source).unwrap();
    assert_eq!(
        pairs(&sample),
        vec![pair("payment_method", "card"), pair("payment_method_type", "debit")]
    );
    assert_eq!(source.remaining(), 0);
}

#[test]
fn select_parameter_follows_the_cumulative_weights() {
    let param = methods();
    assert_eq!(chosen(&param, 0), Some(("card".to_string(), true)));
    assert_eq!(chosen(&param, 49), Some(("card".to_string(), true)));
    assert_eq!(chosen(&param, 50), Some(("bnpl".to_string(), false)));
    assert_eq!(chosen(&param, 79), Some(("bnpl".to_string(), false)));
    assert_eq!(chosen(&param, 80), Some(("wallet".to_string(), false)));
    assert_eq!(chosen(&param, 99), Some(("wallet".to_string(), false)));
    assert_eq!(chosen(&param, 100), None);
    assert_eq!(chosen(&param, 255), None);
}

#[test]
fn select_parameter_passes_over_alternatives_without_weight() {
    let param = parameters(vec![
        ("never", ParameterConfig::Percentage(0)),
        ("always", ParameterConfig::Percentage(100)),
        ("late", ParameterConfig::Percentage(0)),
    ]);
    assert_eq!(chosen(&param, 0), Some(("always".to_string(), false)));
    assert_eq!(chosen(&param, 99), Some(("always".to_string(), false)));
    assert_eq!(chosen(&param, 100), None);
    assert_eq!(chosen(&parameters(vec![]), 0), None);
}

#[test]
fn select_parameter_takes_weights_beyond_a_hundred_as_they_are() {
    let param = parameters(vec![
        ("a", ParameterConfig::Percentage(200)),
        ("b", ParameterConfig::Percentage(200)),
    ]);
    assert_eq!(chosen(&param, 199), Some(("a".to_string(), false)));
    assert_eq!(chosen(&param, 200), Some(("b".to_string(), false)));
    assert_eq!(chosen(&param, 255), Some(("b".to_string(), false)));
}

#[test]
fn choose_parameter_takes_one_draw() {
    let param = methods();
    let mut source = ScriptedDraws::new(vec![60, 10]);
    match choose_parameter(&param, &mut source) {
        Ok((value, next)) => {
            assert_eq!(value.0, "bnpl");
            assert!(next.is_none());
        },
        Err(error) => panic!("unexpected: {:?}", error),
    }
    assert_eq!(source.remaining(), 1);
    match choose_parameter(&param, &mut source) {
        Ok((value, next)) => {
            assert_eq!(value.0, "card");
            assert!(next.is_some());
        },
        Err(error) => panic!("unexpected: {:?}", error),
    }
    assert_eq!(source.remaining(), 0);
}

#[test]
fn a_draw_beyond_the_weights_finds_no_parameter() {
    let short = parameters(vec![
        ("a", ParameterConfig::Percentage(10)),
        ("b", ParameterConfig::Percentage(20)),
    ]);
    let config = level(vec![
        ("first", parameters(vec![("only", ParameterConfig::Percentage(100))])),
        ("second", short),
        ("third", parameters(vec![("only", ParameterConfig::Percentage(100))])),
    ]);
    let mut source = ScriptedDraws::new(vec![5, 30, 5, 5]);
    assert_eq!(list_parameters(&config, &mut source).err(), Some(ResolutionError::NoParameterFound));
    assert_eq!(source.remaining(), 2);

    let mut source = ScriptedDraws::new(vec![5, 29, 5, 5]);
    let sample = list_parameters(&config, &mut source).unwrap();
    assert_eq!(pairs(&sample), vec![pair("first", "only"), pair("second", "b"), pair("third", "only")]);
    assert_eq!(source.remaining(), 1);
}

#[test]
fn a_failure_below_an_alternative_fails_the_sample() {
    let inner = level(vec![("kind", parameters(vec![("x", ParameterConfig::Percentage(40))]))]);
    let config = level(vec![
        ("method", parameters(vec![("card", ParameterConfig::Composite { percentage: 100, next: inner })])),
        ("later", parameters(vec![("only", ParameterConfig::Percentage(100))])),
    ]);
    let mut source = ScriptedDraws::new(vec![0, 40, 0, 0]);
    assert_eq!(list_parameters(&config, &mut source).err(), Some(ResolutionError::NoParameterFound));
    assert_eq!(source.remaining(), 2);
}

#[test]
fn a_name_met_again_below_gets_the_later_value() {
    let inner = level(vec![
        ("region", parameters(vec![("inner", ParameterConfig::Percentage(100))])),
        ("method", parameters(vec![("nested", ParameterConfig::Percentage(100))])),
    ]);
    let config = level(vec![
        ("region", parameters(vec![("outer", ParameterConfig::Percentage(100))])),
        ("method", parameters(vec![("card", ParameterConfig::Composite { percentage: 100, next: inner })])),
    ]);
    let mut source = ScriptedDraws::new(vec![0, 0, 0, 0, 0]);
    let sample = list_parameters(&config, &mut source).unwrap();
    assert_eq!(pairs(&sample), vec![pair("method", "nested"), pair("region", "inner")]);
    assert_eq!(sample.len(), 2);
    assert_eq!(source.remaining(), 1);
}

#[test]
fn a_later_parameter_overrides_what_came_from_below() {
    let inner = level(vec![("region", parameters(vec![("inner", ParameterConfig::Percentage(100))]))]);
    let config = level(vec![
        ("method", parameters(vec![("card", ParameterConfig::Composite { percentage: 100, next: inner })])),
        ("region", parameters(vec![("outer", ParameterConfig::Percentage(100))])),
    ]);
    let mut source = ScriptedDraws::new(vec![0, 0, 0]);
    let sample = list_parameters(&config, &mut source).unwrap();
    assert_eq!(pairs(&sample), vec![pair("method", "card"), pair("region", "outer")]);
    assert_eq!(source.remaining(), 0);
}

#[test]
fn an_empty_tree_gives_an_empty_sample_without_a_draw() {
    let config = UserSimulationConfig { parameters: level(vec![]) };
    let mut source = ScriptedDraws::new(vec![1, 2]);
    let sample = generate_sample_with(&config, &mut source).unwrap();
    assert_eq!(sample.len(), 0);
    assert_eq!(source.remaining(), 2);
}

#[test]
fn the_thread_generator_stays_below_the_bound() {
    let mut source = ThreadRandom::new();
    let mut seen_other_than_bound: bool = true;
    let mut round: u32 = 0;
    while round < 2000 {
        let number = source.next_in_range(100);
        assert!(number < 100);
        if number == 100 {
            seen_other_than_bound = false;
        }
        assert_eq!(source.next_in_range(1), 0);
        assert!(source.next_in_range(3) < 3);
        round += 1;
    }
    assert!(seen_other_than_bound);
}

#[test]
fn scripted_draws_follow_the_script() {
    let mut source = ScriptedDraws::new(vec![7, 250, 100, 99]);
    assert_eq!(source.remaining(), 4);
    assert_eq!(source.next_in_range(100), 7);
    assert_eq!(source.next_in_range(100), 50);
    assert_eq!(source.next_in_range(100), 0);
    assert_eq!(source.next_in_range(10), 9);
    assert_eq!(source.remaining(), 0);
    assert_eq!(source.next_in_range(100), 0);
    assert_eq!(source.remaining(), 0);
}

#[test]
fn the_error_is_told_in_words() {
    assert_eq!(ResolutionError::NoParameterFound.message(), "No parameter found");
}
