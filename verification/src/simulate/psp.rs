//! The connectors' side: the rule that a request meets, and its outcome.

use crate::simulate::random::one_percent_more;
use crate::simulate::random::RandomSource;
use crate::simulate::random::ThreadRandom;
use crate::types::config::agree;
use crate::types::config::Expected;
use crate::types::config::Key;
use crate::types::config::Possible;
use crate::types::config::PspSimulationConfig;
use crate::types::config::Rule;
use crate::types::config::Status;
use crate::types::keymap::KeyMap;
use vstd::prelude::*;

verus! {

/// The parameters of a request as a rule sees them: each value is expected
/// as it is.
pub open spec fn wrapped(params: Map<Seq<char>, Seq<char>>) -> Map<Seq<char>, Expected> {
    Map::new(
        |name: Seq<char>| params.dom().contains(name),
        |name: Seq<char>| Expected::Value(params[name]),
    )
}

/// Whether two sets of expectations are over the same names and agree under
/// each of them.
pub open spec fn keys_agree(
    required: Map<Seq<char>, Expected>,
    given: Map<Seq<char>, Expected>,
) -> bool {
    &&& forall|name: Seq<char>| required.dom().contains(name) <==> given.dom().contains(name)
    &&& forall|name: Seq<char>|
        required.dom().contains(name) ==> agree(#[trigger] required[name], given[name])
}

/// Whether the rule is the one of `connector` and is met by `given`.
pub open spec fn applies(
    rule: (Seq<char>, Rule),
    connector: Seq<char>,
    given: Map<Seq<char>, Expected>,
) -> bool {
    rule.0 == connector && keys_agree(rule.1.key, given)
}

/// The index of the first rule from index `from` on that applies, if there
/// is one.
pub open spec fn first_match(
    rules: Seq<(Seq<char>, Rule)>,
    from: int,
    connector: Seq<char>,
    given: Map<Seq<char>, Expected>,
) -> Option<int>
    decreases rules.len() - from,
{
    if from < 0 || from >= rules.len() {
        None
    } else if applies(rules[from], connector, given) {
        Some(from)
    } else {
        first_match(rules, from + 1, connector, given)
    }
}

/// The outcome of a rule with success rate `sr` for a number drawn below 100.
pub open spec fn status_of(sr: u8, number: u8) -> Status {
    if number < sr {
        Status::Success
    } else {
        Status::Failure
    }
}

/// The outcome of a rule for a number drawn below 100: see [`status_of`].
pub fn status_for(sr: u8, number: u8) -> (status: Status)
    ensures
        status == status_of(sr, number),
{
    if number < sr {
        Status::Success
    } else {
        Status::Failure
    }
}

/// Turns the parameters of a request into what a rule is compared with.
pub fn wrap(params: KeyMap<Key>) -> (given: KeyMap<Possible>)
    ensures
        given@ == wrapped(params@),
{
    params.names_unique();
    let count = params.len();
    let mut given: KeyMap<Possible> = KeyMap::new();
    let mut j: usize = 0;
    while j < count
        invariant
            count == params.entries().len(),
            j <= count,
            params.names().no_duplicates(),
            forall|name: Seq<char>|
                given@.dom().contains(name) <==> exists|k: int|
                    0 <= k < j && params.names()[k] == name,
            forall|k: int|
                0 <= k < j ==> given@[#[trigger] params.names()[k]] == Expected::Value(
                    params.values()[k]@,
                ),
        decreases count - j,
    {
        let ghost before = given@;
        let key = params.key_at(j).clone();
        let value = Possible::Value(params.value_at(j).clone());
        given.insert(key, value);
        assert(given@ =~= before.insert(
            params.names()[j as int],
            Expected::Value(params.values()[j as int]@),
        ));
        j += 1;
    }
    proof {
        assert forall|name: Seq<char>| params@.dom().contains(name) implies given@.dom().contains(
            name,
        ) && given@[name] == Expected::Value(params@[name]) by {
            let k = params.names().index_of(name);
            assert(params.names()[k] == name);
        }
        assert(given@ =~= wrapped(params@));
    }
    given
}

/// Compares two sets of expectations as wholes: see [`keys_agree`].
pub fn keys_match(required: &KeyMap<Possible>, given: &KeyMap<Possible>) -> (same: bool)
    ensures
        same == keys_agree(required@, given@),
{
    let wanted = required.len();
    let mut i: usize = 0;
    while i < wanted
        invariant
            wanted == required.entries().len(),
            i <= wanted,
            forall|k: int|
                0 <= k < i ==> given@.dom().contains(#[trigger] required.names()[k]) && agree(
                    required@[required.names()[k]],
                    given@[required.names()[k]],
                ),
        decreases wanted - i,
    {
        let name = required.key_at(i);
        let expected = required.value_at(i);
        match given.get(name) {
            None => {
                assert(required@.dom().contains(name@) && !given@.dom().contains(name@));
                return false;
            },
            Some(found) => {
                assert(required@.dom().contains(name@));
                assert(required@[name@] == expected@ && given@[name@] == found@);
                if !expected.matches(found) {
                    return false;
                }
            },
        }
        i += 1;
    }
    let offered = given.len();
    let mut j: usize = 0;
    while j < offered
        invariant
            offered == given.entries().len(),
            j <= offered,
            forall|k: int| 0 <= k < j ==> required@.dom().contains(#[trigger] given.names()[k]),
        decreases offered - j,
    {
        let name = given.key_at(j);
        if required.position(name).is_none() {
            assert(given@.dom().contains(name@) && !required@.dom().contains(name@));
            return false;
        }
        j += 1;
    }
    proof {
        assert forall|name: Seq<char>| required@.dom().contains(name) implies given@.dom().contains(
            name,
        ) && agree(#[trigger] required@[name], given@[name]) by {
            let k = required.names().index_of(name);
            assert(required.names()[k] == name);
        }
        assert forall|name: Seq<char>| given@.dom().contains(name) implies required@.dom().contains(
            name,
        ) by {
            let k = given.names().index_of(name);
            assert(given.names()[k] == name);
        }
    }
    true
}

/// The first rule of the table that is the one of `connector` and is met by
/// `given`.
pub fn find_rule(config: &PspSimulationConfig, connector: &String, given: &KeyMap<Possible>) -> (found:
    Option<usize>)
    ensures
        match found {
            Some(index) => first_match(config@.rules, 0, connector@, given@) == Some(index as int)
                && index < config@.rules.len(),
            None => first_match(config@.rules, 0, connector@, given@) is None,
        },
{
    let count = config.config.len();
    let mut i: usize = 0;
    while i < count
        invariant
            count == config.config.entries().len(),
            i <= count,
            first_match(config@.rules, 0, connector@, given@) == first_match(
                config@.rules,
                i as int,
                connector@,
                given@,
            ),
        decreases count - i,
    {
        if config.config.key_at(i).0 == *connector && keys_match(
            &config.config.value_at(i).key,
            given,
        ) {
            return Some(i);
        }
        i += 1;
    }
    None
}

/// Resolves a request to `connector` with the numbers that `source` hands
/// out. The first rule that applies decides with one draw against its
/// success rate; where none applies the table's default stands and nothing
/// is drawn.
pub fn validate_parameters_with<R: RandomSource>(
    config: &PspSimulationConfig,
    connector: String,
    params: KeyMap<Key>,
    source: &mut R,
) -> (status: Status)
    ensures
        match first_match(config@.rules, 0, connector@, wrapped(params@)) {
            Some(index) => {
                &&& one_percent_more(final(source).drawn(), old(source).drawn())
                &&& status == status_of(config@.rules[index].1.sr, final(source).drawn().last())
                &&& config@.rules[index].1.sr >= 100 ==> status == Status::Success
                &&& config@.rules[index].1.sr == 0 ==> status == Status::Failure
            },
            None => final(source).drawn() == old(source).drawn() && status == config@.otherwise,
        },
{
    let given = wrap(params);
    match find_rule(config, &connector, &given) {
        Some(index) => {
            let number = source.next_in_range(100);
            status_for(config.config.value_at(index).sr, number)
        },
        None => config.otherwise,
    }
}

/// Resolves a request to `connector` with the random generator of the
/// calling thread.
pub fn validate_parameters(config: &PspSimulationConfig, connector: String, params: KeyMap<Key>) -> (status:
    Status)
    ensures
        match first_match(config@.rules, 0, connector@, wrapped(params@)) {
            Some(index) => {
                &&& exists|number: u8|
                    number < 100 && status == #[trigger] status_of(
                        config@.rules[index].1.sr,
                        number,
                    )
                &&& config@.rules[index].1.sr >= 100 ==> status == Status::Success
                &&& config@.rules[index].1.sr == 0 ==> status == Status::Failure
            },
            None => status == config@.otherwise,
        },
{
    let mut source = ThreadRandom::new();
    validate_parameters_with(config, connector, params, &mut source)
}

/// A rule with a success rate of 100 succeeds and one with a rate of 0 fails,
/// whichever number below 100 is drawn.
pub proof fn lemma_certain_rates(number: u8)
    requires
        number < 100,
    ensures
        status_of(100, number) == Status::Success,
        status_of(0, number) == Status::Failure,
{
}

/// The rule found is the first that applies: it applies, and none before it
/// does. Where none is found, none applies.
pub proof fn lemma_first_match_is_first(
    rules: Seq<(Seq<char>, Rule)>,
    from: int,
    connector: Seq<char>,
    given: Map<Seq<char>, Expected>,
)
    requires
        0 <= from,
    ensures
        match first_match(rules, from, connector, given) {
            Some(index) => {
                &&& from <= index < rules.len()
                &&& applies(rules[index], connector, given)
                &&& forall|earlier: int|
                    from <= earlier < index ==> !applies(
                        #[trigger] rules[earlier],
                        connector,
                        given,
                    )
            },
            None => forall|index: int|
                from <= index < rules.len() ==> !applies(#[trigger] rules[index], connector, given),
        },
    decreases rules.len() - from,
{
    if from < rules.len() && !applies(rules[from], connector, given) {
        lemma_first_match_is_first(rules, from + 1, connector, given);
    }
}

/// Where a rule expects `Any` under a name, the value that a request has
/// under that name does not bear on whether the rule is met.
pub proof fn lemma_any_ignores_value(
    required: Map<Seq<char>, Expected>,
    params: Map<Seq<char>, Seq<char>>,
    name: Seq<char>,
    one: Seq<char>,
    other: Seq<char>,
)
    requires
        required.dom().contains(name),
        required[name] is Any,
    ensures
        keys_agree(required, wrapped(params.insert(name, one))) == keys_agree(
            required,
            wrapped(params.insert(name, other)),
        ),
{
    let first = wrapped(params.insert(name, one));
    let second = wrapped(params.insert(name, other));
    assert forall|each: Seq<char>| first.dom().contains(each) <==> second.dom().contains(each) by {}
    assert forall|each: Seq<char>| first.dom().contains(each) && each != name implies first[each]
        == second[each] by {}
    if keys_agree(required, first) {
        assert forall|each: Seq<char>| required.dom().contains(each) implies agree(
            #[trigger] required[each],
            second[each],
        ) by {
            assert(first.dom().contains(each));
        }
    }
    if keys_agree(required, second) {
        assert forall|each: Seq<char>| required.dom().contains(each) implies agree(
            #[trigger] required[each],
            first[each],
        ) by {
            assert(second.dom().contains(each));
        }
    }
}

/// A rule that expects `Any` under every name is met by every request that
/// has a value, whichever, under exactly those names.
pub proof fn lemma_wildcards_match(
    required: Map<Seq<char>, Expected>,
    params: Map<Seq<char>, Seq<char>>,
)
    requires
        forall|name: Seq<char>| required.dom().contains(name) ==> required[name] is Any,
        forall|name: Seq<char>| required.dom().contains(name) <==> params.dom().contains(name),
    ensures
        keys_agree(required, wrapped(params)),
{
}

/// A rule that expects a value under every name is met by the requests that
/// have those values under those names and no other parameter, and by these
/// only.
pub proof fn lemma_exact_rule(required: Map<Seq<char>, Expected>, params: Map<Seq<char>, Seq<char>>)
    requires
        forall|name: Seq<char>| required.dom().contains(name) ==> required[name] is Value,
    ensures
        keys_agree(required, wrapped(params)) <==> required == wrapped(params),
{
    if keys_agree(required, wrapped(params)) {
        assert(required =~= wrapped(params));
    }
}

} // verus!
