//! The user's side: a walk down the tree of choices, one draw for each
//! parameter met.

use crate::simulate::random::extends;
use crate::simulate::random::one_percent_more;
use crate::simulate::random::RandomSource;
use crate::simulate::random::ThreadRandom;
use crate::types::balance::balanced;
use crate::types::balance::choices_balanced;
use crate::types::balance::weight_before;
use crate::types::config::Choice;
use crate::types::config::Key;
use crate::types::config::Level;
use crate::types::config::ParameterConfig;
use crate::types::config::Parameters;
use crate::types::config::SimulationConfig;
use crate::types::config::UserSimulationConfig;
use crate::types::keymap::KeyMap;
use vstd::prelude::*;

verus! {

/// Why no sample could be drawn.
#[derive(Debug, Clone, Copy, PartialEq, Eq, Structural)]
pub enum ResolutionError {
    /// The number drawn is not below the sum of the weights of a parameter's
    /// alternatives, so that none of them is chosen.
    NoParameterFound,
}

impl ResolutionError {
    /// The error in words.
    pub fn message(&self) -> (text: String)
        ensures
            text@ == "No parameter found"@,
    {
        String::from_str("No parameter found")
    }
}

/// Whether the number falls into the share of the alternative at `index`:
/// the weights before it do not exceed the number, and with its own they do.
pub open spec fn selects(choices: Seq<Choice>, number: int, index: int) -> bool {
    &&& 0 <= index < choices.len()
    &&& weight_before(choices, index) <= number < weight_before(choices, index + 1)
}

/// The index of the alternative into whose share the number falls, if there
/// is one.
pub open spec fn selected(choices: Seq<Choice>, number: int) -> Option<int> {
    if exists|index: int| selects(choices, number, index) {
        Some(choose|index: int| selects(choices, number, index))
    } else {
        None
    }
}

/// The weights before an index grow with the index.
pub proof fn lemma_weight_before_grows(choices: Seq<Choice>, low: int, high: int)
    requires
        0 <= low <= high <= choices.len(),
    ensures
        weight_before(choices, low) <= weight_before(choices, high),
    decreases high - low,
{
    if low < high {
        lemma_weight_before_grows(choices, low, high - 1);
    }
}

/// A number falls into the share of one alternative at most, and into none
/// when it is not below the sum of all weights.
pub proof fn lemma_selected(choices: Seq<Choice>, number: int, index: int)
    ensures
        selects(choices, number, index) ==> selected(choices, number) == Some(index),
        number >= weight_before(choices, choices.len() as int) ==> selected(choices, number)
            is None,
        number < 0 ==> selected(choices, number) is None,
{
    assert forall|other: int|
        selects(choices, number, index) && selects(choices, number, other) implies other
        == index by {
        if other < index {
            lemma_weight_before_grows(choices, other + 1, index);
        }
        if index < other {
            lemma_weight_before_grows(choices, index + 1, other);
        }
    }
    assert forall|other: int|
        number >= weight_before(choices, choices.len() as int) implies !selects(
        choices,
        number,
        other,
    ) by {
        if 0 <= other < choices.len() {
            lemma_weight_before_grows(choices, other + 1, choices.len() as int);
        }
    }
    assert forall|other: int| number < 0 implies !selects(choices, number, other) by {}
}

/// A number from 0 up to the weights before `count`, that sum left out, falls
/// into the share of one of the first `count` alternatives.
pub proof fn lemma_some_share_holds(choices: Seq<Choice>, number: int, count: int)
    requires
        0 <= count <= choices.len(),
        0 <= number < weight_before(choices, count),
    ensures
        selected(choices, number) matches Some(index) && selects(choices, number, index),
    decreases count,
{
    if number >= weight_before(choices, count - 1) {
        assert(selects(choices, number, count - 1));
    } else {
        lemma_some_share_holds(choices, number, count - 1);
    }
}

/// The alternative of `param` into whose share `number` falls: the value it
/// stands for and, for a composite one, the levels below it.
pub fn select_parameter(param: &Parameters, number: u8) -> (outcome: Result<
    (&Key, Option<&SimulationConfig>),
    ResolutionError,
>)
    ensures
        match outcome {
            Ok((value, next)) => {
                &&& selected(param@, number as int) matches Some(index)
                &&& value@ == param@[index].value
                &&& match next {
                    Some(levels) => param@[index].next == Some(levels@),
                    None => param@[index].next is None,
                }
            },
            Err(_) => selected(param@, number as int) is None,
        },
{
    let count = param.0.len();
    let mut left: u8 = number;
    let mut i: usize = 0;
    while i < count
        invariant
            count == param.0.entries().len(),
            i <= count,
            left == number - weight_before(param@, i as int),
        decreases count - i,
    {
        let weight = match param.0.value_at(i) {
            ParameterConfig::Percentage(weight) => *weight,
            ParameterConfig::Composite { percentage, .. } => *percentage,
        };
        if left < weight {
            proof {
                lemma_selected(param@, number as int, i as int);
            }
            let next = match param.0.value_at(i) {
                ParameterConfig::Percentage(_) => None,
                ParameterConfig::Composite { next, .. } => Some(next),
            };
            return Ok((param.0.key_at(i), next));
        }
        left = left - weight;
        i += 1;
    }
    proof {
        lemma_selected(param@, number as int, 0);
    }
    Err(ResolutionError::NoParameterFound)
}

/// Draws a number below 100 and chooses with it: see [`select_parameter`].
pub fn choose_parameter<'a, R: RandomSource>(param: &'a Parameters, source: &mut R) -> (outcome:
    Result<(&'a Key, Option<&'a SimulationConfig>), ResolutionError>)
    ensures
        one_percent_more(final(source).drawn(), old(source).drawn()),
        match outcome {
            Ok((value, next)) => {
                &&& selected(param@, final(source).drawn().last() as int) matches Some(index)
                &&& value@ == param@[index].value
                &&& match next {
                    Some(levels) => param@[index].next == Some(levels@),
                    None => param@[index].next is None,
                }
            },
            Err(_) => selected(param@, final(source).drawn().last() as int) is None,
        },
{
    let number = source.next_in_range(100);
    select_parameter(param, number)
}

/// How a walk over some parameters ended.
pub enum Walk {
    /// Every parameter met got a value. `used` counts the draws made.
    Sampled { sample: Map<Seq<char>, Seq<char>>, used: nat },
    /// A draw chose no alternative. `used` counts the draws made, that one
    /// included.
    Stuck { used: nat },
}

impl Walk {
    /// The number of draws made.
    pub open spec fn used(self) -> nat {
        match self {
            Walk::Sampled { used, .. } => used,
            Walk::Stuck { used } => used,
        }
    }
}

/// The number at index `at` of `draws`, and 0 where there is none.
pub open spec fn draw_at(draws: Seq<u8>, at: int) -> int {
    if 0 <= at < draws.len() {
        draws[at] as int
    } else {
        0
    }
}

/// The walk over the first `count` parameters of `levels`, in order, with the
/// numbers of `draws` from index `at` on. Each parameter takes one draw, and
/// the levels below the alternative chosen are walked before the next
/// parameter. A name met again gets the later value.
pub open spec fn walk(levels: Seq<Level>, count: int, draws: Seq<u8>, at: int) -> Walk
    decreases levels, count,
{
    if count <= 0 || count > levels.len() {
        Walk::Sampled { sample: Map::empty(), used: 0 }
    } else {
        match walk(levels, count - 1, draws, at) {
            Walk::Stuck { used } => Walk::Stuck { used },
            Walk::Sampled { sample, used } => match visit(levels[count - 1], draws, at + used) {
                Walk::Stuck { used: more } => Walk::Stuck { used: used + more },
                Walk::Sampled { sample: found, used: more } => Walk::Sampled {
                    sample: sample.union_prefer_right(found),
                    used: used + more,
                },
            },
        }
    }
}

/// The walk over one parameter: the draw at index `at` chooses among its
/// alternatives, and the levels below the one chosen are walked with the
/// draws that follow.
pub open spec fn visit(level: Level, draws: Seq<u8>, at: int) -> Walk
    decreases level, 0int,
{
    match selected(level.choices, draw_at(draws, at)) {
        None => Walk::Stuck { used: 1 },
        Some(index) => {
            let own = Map::<Seq<char>, Seq<char>>::empty().insert(
                level.name,
                level.choices[index].value,
            );
            match level.choices[index].next {
                None => Walk::Sampled { sample: own, used: 1 },
                Some(levels) => match walk(levels, levels.len() as int, draws, at + 1) {
                    Walk::Stuck { used } => Walk::Stuck { used: used + 1 },
                    Walk::Sampled { sample, used } => Walk::Sampled {
                        sample: own.union_prefer_right(sample),
                        used: used + 1,
                    },
                },
            }
        },
    }
}

/// The sample that the tree gives with these draws, from the first on.
pub open spec fn sample_of(levels: Seq<Level>, draws: Seq<u8>) -> Walk {
    walk(levels, levels.len() as int, draws, 0)
}

/// Whether every number of `draws` from index `from` on is below 100.
pub open spec fn percents_from(draws: Seq<u8>, from: int) -> bool {
    forall|i: int| from <= i < draws.len() ==> draws[i] < 100
}

/// Whether `outcome` is what the walk `expected` asks for, and `used` the
/// number of draws that it made.
pub open spec fn agrees(
    expected: Walk,
    outcome: Result<KeyMap<Key>, ResolutionError>,
    used: int,
) -> bool {
    &&& expected.used() == used
    &&& match expected {
        Walk::Sampled { sample, .. } => outcome matches Ok(found) && found@ == sample,
        Walk::Stuck { .. } => outcome is Err,
    }
}

/// A walk depends on the draws that it makes only: with more draws behind
/// them it ends in the same way.
pub proof fn lemma_walk_reads_its_draws(
    levels: Seq<Level>,
    count: int,
    shorter: Seq<u8>,
    longer: Seq<u8>,
    at: int,
)
    requires
        extends(longer, shorter),
        0 <= at,
        at + walk(levels, count, shorter, at).used() <= shorter.len(),
    ensures
        walk(levels, count, longer, at) == walk(levels, count, shorter, at),
    decreases levels, count,
{
    if 0 < count <= levels.len() {
        lemma_walk_reads_its_draws(levels, count - 1, shorter, longer, at);
        match walk(levels, count - 1, shorter, at) {
            Walk::Sampled { used, .. } => {
                lemma_visit_reads_its_draws(levels[count - 1], shorter, longer, at + used);
            },
            Walk::Stuck { .. } => {},
        }
    }
}

/// The same for the walk over one parameter.
pub proof fn lemma_visit_reads_its_draws(level: Level, shorter: Seq<u8>, longer: Seq<u8>, at: int)
    requires
        extends(longer, shorter),
        0 <= at,
        at + visit(level, shorter, at).used() <= shorter.len(),
    ensures
        visit(level, longer, at) == visit(level, shorter, at),
    decreases level, 0int,
{
    match selected(level.choices, draw_at(shorter, at)) {
        None => {},
        Some(index) => {
            match level.choices[index].next {
                None => {},
                Some(levels) => {
                    lemma_walk_reads_its_draws(
                        levels,
                        levels.len() as int,
                        shorter,
                        longer,
                        at + 1,
                    );
                },
            }
        },
    }
}

/// Once a walk is stuck, the parameters behind are not looked at.
pub proof fn lemma_stuck_stays(levels: Seq<Level>, reached: int, count: int, draws: Seq<u8>, at: int)
    requires
        0 <= reached <= count <= levels.len(),
        walk(levels, reached, draws, at) is Stuck,
    ensures
        walk(levels, count, draws, at) == walk(levels, reached, draws, at),
    decreases count - reached,
{
    if reached < count {
        lemma_stuck_stays(levels, reached, count - 1, draws, at);
    }
}

/// In a tree whose weights sum to 100 everywhere, draws below 100 always
/// choose: the walk is never stuck.
pub proof fn lemma_balanced_never_stuck(levels: Seq<Level>, count: int, draws: Seq<u8>, at: int)
    requires
        balanced(levels),
        0 <= count <= levels.len(),
        0 <= at,
        percents_from(draws, at),
    ensures
        walk(levels, count, draws, at) is Sampled,
    decreases levels, count,
{
    if count > 0 {
        lemma_balanced_never_stuck(levels, count - 1, draws, at);
        let used = walk(levels, count - 1, draws, at).used();
        lemma_visit_never_stuck(levels[count - 1], draws, at + used);
    }
}

/// The same for the walk over one parameter.
pub proof fn lemma_visit_never_stuck(level: Level, draws: Seq<u8>, at: int)
    requires
        choices_balanced(level.choices),
        0 <= at,
        percents_from(draws, at),
    ensures
        visit(level, draws, at) is Sampled,
    decreases level, 0int,
{
    lemma_some_share_holds(level.choices, draw_at(draws, at), level.choices.len() as int);
    let index = selected(level.choices, draw_at(draws, at)).unwrap();
    if let Some(levels) = level.choices[index].next {
        lemma_balanced_never_stuck(levels, levels.len() as int, draws, at + 1);
    }
}

/// Puts every entry of `nested` into `sample`, over what is there under the
/// same name.
fn merge(sample: &mut KeyMap<Key>, nested: &KeyMap<Key>)
    ensures
        final(sample)@ == old(sample)@.union_prefer_right(nested@),
{
    nested.names_unique();
    let count = nested.len();
    let mut j: usize = 0;
    while j < count
        invariant
            count == nested.entries().len(),
            j <= count,
            nested.names().no_duplicates(),
            forall|name: Seq<char>|
                sample@.dom().contains(name) <==> old(sample)@.dom().contains(name) || exists|
                    k: int,
                |
                    0 <= k < j && nested.names()[k] == name,
            forall|k: int| 0 <= k < j ==> sample@[#[trigger] nested.names()[k]] == nested.values()[k]@,
            forall|name: Seq<char>|
                old(sample)@.dom().contains(name) && (forall|k: int|
                    0 <= k < j ==> nested.names()[k] != name) ==> sample@[name] == old(
                    sample,
                )@[name],
        decreases count - j,
    {
        let ghost before = sample@;
        let key = nested.key_at(j).clone();
        let value = nested.value_at(j).clone();
        sample.insert(key, value);
        assert(sample@ =~= before.insert(nested.names()[j as int], nested.values()[j as int]@));
        j += 1;
    }
    proof {
        assert forall|name: Seq<char>| nested@.dom().contains(name) implies sample@[name]
            == nested@[name] by {
            let k = nested.names().index_of(name);
            assert(nested.names()[k] == name);
        }
        assert(sample@ =~= old(sample)@.union_prefer_right(nested@));
    }
}

/// Walks the parameters of `config` in order: each gets the value of the
/// alternative that a fresh draw chooses, and the levels below that
/// alternative are walked before the next parameter. Fails at the first draw
/// that chooses nothing.
pub fn list_parameters<R: RandomSource>(config: &SimulationConfig, source: &mut R) -> (outcome:
    Result<KeyMap<Key>, ResolutionError>)
    ensures
        extends(final(source).drawn(), old(source).drawn()),
        percents_from(final(source).drawn(), old(source).drawn().len() as int),
        agrees(
            walk(
                config@,
                config@.len() as int,
                final(source).drawn(),
                old(source).drawn().len() as int,
            ),
            outcome,
            final(source).drawn().len() - old(source).drawn().len(),
        ),
        balanced(config@) ==> outcome is Ok,
    decreases config@,
{
    let ghost start = source.drawn().len() as int;
    let count = config.0.len();
    let mut sample: KeyMap<Key> = KeyMap::new();
    assert(sample@ =~= Map::empty());
    let mut i: usize = 0;
    while i < count
        invariant
            count == config.0.entries().len(),
            i <= count,
            start == old(source).drawn().len(),
            extends(source.drawn(), old(source).drawn()),
            percents_from(source.drawn(), start),
            walk(config@, i as int, source.drawn(), start) == (Walk::Sampled {
                sample: sample@,
                used: (source.drawn().len() - start) as nat,
            }),
        decreases count - i,
    {
        let ghost before = source.drawn();
        let ghost earlier = sample@;
        let key = config.0.key_at(i);
        let param = config.0.value_at(i);
        assert(config@[i as int].name == key@ && config@[i as int].choices == param@);
        let chosen = choose_parameter(param, source);
        let ghost drawn = source.drawn();
        assert(draw_at(drawn, before.len() as int) == drawn.last());
        match chosen {
            Err(error) => {
                proof {
                    lemma_walk_reads_its_draws(config@, i as int, before, drawn, start);
                    assert(visit(config@[i as int], drawn, before.len() as int) is Stuck);
                    lemma_stuck_stays(config@, i as int + 1, count as int, drawn, start);
                    if balanced(config@) {
                        lemma_balanced_never_stuck(config@, count as int, drawn, start);
                    }
                }
                return Err(error);
            },
            Ok((value, next)) => {
                let ghost index = selected(param@, drawn.last() as int).unwrap();
                let ghost own = Map::<Seq<char>, Seq<char>>::empty().insert(key@, value@);
                sample.insert(key.clone(), value.clone());
                assert(sample@ =~= earlier.union_prefer_right(own));
                match next {
                    None => {
                        proof {
                            lemma_walk_reads_its_draws(config@, i as int, before, drawn, start);
                        }
                    },
                    Some(levels) => {
                        let below = list_parameters(levels, source);
                        proof {
                            let after = source.drawn();
                            let inner = walk(
                                levels@,
                                levels@.len() as int,
                                after,
                                before.len() as int + 1,
                            );
                            lemma_walk_reads_its_draws(config@, i as int, before, after, start);
                            assert(draw_at(after, before.len() as int) == drawn.last());
                            assert(config@[i as int].choices[index].next == Some(levels@));
                            assert(visit(config@[i as int], after, before.len() as int) == match inner {
                                Walk::Stuck { used } => Walk::Stuck { used: used + 1 },
                                Walk::Sampled { sample, used } => Walk::Sampled {
                                    sample: own.union_prefer_right(sample),
                                    used: used + 1,
                                },
                            });
                        }
                        match below {
                            Err(error) => {
                                proof {
                                    lemma_stuck_stays(
                                        config@,
                                        i as int + 1,
                                        count as int,
                                        source.drawn(),
                                        start,
                                    );
                                }
                                return Err(error);
                            },
                            Ok(nested) => {
                                merge(&mut sample, &nested);
                                assert(sample@ =~= earlier.union_prefer_right(
                                    own.union_prefer_right(nested@),
                                ));
                            },
                        }
                    },
                }
            },
        }
        i += 1;
    }
    Ok(sample)
}

/// Draws a sample from the tree with the numbers that `source` hands out.
/// A tree that validation accepts always gives one.
pub fn generate_sample_with<R: RandomSource>(config: &UserSimulationConfig, source: &mut R) -> (outcome:
    Result<KeyMap<Key>, ResolutionError>)
    ensures
        extends(final(source).drawn(), old(source).drawn()),
        percents_from(final(source).drawn(), old(source).drawn().len() as int),
        agrees(
            walk(
                config.parameters@,
                config.parameters@.len() as int,
                final(source).drawn(),
                old(source).drawn().len() as int,
            ),
            outcome,
            final(source).drawn().len() - old(source).drawn().len(),
        ),
        balanced(config.parameters@) ==> outcome is Ok,
{
    list_parameters(&config.parameters, source)
}

/// Draws a sample from the tree with the random generator of the calling
/// thread: the outcome is the one that some sequence of numbers below 100
/// gives, all of which were drawn. A tree that validation accepts always
/// gives a sample.
pub fn generate_sample(config: &UserSimulationConfig) -> (outcome: Result<
    KeyMap<Key>,
    ResolutionError,
>)
    ensures
        exists|draws: Seq<u8>|
            percents_from(draws, 0) && agrees(
                #[trigger] sample_of(config.parameters@, draws),
                outcome,
                draws.len() as int,
            ),
        balanced(config.parameters@) ==> outcome is Ok,
{
    let mut source = ThreadRandom::new();
    let outcome = generate_sample_with(config, &mut source);
    assert(agrees(sample_of(config.parameters@, source.drawn()), outcome, source.drawn().len() as int));
    outcome
}

/// Whether somewhere in the tree a parameter named `name` has an alternative
/// that stands for `value`.
pub open spec fn declares(levels: Seq<Level>, name: Seq<char>, value: Seq<char>) -> bool
    decreases levels, 1int,
{
    exists|i: int| 0 <= i < levels.len() && level_declares(#[trigger] levels[i], name, value)
}

/// The same for one parameter and what lies below its alternatives.
pub open spec fn level_declares(level: Level, name: Seq<char>, value: Seq<char>) -> bool
    decreases level, 0int,
{
    exists|j: int|
        0 <= j < level.choices.len() && choice_declares(
            level.name,
            #[trigger] level.choices[j],
            name,
            value,
        )
}

/// The same for one alternative of the parameter `of`.
pub open spec fn choice_declares(
    of: Seq<char>,
    choice: Choice,
    name: Seq<char>,
    value: Seq<char>,
) -> bool
    decreases choice, 0int,
{
    ||| of == name && choice.value == value
    ||| match choice.next {
        Some(levels) => declares(levels, name, value),
        None => false,
    }
}

proof fn lemma_walk_declared(levels: Seq<Level>, count: int, draws: Seq<u8>, at: int)
    requires
        0 <= count <= levels.len(),
    ensures
        walk(levels, count, draws, at) matches Walk::Sampled { sample, .. } ==> {
            &&& forall|i: int| 0 <= i < count ==> sample.dom().contains(#[trigger] levels[i].name)
            &&& forall|name: Seq<char>| #[trigger]
                sample.dom().contains(name) ==> declares(levels, name, sample[name])
        },
    decreases levels, count,
{
    if count > 0 {
        lemma_walk_declared(levels, count - 1, draws, at);
        if let Walk::Sampled { sample: earlier, used } = walk(levels, count - 1, draws, at) {
            lemma_visit_declared(levels[count - 1], draws, at + used);
            if let Walk::Sampled { sample: found, .. } = visit(levels[count - 1], draws, at + used) {
                let sample = earlier.union_prefer_right(found);
                assert forall|name: Seq<char>| #[trigger]
                    sample.dom().contains(name) implies declares(levels, name, sample[name]) by {
                    if found.dom().contains(name) {
                        assert(level_declares(levels[count - 1], name, found[name]));
                    }
                }
            }
        }
    }
}

proof fn lemma_visit_declared(level: Level, draws: Seq<u8>, at: int)
    ensures
        visit(level, draws, at) matches Walk::Sampled { sample, .. } ==> {
            &&& sample.dom().contains(level.name)
            &&& forall|name: Seq<char>| #[trigger]
                sample.dom().contains(name) ==> level_declares(level, name, sample[name])
        },
    decreases level, 0int,
{
    if let Some(index) = selected(level.choices, draw_at(draws, at)) {
        let choice = level.choices[index];
        if let Some(levels) = choice.next {
            lemma_walk_declared(levels, levels.len() as int, draws, at + 1);
        }
        if let Walk::Sampled { sample, .. } = visit(level, draws, at) {
            assert forall|name: Seq<char>| #[trigger]
                sample.dom().contains(name) implies level_declares(level, name, sample[name]) by {
                assert(choice_declares(level.name, level.choices[index], name, sample[name]));
            }
        }
    }
}

/// Whatever the draws, a sample holds every parameter of the first level, and
/// the value under each name in it is one that the tree declares for a
/// parameter of that name.
pub proof fn lemma_sample_is_declared(levels: Seq<Level>, draws: Seq<u8>)
    ensures
        sample_of(levels, draws) matches Walk::Sampled { sample, .. } ==> {
            &&& forall|i: int|
                0 <= i < levels.len() ==> sample.dom().contains(#[trigger] levels[i].name)
            &&& forall|name: Seq<char>| #[trigger]
                sample.dom().contains(name) ==> declares(levels, name, sample[name])
        },
{
    lemma_walk_declared(levels, levels.len() as int, draws, 0);
}

} // verus!
