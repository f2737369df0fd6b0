//! The configuration as the simulations read it, its view for the contracts,
//! and its validation.

use crate::types::balance::balanced;
use crate::types::balance::choices_balanced;
use crate::types::balance::choices_mismatch;
use crate::types::balance::lemma_accepted_iff_balanced;
use crate::types::balance::lemma_choices_mismatch_none;
use crate::types::balance::levels_mismatch;
use crate::types::balance::nested_mismatch;
use crate::types::balance::weight_before;
use crate::types::balance::Mismatch;
use crate::types::keymap::KeyMap;
use vstd::prelude::*;

verus! {

/// The outcome of a connector for one request.
#[derive(Debug, Clone, Copy, PartialEq, Eq, Structural)]
pub enum Status {
    Success,
    Failure,
}

/// A case-sensitive identifier, used both as the name of a parameter and as
/// one of its values.
#[derive(Debug, Hash)]
pub struct Key(pub String);

impl View for Key {
    type V = Seq<char>;

    open spec fn view(&self) -> Seq<char> {
        self.0@
    }
}

impl Clone for Key {
    fn clone(&self) -> (copy: Self)
        ensures
            copy@ == self@,
    {
        Key(self.0.clone())
    }
}

impl PartialEq for Key {
    fn eq(&self, other: &Self) -> (same: bool) {
        self.0 == other.0
    }
}

impl Eq for Key {

}

impl vstd::std_specs::cmp::PartialEqSpecImpl for Key {
    open spec fn obeys_eq_spec() -> bool {
        true
    }

    open spec fn eq_spec(&self, other: &Self) -> bool {
        self@ == other@
    }
}

/// One level of choice: each named parameter with the alternatives among
/// which its value is drawn.
#[derive(Debug)]
pub struct SimulationConfig(pub KeyMap<Parameters>);

/// The tree of choices that a simulated user walks.
#[derive(Debug)]
pub struct UserSimulationConfig {
    pub parameters: SimulationConfig,
}

/// The weighted alternatives of one parameter, each under the value it stands
/// for.
#[derive(Debug)]
pub struct Parameters(pub KeyMap<ParameterConfig>);

/// One weighted alternative.
#[derive(Debug)]
pub enum ParameterConfig {
    /// A final choice with its weight in percent.
    Percentage(u8),
    /// A choice with its weight in percent which, once taken, asks for the
    /// parameters of `next` to be drawn too.
    Composite { percentage: u8, next: SimulationConfig },
}

/// What a rule asks of one parameter of a request.
#[derive(Debug)]
pub enum Possible {
    /// The parameter has this value.
    Value(Key),
    /// The parameter has some value, whichever: written `*`.
    Any,
}

/// What a [`Possible`] looks like to the contracts.
pub enum Expected {
    Value(Seq<char>),
    Any,
}

impl View for Possible {
    type V = Expected;

    open spec fn view(&self) -> Expected {
        match self {
            Possible::Value(key) => Expected::Value(key@),
            Possible::Any => Expected::Any,
        }
    }
}

/// Whether two expectations go together: `Any` goes with everything, itself
/// included, and two values go together when they are the same.
pub open spec fn agree(one: Expected, other: Expected) -> bool {
    one is Any || other is Any || one == other
}

impl Possible {
    /// Reads an expectation as a rule writes it: `*` stands for any value,
    /// everything else for itself.
    pub fn parse(text: String) -> (read: Possible)
        ensures
            read@ == if text@ == seq!['*'] {
                Expected::Any
            } else {
                Expected::Value(text@)
            },
    {
        let star = String::from_str("*");
        proof {
            reveal_strlit("*");
            assert(star@ =~= seq!['*']);
        }
        if text == star {
            Possible::Any
        } else {
            Possible::Value(Key(text))
        }
    }

    /// Compares two expectations: see [`agree`].
    pub fn matches(&self, other: &Possible) -> (same: bool)
        ensures
            same == agree(self@, other@),
    {
        match (self, other) {
            (Possible::Any, _) => true,
            (_, Possible::Any) => true,
            (Possible::Value(one), Possible::Value(other)) => one == other,
        }
    }
}

/// The rule of one connector: what it asks of the parameters of a request,
/// and the chance in percent that a request which meets it succeeds.
#[derive(Debug)]
pub struct PspVariant {
    pub key: KeyMap<Possible>,
    pub sr: u8,
}

/// What a [`PspVariant`] looks like to the contracts.
pub struct Rule {
    pub key: Map<Seq<char>, Expected>,
    pub sr: u8,
}

impl View for PspVariant {
    type V = Rule;

    open spec fn view(&self) -> Rule {
        Rule { key: self.key@, sr: self.sr }
    }
}

/// The rules of the connectors, each under its connector's name, and the
/// outcome of a request that meets none.
#[derive(Debug)]
pub struct PspSimulationConfig {
    pub config: KeyMap<PspVariant>,
    pub otherwise: Status,
}

/// What a [`PspSimulationConfig`] looks like to the contracts: the rules in
/// order, each with the name of its connector.
pub struct RuleTable {
    pub rules: Seq<(Seq<char>, Rule)>,
    pub otherwise: Status,
}

impl View for PspSimulationConfig {
    type V = RuleTable;

    open spec fn view(&self) -> RuleTable {
        RuleTable {
            rules: Seq::new(
                self.config.entries().len(),
                |i: int| (self.config.names()[i], self.config.values()[i]@),
            ),
            otherwise: self.otherwise,
        }
    }
}

/// The whole configuration: the user's side and the connectors' side.
#[derive(Debug)]
pub struct Config {
    pub user: UserSimulationConfig,
    pub psp: PspSimulationConfig,
}

/// What a parameter of a level looks like to the contracts: its name and its
/// alternatives in order.
pub struct Level {
    pub name: Seq<char>,
    pub choices: Seq<Choice>,
}

/// What an alternative looks like to the contracts: the value it stands for,
/// its weight, and the levels below it where it has any.
pub struct Choice {
    pub value: Seq<char>,
    pub weight: u8,
    pub next: Option<Seq<Level>>,
}

/// The levels that a list of entries stands for.
pub open spec fn levels_of(entries: Seq<(Key, Parameters)>) -> Seq<Level>
    decreases entries, 0int,
{
    Seq::new(
        entries.len(),
        |i: int|
            if 0 <= i < entries.len() {
                Level { name: entries[i].0@, choices: entries[i].1.view() }
            } else {
                arbitrary()
            },
    )
}

/// The alternatives that a list of entries stands for.
pub open spec fn choices_of(entries: Seq<(Key, ParameterConfig)>) -> Seq<Choice>
    decreases entries, 0int,
{
    Seq::new(
        entries.len(),
        |i: int|
            if 0 <= i < entries.len() {
                entries[i].1.as_choice(entries[i].0@)
            } else {
                arbitrary()
            },
    )
}

impl SimulationConfig {
    pub open spec fn view(&self) -> Seq<Level>
        decreases self, 1int,
    {
        proof {
            self.0.lemma_entries_decrease();
        }
        levels_of(self.0.entries())
    }
}

impl Parameters {
    pub open spec fn view(&self) -> Seq<Choice>
        decreases self, 1int,
    {
        proof {
            self.0.lemma_entries_decrease();
        }
        choices_of(self.0.entries())
    }
}

impl core::ops::Deref for SimulationConfig {
    type Target = KeyMap<Parameters>;

    fn deref(&self) -> (map: &KeyMap<Parameters>)
        ensures
            *map == self.0,
    {
        &self.0
    }
}

impl core::ops::Deref for Parameters {
    type Target = KeyMap<ParameterConfig>;

    fn deref(&self) -> (map: &KeyMap<ParameterConfig>)
        ensures
            *map == self.0,
    {
        &self.0
    }
}

impl core::ops::Deref for PspSimulationConfig {
    type Target = KeyMap<PspVariant>;

    fn deref(&self) -> (map: &KeyMap<PspVariant>)
        ensures
            *map == self.config,
    {
        &self.config
    }
}

impl ParameterConfig {
    /// The alternative that this configuration is under the value `value`.
    pub open spec fn as_choice(&self, value: Seq<char>) -> Choice
        decreases self, 0int,
    {
        match self {
            ParameterConfig::Percentage(weight) => Choice { value, weight: *weight, next: None },
            ParameterConfig::Composite { percentage, next } => Choice {
                value,
                weight: *percentage,
                next: Some(next.view()),
            },
        }
    }
}

/// Why a configuration was turned down.
#[derive(Debug)]
pub enum ConfigError {
    /// The weights of the alternatives of one parameter sum to `total`, not to
    /// 100. `path` names the parameters that lead to it, outermost first.
    PercentageMismatch { path: Vec<Key>, total: u128 },
    /// The configuration document could not be read as one.
    ParseFailure,
}

/// The names of a list of keys, in order.
pub open spec fn names_of_keys(keys: Seq<Key>) -> Seq<Seq<char>> {
    Seq::new(keys.len(), |i: int| keys[i]@)
}

impl ConfigError {
    /// Whether this error reports exactly the mismatch `found`.
    pub open spec fn reports(&self, found: Mismatch) -> bool {
        match self {
            ConfigError::PercentageMismatch { path, total } => names_of_keys(path@) == found.path
                && *total == found.total,
            ConfigError::ParseFailure => false,
        }
    }
}

/// The text that tells of a mismatch at the end of `path`.
pub open spec fn mismatch_message(path: Seq<Seq<char>>) -> Seq<char>
    decreases path.len(),
{
    if path.len() == 0 {
        "Total percentage must be 100"@
    } else {
        "validation failed for: "@ + path[0] + ": "@ + mismatch_message(path.skip(1))
    }
}

impl ConfigError {
    /// The error in words: for a mismatch, the parameters on the way to it,
    /// outermost first, and what is wrong there.
    pub fn message(&self) -> (text: String)
        ensures
            text@ == match self {
                ConfigError::PercentageMismatch { path, .. } => mismatch_message(
                    names_of_keys(path@),
                ),
                ConfigError::ParseFailure => "Failed to parse config file"@,
            },
    {
        match self {
            ConfigError::PercentageMismatch { path, .. } => {
                let ghost names = names_of_keys(path@);
                let mut text = String::new();
                let mut i: usize = 0;
                assert(names.skip(0) =~= names);
                while i < path.len()
                    invariant
                        i <= path.len(),
                        names == names_of_keys(path@),
                        mismatch_message(names) == text@ + mismatch_message(names.skip(i as int)),
                    decreases path.len() - i,
                {
                    let ghost before = text@;
                    text.append("validation failed for: ");
                    text.append(path[i].0.as_str());
                    text.append(": ");
                    proof {
                        let rest = names.skip(i as int);
                        assert(rest[0] == path@[i as int]@);
                        assert(rest.skip(1) =~= names.skip(i as int + 1));
                        assert(text@ + mismatch_message(names.skip(i as int + 1)) =~= before
                            + mismatch_message(rest));
                    }
                    i += 1;
                }
                text.append("Total percentage must be 100");
                text
            },
            ConfigError::ParseFailure => String::from_str("Failed to parse config file"),
        }
    }

    /// The same error seen from one level further out: `name` is put in front
    /// of the path.
    pub fn within(self, name: &Key) -> (outer: ConfigError)
        ensures
            match self {
                ConfigError::PercentageMismatch { path, total } => outer
                    matches ConfigError::PercentageMismatch { path: outer_path, total: outer_total }
                    && names_of_keys(outer_path@) == seq![name@] + names_of_keys(path@)
                    && outer_total == total,
                ConfigError::ParseFailure => outer is ParseFailure,
            },
    {
        match self {
            ConfigError::PercentageMismatch { path, total } => {
                let mut path = path;
                let ghost inner = path@;
                path.insert(0, name.clone());
                assert(names_of_keys(path@) =~= seq![name@] + names_of_keys(inner));
                ConfigError::PercentageMismatch { path, total }
            },
            ConfigError::ParseFailure => ConfigError::ParseFailure,
        }
    }
}

impl Parameters {
    /// Checks that the weights sum to 100 here and in every set of
    /// alternatives below. The first set met that fails is reported, those
    /// below an alternative before this one.
    pub fn validate(&self) -> (outcome: Result<(), ConfigError>)
        ensures
            outcome is Ok <==> choices_balanced(self@),
            outcome is Ok <==> choices_mismatch(self@) is None,
            outcome matches Err(error) ==> error.reports(choices_mismatch(self@).unwrap()),
        decreases self@,
    {
        proof {
            lemma_choices_mismatch_none(self@);
        }
        let count = self.0.len();
        let mut total: u128 = 0;
        let mut i: usize = 0;
        while i < count
            invariant
                count == self.0.entries().len(),
                i <= count,
                total == weight_before(self@, i as int),
                total <= 255 * i,
                nested_mismatch(self@, 0) == nested_mismatch(self@, i as int),
            decreases count - i,
        {
            match self.0.value_at(i) {
                ParameterConfig::Percentage(weight) => {
                    total = total + *weight as u128;
                },
                ParameterConfig::Composite { percentage, next } => {
                    total = total + *percentage as u128;
                    match next.validate() {
                        Ok(_) => {},
                        Err(error) => {
                            return Err(error);
                        },
                    }
                },
            }
            i += 1;
        }
        if total != 100 {
            let path: Vec<Key> = Vec::new();
            assert(names_of_keys(path@) =~= Seq::empty());
            Err(ConfigError::PercentageMismatch { path, total })
        } else {
            Ok(())
        }
    }
}

impl SimulationConfig {
    /// Checks every parameter of this level with [`Parameters::validate`], in
    /// order, and reports the first failure under the parameter's name.
    pub fn validate(&self) -> (outcome: Result<(), ConfigError>)
        ensures
            outcome is Ok <==> balanced(self@),
            outcome is Ok <==> levels_mismatch(self@, 0) is None,
            outcome matches Err(error) ==> error.reports(levels_mismatch(self@, 0).unwrap()),
        decreases self@,
    {
        proof {
            lemma_accepted_iff_balanced(self@);
        }
        let count = self.0.len();
        let mut i: usize = 0;
        while i < count
            invariant
                count == self.0.entries().len(),
                i <= count,
                levels_mismatch(self@, 0) == levels_mismatch(self@, i as int),
            decreases count - i,
        {
            match self.0.value_at(i).validate() {
                Ok(_) => {},
                Err(error) => {
                    return Err(error.within(self.0.key_at(i)));
                },
            }
            i += 1;
        }
        Ok(())
    }
}

impl UserSimulationConfig {
    /// Checks the whole tree: see [`SimulationConfig::validate`].
    pub fn validate(&self) -> (outcome: Result<(), ConfigError>)
        ensures
            outcome is Ok <==> balanced(self.parameters@),
            outcome is Ok <==> levels_mismatch(self.parameters@, 0) is None,
            outcome matches Err(error) ==> error.reports(
                levels_mismatch(self.parameters@, 0).unwrap(),
            ),
    {
        self.parameters.validate()
    }
}

} // verus!
