//! The settings of a run: defaults, environment variables, command-line options and
//! the rules that the result must obey.
use vstd::arithmetic::power2::is_pow2;
use vstd::prelude::*;

use crate::lattice::is_power_of_two;
use crate::text::{parse_unsigned, read_unsigned, same_text, IntegerError};

verus! {

/// One word of the command line.
#[derive(Debug)]
pub struct Word {
    pub text: String,
    /// The bits of the single-precision number that the text denotes, if any.
    pub float_bits: Option<u32>,
}

/// The environment variables that are set.
#[derive(Debug)]
pub struct Environment {
    /// `LBM_N`
    pub n: Option<String>,
    /// `LBM_WARMUP`
    pub warmup: Option<String>,
    /// `LBM_STEPS`
    pub steps: Option<String>,
    /// `LBM_DEVICE`
    pub device: Option<String>,
    /// `LBM_BLOCK`
    pub block: Option<String>,
    /// `LBM_RESULT`
    pub result: Option<String>,
    /// `LBM_MARKERS`
    pub markers: Option<String>,
    /// `LBM_POWER`
    pub power: Option<String>,
}

/// The settings of a run.
#[derive(Debug)]
pub struct Args {
    /// Edge of the lattice.
    pub n: usize,
    /// Steps before the measurement.
    pub warmup: usize,
    /// Steps of the measurement.
    pub steps: usize,
    pub device: usize,
    /// Threads per block.
    pub block: u32,
    /// Relaxation rate, as the bits of a single-precision number.
    pub omega_bits: u32,
    /// Initial velocity, as the bits of a single-precision number.
    pub u0_bits: u32,
    /// Path of the report.
    pub result: String,
    /// Path of the markers.
    pub markers: String,
    /// Path of the power trace.
    pub power: String,
    /// Length of an idle trace; zero for a run of the solver.
    pub idle_seconds: u64,
    /// Whether the result is compared with the host reference.
    pub cpu_parity: bool,
}

/// Why the settings are refused.
#[derive(Debug)]
pub enum ArgsError {
    /// The last option has no value.
    MissingValue(String),
    /// There is no such option.
    UnknownArgument(String),
    /// A value is not an integer of its type.
    Integer(IntegerError),
    /// A value that should be a floating-point number is empty.
    EmptyFloat,
    /// A value is not a floating-point number.
    InvalidFloat,
    /// The edge is not a power of two.
    Edge,
    /// There is neither a step nor an idle trace to measure.
    Steps,
    /// The block size is not one of those that are tuned for.
    Block,
    /// The lattice is too large for the host reference.
    Parity,
}

/// The settings as a mathematical value.
pub ghost struct Settings {
    pub n: nat,
    pub warmup: nat,
    pub steps: nat,
    pub device: nat,
    pub block: nat,
    pub omega_bits: u32,
    pub u0_bits: u32,
    pub result: Seq<char>,
    pub markers: Seq<char>,
    pub power: Seq<char>,
    pub idle_seconds: nat,
    pub cpu_parity: bool,
}

/// A refusal as a mathematical value.
pub ghost enum Refusal {
    MissingValue(Seq<char>),
    UnknownArgument(Seq<char>),
    Integer(IntegerError),
    EmptyFloat,
    InvalidFloat,
    Edge,
    Steps,
    Block,
    Parity,
}

impl View for Args {
    type V = Settings;

    open spec fn view(&self) -> Settings {
        Settings {
            n: self.n as nat,
            warmup: self.warmup as nat,
            steps: self.steps as nat,
            device: self.device as nat,
            block: self.block as nat,
            omega_bits: self.omega_bits,
            u0_bits: self.u0_bits,
            result: self.result@,
            markers: self.markers@,
            power: self.power@,
            idle_seconds: self.idle_seconds as nat,
            cpu_parity: self.cpu_parity,
        }
    }
}

impl View for ArgsError {
    type V = Refusal;

    open spec fn view(&self) -> Refusal {
        match self {
            ArgsError::MissingValue(key) => Refusal::MissingValue(key@),
            ArgsError::UnknownArgument(key) => Refusal::UnknownArgument(key@),
            ArgsError::Integer(e) => Refusal::Integer(*e),
            ArgsError::EmptyFloat => Refusal::EmptyFloat,
            ArgsError::InvalidFloat => Refusal::InvalidFloat,
            ArgsError::Edge => Refusal::Edge,
            ArgsError::Steps => Refusal::Steps,
            ArgsError::Block => Refusal::Block,
            ArgsError::Parity => Refusal::Parity,
        }
    }
}

/// The result of a function on settings, as a mathematical value.
pub open spec fn outcome(r: Result<Args, ArgsError>) -> Result<Settings, Refusal> {
    match r {
        Ok(args) => Ok(args@),
        Err(e) => Err(e@),
    }
}

/// The settings that hold where nothing else is said: omega is 1.0 and u0 is 0.03.
pub open spec fn default_settings() -> Settings {
    Settings {
        n: 128,
        warmup: 20,
        steps: 1000,
        device: 0,
        block: 256,
        omega_bits: 0x3f80_0000,
        u0_bits: 0x3cf5_c28f,
        result: "cuda-lbm.json"@,
        markers: "cuda-lbm.markers.json"@,
        power: "cuda-lbm.power.csv"@,
        idle_seconds: 0,
        cpu_parity: false,
    }
}

impl Default for Args {
    fn default() -> (r: Self)
        ensures
            r@ == default_settings(),
            r.n == 128 && r.warmup == 20 && r.steps == 1000 && r.device == 0 && r.block == 256,
            r.idle_seconds == 0 && !r.cpu_parity,
    {
        Args {
            n: 128,
            warmup: 20,
            steps: 1000,
            device: 0,
            block: 256,
            omega_bits: 0x3f80_0000,
            u0_bits: 0x3cf5_c28f,
            result: "cuda-lbm.json".to_owned(),
            markers: "cuda-lbm.markers.json".to_owned(),
            power: "cuda-lbm.power.csv".to_owned(),
            idle_seconds: 0,
            cpu_parity: false,
        }
    }
}

/// A value as an unsigned integer of at most `max`.
pub open spec fn integer(text: Seq<char>, max: nat) -> Result<nat, Refusal> {
    match read_unsigned(text, max) {
        Ok(v) => Ok(v),
        Err(e) => Err(Refusal::Integer(e)),
    }
}

/// A value as the bits of a floating-point number.
pub open spec fn float(text: Seq<char>, bits: Option<u32>) -> Result<u32, Refusal> {
    match bits {
        Some(b) => Ok(b),
        None => if text.len() == 0 {
            Err(Refusal::EmptyFloat)
        } else {
            Err(Refusal::InvalidFloat)
        },
    }
}

/// The settings after the option `key` with a value.
pub open spec fn with_option(
    a: Settings,
    key: Seq<char>,
    text: Seq<char>,
    bits: Option<u32>,
) -> Result<Settings, Refusal> {
    if key == "--n"@ {
        match integer(text, usize::MAX as nat) {
            Ok(v) => Ok(Settings { n: v, ..a }),
            Err(e) => Err(e),
        }
    } else if key == "--warmup"@ {
        match integer(text, usize::MAX as nat) {
            Ok(v) => Ok(Settings { warmup: v, ..a }),
            Err(e) => Err(e),
        }
    } else if key == "--steps"@ {
        match integer(text, usize::MAX as nat) {
            Ok(v) => Ok(Settings { steps: v, ..a }),
            Err(e) => Err(e),
        }
    } else if key == "--device"@ {
        match integer(text, usize::MAX as nat) {
            Ok(v) => Ok(Settings { device: v, ..a }),
            Err(e) => Err(e),
        }
    } else if key == "--block"@ {
        match integer(text, u32::MAX as nat) {
            Ok(v) => Ok(Settings { block: v, ..a }),
            Err(e) => Err(e),
        }
    } else if key == "--omega"@ {
        match float(text, bits) {
            Ok(v) => Ok(Settings { omega_bits: v, ..a }),
            Err(e) => Err(e),
        }
    } else if key == "--u0"@ {
        match float(text, bits) {
            Ok(v) => Ok(Settings { u0_bits: v, ..a }),
            Err(e) => Err(e),
        }
    } else if key == "--result"@ {
        Ok(Settings { result: text, ..a })
    } else if key == "--markers"@ {
        Ok(Settings { markers: text, ..a })
    } else if key == "--power"@ {
        Ok(Settings { power: text, ..a })
    } else if key == "--idle-seconds"@ {
        match integer(text, u64::MAX as nat) {
            Ok(v) => Ok(Settings { idle_seconds: v, ..a }),
            Err(e) => Err(e),
        }
    } else {
        Err(Refusal::UnknownArgument(key))
    }
}

/// The settings after an environment variable, which acts like the option `key`
/// where it is set; a refusal from before stays.
pub open spec fn with_variable(
    a: Result<Settings, Refusal>,
    key: Seq<char>,
    value: Option<String>,
) -> Result<Settings, Refusal> {
    match a {
        Err(e) => Err(e),
        Ok(s) => match value {
            Some(text) => with_option(s, key, text@, None),
            None => Ok(s),
        },
    }
}

/// The settings after the environment variables, in their order.
pub open spec fn with_environment(a: Settings, env: Environment) -> Result<Settings, Refusal> {
    let a = with_variable(Ok(a), "--n"@, env.n);
    let a = with_variable(a, "--warmup"@, env.warmup);
    let a = with_variable(a, "--steps"@, env.steps);
    let a = with_variable(a, "--device"@, env.device);
    let a = with_variable(a, "--block"@, env.block);
    let a = with_variable(a, "--result"@, env.result);
    let a = with_variable(a, "--markers"@, env.markers);
    with_variable(a, "--power"@, env.power)
}

/// The settings after the words of the command line: a flag, or options with their
/// values.
pub open spec fn with_words(a: Settings, words: Seq<Word>) -> Result<Settings, Refusal>
    decreases words.len(),
{
    if words.len() == 0 {
        Ok(a)
    } else if words[0].text@ == "--cpu-parity"@ {
        with_words(Settings { cpu_parity: true, ..a }, words.skip(1))
    } else if words.len() == 1 {
        Err(Refusal::MissingValue(words[0].text@))
    } else {
        match with_option(a, words[0].text@, words[1].text@, words[1].float_bits) {
            Ok(b) => with_words(b, words.skip(2)),
            Err(e) => Err(e),
        }
    }
}

/// The first rule that the settings break.
pub open spec fn broken_rule(a: Settings) -> Option<Refusal> {
    if !is_pow2(a.n as int) {
        Some(Refusal::Edge)
    } else if a.steps == 0 && a.idle_seconds == 0 {
        Some(Refusal::Steps)
    } else if a.block != 128 && a.block != 256 && a.block != 512 {
        Some(Refusal::Block)
    } else if a.cpu_parity && a.n > 32 {
        Some(Refusal::Parity)
    } else {
        None
    }
}

/// The settings that an environment and a command line give.
pub open spec fn settings_of(env: Environment, words: Seq<Word>) -> Result<Settings, Refusal> {
    match with_environment(default_settings(), env) {
        Err(e) => Err(e),
        Ok(a) => match with_words(a, words) {
            Err(e) => Err(e),
            Ok(b) => match broken_rule(b) {
                Some(e) => Err(e),
                None => Ok(b),
            },
        },
    }
}

fn parse_usize(text: &str) -> (r: Result<usize, ArgsError>)
    ensures
        match r {
            Ok(v) => integer(text@, usize::MAX as nat) == Ok::<nat, Refusal>(v as nat),
            Err(e) => integer(text@, usize::MAX as nat) == Err::<nat, Refusal>(e@),
        },
{
    match parse_unsigned(text, usize::MAX as u64) {
        Ok(v) => Ok(v as usize),
        Err(e) => Err(ArgsError::Integer(e)),
    }
}

fn parse_float(text: &str, bits: Option<u32>) -> (r: Result<u32, ArgsError>)
    ensures
        match r {
            Ok(v) => float(text@, bits) == Ok::<u32, Refusal>(v),
            Err(e) => float(text@, bits) == Err::<u32, Refusal>(e@),
        },
{
    match bits {
        Some(b) => Ok(b),
        None => if text.is_empty() {
            Err(ArgsError::EmptyFloat)
        } else {
            Err(ArgsError::InvalidFloat)
        },
    }
}

/// Applies the option `key` with a value.
fn apply_option(a: Args, key: &str, text: &str, bits: Option<u32>) -> (r: Result<Args, ArgsError>)
    ensures
        outcome(r) == with_option(a@, key@, text@, bits),
{
    if same_text(key, "--n") {
        match parse_usize(text) {
            Ok(v) => Ok(Args { n: v, ..a }),
            Err(e) => Err(e),
        }
    } else if same_text(key, "--warmup") {
        match parse_usize(text) {
            Ok(v) => Ok(Args { warmup: v, ..a }),
            Err(e) => Err(e),
        }
    } else if same_text(key, "--steps") {
        match parse_usize(text) {
            Ok(v) => Ok(Args { steps: v, ..a }),
            Err(e) => Err(e),
        }
    } else if same_text(key, "--device") {
        match parse_usize(text) {
            Ok(v) => Ok(Args { device: v, ..a }),
            Err(e) => Err(e),
        }
    } else if same_text(key, "--block") {
        match parse_unsigned(text, u32::MAX as u64) {
            Ok(v) => Ok(Args { block: v as u32, ..a }),
            Err(e) => Err(ArgsError::Integer(e)),
        }
    } else if same_text(key, "--omega") {
        match parse_float(text, bits) {
            Ok(v) => Ok(Args { omega_bits: v, ..a }),
            Err(e) => Err(e),
        }
    } else if same_text(key, "--u0") {
        match parse_float(text, bits) {
            Ok(v) => Ok(Args { u0_bits: v, ..a }),
            Err(e) => Err(e),
        }
    } else if same_text(key, "--result") {
        Ok(Args { result: text.to_owned(), ..a })
    } else if same_text(key, "--markers") {
        Ok(Args { markers: text.to_owned(), ..a })
    } else if same_text(key, "--power") {
        Ok(Args { power: text.to_owned(), ..a })
    } else if same_text(key, "--idle-seconds") {
        match parse_unsigned(text, u64::MAX) {
            Ok(v) => Ok(Args { idle_seconds: v, ..a }),
            Err(e) => Err(ArgsError::Integer(e)),
        }
    } else {
        Err(ArgsError::UnknownArgument(key.to_owned()))
    }
}

fn apply_variable(a: Args, key: &str, value: &Option<String>) -> (r: Result<Args, ArgsError>)
    ensures
        outcome(r) == with_variable(Ok(a@), key@, *value),
{
    match value {
        Some(text) => apply_option(a, key, text.as_str(), None),
        None => Ok(a),
    }
}

fn apply_environment(a: Args, env: &Environment) -> (r: Result<Args, ArgsError>)
    ensures
        outcome(r) == with_environment(a@, *env),
{
    let a = apply_variable(a, "--n", &env.n)?;
    let a = apply_variable(a, "--warmup", &env.warmup)?;
    let a = apply_variable(a, "--steps", &env.steps)?;
    let a = apply_variable(a, "--device", &env.device)?;
    let a = apply_variable(a, "--block", &env.block)?;
    let a = apply_variable(a, "--result", &env.result)?;
    let a = apply_variable(a, "--markers", &env.markers)?;
    apply_variable(a, "--power", &env.power)
}

fn apply_words(start: Args, words: &Vec<Word>) -> (r: Result<Args, ArgsError>)
    ensures
        outcome(r) == with_words(start@, words@),
{
    let ghost first = start@;
    let mut a = start;
    let mut i: usize = 0;
    proof {
        assert(words@.skip(0) == words@);
    }
    while i < words.len()
        invariant
            i <= words.len(),
            first == start@,
            with_words(first, words@) == with_words(a@, words@.skip(i as int)),
        decreases words.len() - i,
    {
        let ghost rest = words@.skip(i as int);
        let key = words[i].text.as_str();
        if same_text(key, "--cpu-parity") {
            a = Args { cpu_parity: true, ..a };
            assert(rest.skip(1) == words@.skip(i + 1));
            i += 1;
        } else {
            if words.len() - i == 1 {
                return Err(ArgsError::MissingValue(key.to_owned()));
            }
            let value = &words[i + 1];
            assert(rest[1] == words[i + 1]);
            match apply_option(a, key, value.text.as_str(), value.float_bits) {
                Ok(b) => {
                    a = b;
                },
                Err(e) => {
                    return Err(e);
                },
            }
            assert(rest.skip(2) == words@.skip(i + 2));
            i += 2;
        }
    }
    Ok(a)
}

/// Reads the settings of a run from the environment and the command line.
pub fn parse_args(env: &Environment, words: &Vec<Word>) -> (r: Result<Args, ArgsError>)
    ensures
        outcome(r) == settings_of(*env, words@),
        r matches Ok(a) ==> {
            &&& is_pow2(a.n as int)
            &&& a.steps > 0 || a.idle_seconds > 0
            &&& a.block == 128 || a.block == 256 || a.block == 512
            &&& a.cpu_parity ==> a.n <= 32
        },
{
    let a = apply_environment(Args::default(), env)?;
    let a = apply_words(a, words)?;
    if !is_power_of_two(a.n) {
        return Err(ArgsError::Edge);
    }
    if a.steps == 0 && a.idle_seconds == 0 {
        return Err(ArgsError::Steps);
    }
    if !(a.block == 128 || a.block == 256 || a.block == 512) {
        return Err(ArgsError::Block);
    }
    if a.cpu_parity && a.n > 32 {
        return Err(ArgsError::Parity);
    }
    Ok(a)
}

/// What a program does with its settings.
#[derive(Clone, Copy, Debug, PartialEq, Eq, Structural)]
pub enum Mode {
    /// It takes an idle trace of so many seconds.
    Idle(u64),
    /// It runs the solver.
    Solver,
}

impl Settings {
    /// An idle trace is taken where its length is given; otherwise the solver runs.
    pub open spec fn mode(self) -> Mode {
        if self.idle_seconds > 0 {
            Mode::Idle(self.idle_seconds as u64)
        } else {
            Mode::Solver
        }
    }

    /// The steps of the host reference: as many as the solver makes in all, where the two
    /// are compared.
    pub open spec fn reference_steps(self) -> Option<nat> {
        if self.cpu_parity {
            Some(self.warmup + self.steps)
        } else {
            None
        }
    }
}

impl Args {
    /// What the program does.
    pub fn mode(&self) -> (r: Mode)
        ensures
            r == self@.mode(),
            self.idle_seconds > 0 ==> r == Mode::Idle(self.idle_seconds),
            self.idle_seconds == 0 ==> r == Mode::Solver,
    {
        if self.idle_seconds > 0 {
            Mode::Idle(self.idle_seconds)
        } else {
            Mode::Solver
        }
    }

    /// How many steps the host reference makes, if the result is compared with it.
    pub fn reference_steps(&self) -> (r: Option<usize>)
        requires
            self.cpu_parity ==> self.warmup + self.steps <= usize::MAX,
        ensures
            match r {
                Some(steps) => self@.reference_steps() == Some(steps as nat),
                None => self@.reference_steps() is None,
            },
            self.cpu_parity ==> r == Some((self.warmup + self.steps) as usize),
            !self.cpu_parity ==> r is None,
    {
        if self.cpu_parity {
            Some(self.warmup + self.steps)
        } else {
            None
        }
    }
}

/// The text of a refusal.
pub open spec fn refusal_text(refusal: Refusal) -> Seq<char> {
    match refusal {
        Refusal::MissingValue(key) => "missing value for "@ + key,
        Refusal::UnknownArgument(key) => "unknown argument: "@ + key,
        Refusal::Integer(IntegerError::Empty) => "cannot parse integer from empty string"@,
        Refusal::Integer(IntegerError::InvalidDigit) => "invalid digit found in string"@,
        Refusal::Integer(IntegerError::Overflow) => "number too large to fit in target type"@,
        Refusal::EmptyFloat => "cannot parse float from empty string"@,
        Refusal::InvalidFloat => "invalid float literal"@,
        Refusal::Edge => "--n must be a positive power of two"@,
        Refusal::Steps => "--steps must be positive"@,
        Refusal::Block => "--block must be one of 128, 256, or 512"@,
        Refusal::Parity => "--cpu-parity is bounded to n <= 32"@,
    }
}

impl ArgsError {
    /// The text of the refusal, for people.
    pub fn message(&self) -> (r: String)
        ensures
            r@ == refusal_text(self@),
    {
        match self {
            ArgsError::MissingValue(key) => "missing value for ".to_owned().concat(key.as_str()),
            ArgsError::UnknownArgument(key) => "unknown argument: ".to_owned().concat(
                key.as_str(),
            ),
            ArgsError::Integer(IntegerError::Empty) => {
                "cannot parse integer from empty string".to_owned()
            },
            ArgsError::Integer(IntegerError::InvalidDigit) => {
                "invalid digit found in string".to_owned()
            },
            ArgsError::Integer(IntegerError::Overflow) => {
                "number too large to fit in target type".to_owned()
            },
            ArgsError::EmptyFloat => "cannot parse float from empty string".to_owned(),
            ArgsError::InvalidFloat => "invalid float literal".to_owned(),
            ArgsError::Edge => "--n must be a positive power of two".to_owned(),
            ArgsError::Steps => "--steps must be positive".to_owned(),
            ArgsError::Block => "--block must be one of 128, 256, or 512".to_owned(),
            ArgsError::Parity => "--cpu-parity is bounded to n <= 32".to_owned(),
        }
    }
}

/// Of an option that is given twice, the last value holds.
pub proof fn law_last_value_holds(
    a: Settings,
    b: Settings,
    key: Seq<char>,
    first: Seq<char>,
    first_bits: Option<u32>,
    last: Seq<char>,
    last_bits: Option<u32>,
)
    requires
        with_option(a, key, first, first_bits) == Ok::<Settings, Refusal>(b),
    ensures
        with_option(b, key, last, last_bits) == with_option(a, key, last, last_bits),
{
}

/// The words of a command line are read from left to right: what follows a complete
/// command line is read with the settings that it gave.
pub proof fn law_words_are_read_in_order(
    a: Settings,
    b: Settings,
    first: Seq<Word>,
    rest: Seq<Word>,
)
    requires
        with_words(a, first) == Ok::<Settings, Refusal>(b),
    ensures
        with_words(a, first + rest) == with_words(b, rest),
    decreases first.len(),
{
    let all = first + rest;
    if first.len() == 0 {
        assert(all == rest);
    } else if first[0].text@ == "--cpu-parity"@ {
        assert(all.skip(1) == first.skip(1) + rest);
        law_words_are_read_in_order(
            Settings { cpu_parity: true, ..a },
            b,
            first.skip(1),
            rest,
        );
    } else {
        assert(all[0] == first[0] && all[1] == first[1]);
        assert(all.skip(2) == first.skip(2) + rest);
        let c = with_option(a, first[0].text@, first[1].text@, first[1].float_bits);
        law_words_are_read_in_order(c->Ok_0, b, first.skip(2), rest);
    }
}

/// An environment variable acts like the option of its name, given before all others.
pub proof fn law_variable_acts_like_option(
    a: Settings,
    key: Word,
    value: Word,
    text: String,
    rest: Seq<Word>,
)
    requires
        key.text@ != "--cpu-parity"@,
        value.text@ == text@,
        value.float_bits is None,
    ensures
        with_words(a, seq![key, value] + rest) == match with_variable(
            Ok(a),
            key.text@,
            Some(text),
        ) {
            Ok(b) => with_words(b, rest),
            Err(e) => Err(e),
        },
{
    let all = seq![key, value] + rest;
    assert(all[0] == key && all[1] == value);
    assert(all.skip(2) == rest);
}

/// No two options have the same name.
proof fn lemma_option_names_differ()
    ensures
        "--n"@ != "--warmup"@,
        "--n"@ != "--steps"@,
        "--n"@ != "--device"@,
        "--n"@ != "--block"@,
        "--n"@ != "--omega"@,
        "--n"@ != "--u0"@,
        "--n"@ != "--result"@,
        "--n"@ != "--markers"@,
        "--n"@ != "--power"@,
        "--n"@ != "--idle-seconds"@,
        "--warmup"@ != "--steps"@,
        "--warmup"@ != "--device"@,
        "--warmup"@ != "--block"@,
        "--warmup"@ != "--omega"@,
        "--warmup"@ != "--u0"@,
        "--warmup"@ != "--result"@,
        "--warmup"@ != "--markers"@,
        "--warmup"@ != "--power"@,
        "--warmup"@ != "--idle-seconds"@,
        "--steps"@ != "--device"@,
        "--steps"@ != "--block"@,
        "--steps"@ != "--omega"@,
        "--steps"@ != "--u0"@,
        "--steps"@ != "--result"@,
        "--steps"@ != "--markers"@,
        "--steps"@ != "--power"@,
        "--steps"@ != "--idle-seconds"@,
        "--device"@ != "--block"@,
        "--device"@ != "--omega"@,
        "--device"@ != "--u0"@,
        "--device"@ != "--result"@,
        "--device"@ != "--markers"@,
        "--device"@ != "--power"@,
        "--device"@ != "--idle-seconds"@,
        "--block"@ != "--omega"@,
        "--block"@ != "--u0"@,
        "--block"@ != "--result"@,
        "--block"@ != "--markers"@,
        "--block"@ != "--power"@,
        "--block"@ != "--idle-seconds"@,
        "--omega"@ != "--u0"@,
        "--omega"@ != "--result"@,
        "--omega"@ != "--markers"@,
        "--omega"@ != "--power"@,
        "--omega"@ != "--idle-seconds"@,
        "--u0"@ != "--result"@,
        "--u0"@ != "--markers"@,
        "--u0"@ != "--power"@,
        "--u0"@ != "--idle-seconds"@,
        "--result"@ != "--markers"@,
        "--result"@ != "--power"@,
        "--result"@ != "--idle-seconds"@,
        "--markers"@ != "--power"@,
        "--markers"@ != "--idle-seconds"@,
        "--power"@ != "--idle-seconds"@,
{
    reveal_strlit("--n");
    reveal_strlit("--warmup");
    reveal_strlit("--steps");
    reveal_strlit("--device");
    reveal_strlit("--block");
    reveal_strlit("--omega");
    reveal_strlit("--u0");
    reveal_strlit("--result");
    reveal_strlit("--markers");
    reveal_strlit("--power");
    reveal_strlit("--idle-seconds");
    assert("--n"@.len() != "--warmup"@.len());
    assert("--n"@.len() != "--steps"@.len());
    assert("--n"@.len() != "--device"@.len());
    assert("--n"@.len() != "--block"@.len());
    assert("--n"@.len() != "--omega"@.len());
    assert("--n"@.len() != "--u0"@.len());
    assert("--n"@.len() != "--result"@.len());
    assert("--n"@.len() != "--markers"@.len());
    assert("--n"@.len() != "--power"@.len());
    assert("--n"@.len() != "--idle-seconds"@.len());
    assert("--warmup"@.len() != "--steps"@.len());
    assert("--warmup"@[2] != "--device"@[2]);
    assert("--warmup"@.len() != "--block"@.len());
    assert("--warmup"@.len() != "--omega"@.len());
    assert("--warmup"@.len() != "--u0"@.len());
    assert("--warmup"@[2] != "--result"@[2]);
    assert("--warmup"@.len() != "--markers"@.len());
    assert("--warmup"@.len() != "--power"@.len());
    assert("--warmup"@.len() != "--idle-seconds"@.len());
    assert("--steps"@.len() != "--device"@.len());
    assert("--steps"@[2] != "--block"@[2]);
    assert("--steps"@[2] != "--omega"@[2]);
    assert("--steps"@.len() != "--u0"@.len());
    assert("--steps"@.len() != "--result"@.len());
    assert("--steps"@.len() != "--markers"@.len());
    assert("--steps"@[2] != "--power"@[2]);
    assert("--steps"@.len() != "--idle-seconds"@.len());
    assert("--device"@.len() != "--block"@.len());
    assert("--device"@.len() != "--omega"@.len());
    assert("--device"@.len() != "--u0"@.len());
    assert("--device"@[2] != "--result"@[2]);
    assert("--device"@.len() != "--markers"@.len());
    assert("--device"@.len() != "--power"@.len());
    assert("--device"@.len() != "--idle-seconds"@.len());
    assert("--block"@[2] != "--omega"@[2]);
    assert("--block"@.len() != "--u0"@.len());
    assert("--block"@.len() != "--result"@.len());
    assert("--block"@.len() != "--markers"@.len());
    assert("--block"@[2] != "--power"@[2]);
    assert("--block"@.len() != "--idle-seconds"@.len());
    assert("--omega"@.len() != "--u0"@.len());
    assert("--omega"@.len() != "--result"@.len());
    assert("--omega"@.len() != "--markers"@.len());
    assert("--omega"@[2] != "--power"@[2]);
    assert("--omega"@.len() != "--idle-seconds"@.len());
    assert("--u0"@.len() != "--result"@.len());
    assert("--u0"@.len() != "--markers"@.len());
    assert("--u0"@.len() != "--power"@.len());
    assert("--u0"@.len() != "--idle-seconds"@.len());
    assert("--result"@.len() != "--markers"@.len());
    assert("--result"@.len() != "--power"@.len());
    assert("--result"@.len() != "--idle-seconds"@.len());
    assert("--markers"@.len() != "--power"@.len());
    assert("--markers"@.len() != "--idle-seconds"@.len());
    assert("--power"@.len() != "--idle-seconds"@.len());
}

/// Each option sets the setting of its name and no other: an integer as its digits denote it,
/// a floating-point number as its bits, a path as it is written.
pub proof fn law_options_set_the_setting_of_their_name(
    a: Settings,
    text: Seq<char>,
    bits: Option<u32>,
    number: u32,
)
    ensures
        ({
            &&& with_option(a, "--n"@, text, bits) == match read_unsigned(text, usize::MAX as nat) {
                Ok(v) => Ok::<Settings, Refusal>(Settings { n: v, ..a }),
                Err(e) => Err(Refusal::Integer(e)),
            }
            &&& with_option(a, "--warmup"@, text, bits) == match read_unsigned(text, usize::MAX as nat) {
                Ok(v) => Ok::<Settings, Refusal>(Settings { warmup: v, ..a }),
                Err(e) => Err(Refusal::Integer(e)),
            }
            &&& with_option(a, "--steps"@, text, bits) == match read_unsigned(text, usize::MAX as nat) {
                Ok(v) => Ok::<Settings, Refusal>(Settings { steps: v, ..a }),
                Err(e) => Err(Refusal::Integer(e)),
            }
            &&& with_option(a, "--device"@, text, bits) == match read_unsigned(text, usize::MAX as nat) {
                Ok(v) => Ok::<Settings, Refusal>(Settings { device: v, ..a }),
                Err(e) => Err(Refusal::Integer(e)),
            }
            &&& with_option(a, "--block"@, text, bits) == match read_unsigned(text, u32::MAX as nat) {
                Ok(v) => Ok::<Settings, Refusal>(Settings { block: v, ..a }),
                Err(e) => Err(Refusal::Integer(e)),
            }
            &&& with_option(a, "--idle-seconds"@, text, bits) == match read_unsigned(text, u64::MAX as nat) {
                Ok(v) => Ok::<Settings, Refusal>(Settings { idle_seconds: v, ..a }),
                Err(e) => Err(Refusal::Integer(e)),
            }
            &&& with_option(a, "--omega"@, text, Some(number)) == Ok::<Settings, Refusal>(
                Settings { omega_bits: number, ..a },
            )
            &&& with_option(a, "--omega"@, text, None) is Err
            &&& with_option(a, "--u0"@, text, Some(number)) == Ok::<Settings, Refusal>(
                Settings { u0_bits: number, ..a },
            )
            &&& with_option(a, "--u0"@, text, None) is Err
            &&& with_option(a, "--result"@, text, bits) == Ok::<Settings, Refusal>(
                Settings { result: text, ..a },
            )
            &&& with_option(a, "--markers"@, text, bits) == Ok::<Settings, Refusal>(
                Settings { markers: text, ..a },
            )
            &&& with_option(a, "--power"@, text, bits) == Ok::<Settings, Refusal>(
                Settings { power: text, ..a },
            )
        }),
{
    lemma_option_names_differ();
}

/// What is none of the options is told to be unknown.
pub proof fn law_other_options_are_unknown(
    a: Settings,
    key: Seq<char>,
    text: Seq<char>,
    bits: Option<u32>,
)
    requires
        key != "--n"@,
        key != "--warmup"@,
        key != "--steps"@,
        key != "--device"@,
        key != "--block"@,
        key != "--omega"@,
        key != "--u0"@,
        key != "--result"@,
        key != "--markers"@,
        key != "--power"@,
        key != "--idle-seconds"@,
    ensures
        with_option(a, key, text, bits) == Err::<Settings, Refusal>(Refusal::UnknownArgument(key)),
{
}

/// A word that is the flag turns on the comparison; any other word takes the next one as its
/// value, and is refused if there is none.
pub proof fn law_words_are_flags_or_options(a: Settings, first: Word, second: Word, rest: Seq<Word>)
    ensures
        with_words(a, Seq::empty()) == Ok::<Settings, Refusal>(a),
        first.text@ == "--cpu-parity"@ ==> with_words(a, seq![first] + rest) == with_words(
            Settings { cpu_parity: true, ..a },
            rest,
        ),
        first.text@ != "--cpu-parity"@ ==> with_words(a, seq![first]) == Err::<Settings, Refusal>(
            Refusal::MissingValue(first.text@),
        ),
        first.text@ != "--cpu-parity"@ ==> with_words(a, seq![first, second] + rest) == (
        match with_option(a, first.text@, second.text@, second.float_bits) {
            Ok(b) => with_words(b, rest),
            Err(e) => Err(e),
        }),
{
    let one = seq![first] + rest;
    let two = seq![first, second] + rest;
    assert(one[0] == first && two[0] == first && two[1] == second);
    assert(one.skip(1) =~= rest);
    assert(two.skip(2) =~= rest);
}

/// Where the environment is accepted, each setting that a variable names has its value, and
/// every other one is as it was. It is accepted exactly if each integer in it can be read.
pub proof fn law_environment_sets_what_it_names(a: Settings, env: Environment)
    ensures
        ({
            let m = usize::MAX as nat;
            let r = with_environment(a, env);
            let b = r->Ok_0;
            &&& r is Ok <==> (env.n is None || read_unsigned(env.n->0@, m) is Ok) && (
            env.warmup is None || read_unsigned(env.warmup->0@, m) is Ok) && (env.steps is None
                || read_unsigned(env.steps->0@, m) is Ok) && (env.device is None || read_unsigned(
                env.device->0@,
                m,
            ) is Ok) && (env.block is None || read_unsigned(env.block->0@, u32::MAX as nat) is Ok)
            &&& env.n is Some && read_unsigned(env.n->0@, m) is Err ==> r == Err::<
                Settings,
                Refusal,
            >(Refusal::Integer(read_unsigned(env.n->0@, m)->Err_0))
            &&& r is Ok ==> {
                &&& env.n is None ==> b.n == a.n
                &&& env.n is Some ==> read_unsigned(env.n->0@, m) == Ok::<nat, IntegerError>(b.n)
                &&& env.warmup is None ==> b.warmup == a.warmup
                &&& env.warmup is Some ==> read_unsigned(env.warmup->0@, m) == Ok::<
                    nat,
                    IntegerError,
                >(b.warmup)
                &&& env.steps is None ==> b.steps == a.steps
                &&& env.steps is Some ==> read_unsigned(env.steps->0@, m) == Ok::<
                    nat,
                    IntegerError,
                >(b.steps)
                &&& env.device is None ==> b.device == a.device
                &&& env.device is Some ==> read_unsigned(env.device->0@, m) == Ok::<
                    nat,
                    IntegerError,
                >(b.device)
                &&& env.block is None ==> b.block == a.block
                &&& env.block is Some ==> read_unsigned(env.block->0@, u32::MAX as nat) == Ok::<
                    nat,
                    IntegerError,
                >(b.block)
                &&& b.result == if env.result is Some {
                    env.result->0@
                } else {
                    a.result
                }
                &&& b.markers == if env.markers is Some {
                    env.markers->0@
                } else {
                    a.markers
                }
                &&& b.power == if env.power is Some {
                    env.power->0@
                } else {
                    a.power
                }
                &&& b.omega_bits == a.omega_bits
                &&& b.u0_bits == a.u0_bits
                &&& b.idle_seconds == a.idle_seconds
                &&& b.cpu_parity == a.cpu_parity
            }
        }),
{
    lemma_option_names_differ();
}

/// Settings are accepted exactly if the edge is a power of two, there is a step or an idle
/// trace to measure, the block is one of three sizes, and a comparison is with an edge of
/// at most 32; of several broken rules the first in this order is told.
pub proof fn law_rules_are_checked_in_order(a: Settings)
    ensures
        ({
            let edge = is_pow2(a.n as int);
            let work = a.steps > 0 || a.idle_seconds > 0;
            let block = a.block == 128 || a.block == 256 || a.block == 512;
            let small = a.cpu_parity ==> a.n <= 32;
            &&& broken_rule(a) is None <==> edge && work && block && small
            &&& broken_rule(a) == Some(Refusal::Edge) <==> !edge
            &&& broken_rule(a) == Some(Refusal::Steps) <==> edge && !work
            &&& broken_rule(a) == Some(Refusal::Block) <==> edge && work && !block
            &&& broken_rule(a) == Some(Refusal::Parity) <==> edge && work && block && !small
        }),
{
}

/// The environment is read first, over the defaults, then the words, then the rules; the
/// first refusal is the answer.
pub proof fn law_settings_come_from_environment_then_words(env: Environment, words: Seq<Word>)
    ensures
        ({
            let d = default_settings();
            let first = with_environment(d, env);
            let r = settings_of(env, words);
            &&& d.n == 128 && d.warmup == 20 && d.steps == 1000 && d.device == 0 && d.block == 256
            &&& d.omega_bits == 0x3f80_0000 && d.u0_bits == 0x3cf5_c28f
            &&& d.idle_seconds == 0 && !d.cpu_parity
            &&& d.result == "cuda-lbm.json"@
            &&& d.markers == "cuda-lbm.markers.json"@
            &&& d.power == "cuda-lbm.power.csv"@
            &&& first is Err ==> r == first
            &&& first is Ok && with_words(first->Ok_0, words) is Err ==> r == with_words(
                first->Ok_0,
                words,
            )
            &&& first is Ok && with_words(first->Ok_0, words) is Ok ==> {
                let b = with_words(first->Ok_0, words)->Ok_0;
                &&& broken_rule(b) is None ==> r == Ok::<Settings, Refusal>(b)
                &&& broken_rule(b) is Some ==> r == Err::<Settings, Refusal>(broken_rule(b)->0)
            }
        }),
{
}

/// An idle trace is taken exactly if its length is given, and for that long. The host
/// reference makes as many steps as the solver in all, exactly if the two are compared.
pub proof fn law_settings_decide_what_is_done(args: Args)
    ensures
        args.idle_seconds > 0 <==> args@.mode() is Idle,
        args.idle_seconds > 0 ==> args@.mode() == Mode::Idle(args.idle_seconds),
        args.cpu_parity <==> args@.reference_steps() is Some,
        args.cpu_parity ==> args@.reference_steps()->0 == args.warmup + args.steps,
        args@.n == args.n && args@.warmup == args.warmup && args@.steps == args.steps,
        args@.device == args.device && args@.block == args.block,
        args@.omega_bits == args.omega_bits && args@.u0_bits == args.u0_bits,
        args@.result == args.result@ && args@.markers == args.markers@ && args@.power
            == args.power@,
        args@.idle_seconds == args.idle_seconds && args@.cpu_parity == args.cpu_parity,
{
}

} // verus!
