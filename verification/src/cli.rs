//! The decisions of the command line: which task each command asks for, on
//! which input, in which digit position and output format; and the
//! pseudo-random generator used to make sample data.

use vstd::prelude::*;
use crate::data::lower;
use crate::digit::{position_label, DigitPosition};
use crate::report::{format_extension, OutputFormat};
use crate::text::text_eq;

verus! {

/// Command-line choice of a digit position.
#[derive(Debug, Clone, Copy, PartialEq, Eq, Structural)]
pub enum PositionArg {
    First,
    Second,
    Third,
    FirstTwo,
    FirstThree,
    LastTwo,
}

/// The digit position a command-line choice names.
pub open spec fn position_of(a: PositionArg) -> DigitPosition {
    match a {
        PositionArg::First => DigitPosition::First,
        PositionArg::Second => DigitPosition::Second,
        PositionArg::Third => DigitPosition::Third,
        PositionArg::FirstTwo => DigitPosition::FirstTwo,
        PositionArg::FirstThree => DigitPosition::FirstThree,
        PositionArg::LastTwo => DigitPosition::LastTwo,
    }
}

impl PositionArg {
    /// The digit position this choice names.
    pub fn to_position(&self) -> (p: DigitPosition)
        ensures
            p == position_of(*self),
    {
        match self {
            PositionArg::First => DigitPosition::First,
            PositionArg::Second => DigitPosition::Second,
            PositionArg::Third => DigitPosition::Third,
            PositionArg::FirstTwo => DigitPosition::FirstTwo,
            PositionArg::FirstThree => DigitPosition::FirstThree,
            PositionArg::LastTwo => DigitPosition::LastTwo,
        }
    }
}

/// The value that selects a position choice on the command line, as in
/// `--position first-three`.
pub open spec fn position_arg_name(a: PositionArg) -> Seq<char> {
    match a {
        PositionArg::First => "first"@,
        PositionArg::Second => "second"@,
        PositionArg::Third => "third"@,
        PositionArg::FirstTwo => "first-two"@,
        PositionArg::FirstThree => "first-three"@,
        PositionArg::LastTwo => "last-two"@,
    }
}

/// Each position choice resolves to the digit position of the same name:
/// the position's label, in lower case, starts with the value written on
/// the command line followed by the word "digit". Distinct choices give
/// distinct positions, and every position can be chosen.
pub proof fn lemma_position_choice_named(a: PositionArg, b: PositionArg, p: DigitPosition)
    ensures
        lower(position_label(position_of(a))).len() >= position_arg_name(a).len() + 6,
        lower(position_label(position_of(a))).subrange(0, position_arg_name(a).len() + 6int)
            == position_arg_name(a) + " digit"@,
        position_of(a) == position_of(b) ==> a == b,
        exists|c: PositionArg| position_of(c) == p,
{
    reveal_strlit(" digit");
    reveal_strlit("first");
    reveal_strlit("second");
    reveal_strlit("third");
    reveal_strlit("first-two");
    reveal_strlit("first-three");
    reveal_strlit("last-two");
    reveal_strlit("First Digit");
    reveal_strlit("Second Digit");
    reveal_strlit("Third Digit");
    reveal_strlit("First-Two Digits");
    reveal_strlit("First-Three Digits");
    reveal_strlit("Last-Two Digits");
    let l = lower(position_label(position_of(a)));
    let n = position_arg_name(a);
    assert(l.subrange(0, n.len() + 6int) =~= n + " digit"@);
    match p {
        DigitPosition::First => assert(position_of(PositionArg::First) == p),
        DigitPosition::Second => assert(position_of(PositionArg::Second) == p),
        DigitPosition::Third => assert(position_of(PositionArg::Third) == p),
        DigitPosition::FirstTwo => assert(position_of(PositionArg::FirstTwo) == p),
        DigitPosition::FirstThree => assert(position_of(PositionArg::FirstThree) == p),
        DigitPosition::LastTwo => assert(position_of(PositionArg::LastTwo) == p),
    }
}

/// Command-line choice of an output format.
#[derive(Debug, Clone, Copy, PartialEq, Eq, Structural)]
pub enum FormatArg {
    Text,
    Json,
    Markdown,
    Html,
}

/// The output format a command-line choice names.
pub open spec fn format_of(a: FormatArg) -> OutputFormat {
    match a {
        FormatArg::Text => OutputFormat::Text,
        FormatArg::Json => OutputFormat::Json,
        FormatArg::Markdown => OutputFormat::Markdown,
        FormatArg::Html => OutputFormat::Html,
    }
}

/// The value that selects a format choice on the command line, as in
/// `--format markdown`.
pub open spec fn format_arg_name(a: FormatArg) -> Seq<char> {
    match a {
        FormatArg::Text => "text"@,
        FormatArg::Json => "json"@,
        FormatArg::Markdown => "markdown"@,
        FormatArg::Html => "html"@,
    }
}

/// Each format choice resolves to the output format of the same name: the
/// format's file extension begins with the letter the choice's name begins
/// with. Distinct choices give distinct formats, and every format can be
/// chosen.
pub proof fn lemma_format_choice_named(a: FormatArg, b: FormatArg, f: OutputFormat)
    ensures
        format_extension(format_of(a)).len() > 0,
        format_arg_name(a).len() > 0,
        format_extension(format_of(a))[0] == format_arg_name(a)[0],
        format_of(a) == format_of(b) ==> a == b,
        exists|c: FormatArg| format_of(c) == f,
{
    reveal_strlit("text");
    reveal_strlit("json");
    reveal_strlit("markdown");
    reveal_strlit("html");
    reveal_strlit("txt");
    reveal_strlit("md");
    match f {
        OutputFormat::Text => assert(format_of(FormatArg::Text) == f),
        OutputFormat::Json => assert(format_of(FormatArg::Json) == f),
        OutputFormat::Markdown => assert(format_of(FormatArg::Markdown) == f),
        OutputFormat::Html => assert(format_of(FormatArg::Html) == f),
    }
}

impl FormatArg {
    /// The output format this choice names.
    pub fn to_format(&self) -> (f: OutputFormat)
        ensures
            f == format_of(*self),
    {
        match self {
            FormatArg::Text => OutputFormat::Text,
            FormatArg::Json => OutputFormat::Json,
            FormatArg::Markdown => OutputFormat::Markdown,
            FormatArg::Html => OutputFormat::Html,
        }
    }
}

/// The parsed command line.
#[derive(Debug)]
pub struct Cli {
    pub command: Commands,
}

/// The commands of the command line and their arguments.
#[derive(Debug)]
pub enum Commands {
    /// Run a full Benford's Law analysis on a data file.
    Analyze {
        input: String,
        column: Option<String>,
        position: PositionArg,
        format: FormatArg,
        output: Option<String>,
    },
    /// Analyze all digit positions and generate a combined report.
    AnalyzeAll { input: String, column: Option<String>, format: FormatArg, output: Option<String> },
    /// Show the digit distribution chart for a specific position.
    Digits { input: String, column: Option<String>, position: PositionArg },
    /// Run goodness-of-fit tests (chi-square, KS, MAD).
    Test { input: String, column: Option<String>, position: PositionArg },
    /// Compute the fraud/anomaly risk score.
    Score { input: String, column: Option<String>, position: PositionArg },
    /// Visualize the observed vs expected distribution.
    Viz { input: String, column: Option<String>, position: PositionArg },
    /// Show Benford's Law reference information (expected distributions).
    Info { position: PositionArg },
    /// Generate sample data that follows Benford's Law.
    Sample { count: usize, output: Option<String> },
}

/// Where the data of a command comes from.
#[derive(Debug)]
pub enum InputSource {
    /// Standard input (the input argument `-`).
    Stdin,
    /// A file, by path.
    File(String),
}

/// What a command asks for, with its arguments resolved.
#[derive(Debug)]
pub enum Task {
    Analyze {
        source: InputSource,
        column: Option<String>,
        position: DigitPosition,
        format: OutputFormat,
        output: Option<String>,
    },
    AnalyzeAll { source: InputSource, column: Option<String>, format: OutputFormat, output: Option<String> },
    Digits { source: InputSource, column: Option<String>, position: DigitPosition },
    Test { source: InputSource, column: Option<String>, position: DigitPosition },
    Score { source: InputSource, column: Option<String>, position: DigitPosition },
    Viz { source: InputSource, column: Option<String>, position: DigitPosition },
    Info { position: DigitPosition },
    Sample { count: usize, output: Option<String> },
}

/// The source an input argument names: `-` is standard input, anything else
/// a file path.
pub open spec fn source_of(input: String) -> InputSource {
    if input@ == "-"@ {
        InputSource::Stdin
    } else {
        InputSource::File(input)
    }
}

/// The input argument `-`, and only it, reads standard input; any other
/// argument is read as the path of a file, kept as it was written.
pub proof fn lemma_dash_reads_stdin(input: String)
    ensures
        source_of(input) is Stdin <==> input@ == seq!['-'],
        source_of(input) matches InputSource::File(path) ==> path@ == input@,
{
    reveal_strlit("-");
    assert("-"@ =~= seq!['-']);
}

/// The task a command line asks for.
pub open spec fn task_of(cli: Cli) -> Task {
    match cli.command {
        Commands::Analyze { input, column, position, format, output } => Task::Analyze {
            source: source_of(input),
            column,
            position: position_of(position),
            format: format_of(format),
            output,
        },
        Commands::AnalyzeAll { input, column, format, output } => Task::AnalyzeAll {
            source: source_of(input),
            column,
            format: format_of(format),
            output,
        },
        Commands::Digits { input, column, position } => Task::Digits {
            source: source_of(input),
            column,
            position: position_of(position),
        },
        Commands::Test { input, column, position } => Task::Test {
            source: source_of(input),
            column,
            position: position_of(position),
        },
        Commands::Score { input, column, position } => Task::Score {
            source: source_of(input),
            column,
            position: position_of(position),
        },
        Commands::Viz { input, column, position } => Task::Viz {
            source: source_of(input),
            column,
            position: position_of(position),
        },
        Commands::Info { position } => Task::Info { position: position_of(position) },
        Commands::Sample { count, output } => Task::Sample { count, output },
    }
}

/// Decides where an input argument reads from.
pub fn input_source(input: String) -> (s: InputSource)
    ensures
        s == source_of(input),
{
    if text_eq(input.as_str(), "-") {
        InputSource::Stdin
    } else {
        InputSource::File(input)
    }
}

/// Decides what the command line asks for: the task, its input source, and
/// the digit position and output format its choices name. Carrying the task
/// out (reading the data, analysing it, writing the report) is left to the
/// caller.
pub fn run(cli: Cli) -> (t: Task)
    ensures
        t == task_of(cli),
{
    match cli.command {
        Commands::Analyze { input, column, position, format, output } => Task::Analyze {
            source: input_source(input),
            column,
            position: position.to_position(),
            format: format.to_format(),
            output,
        },
        Commands::AnalyzeAll { input, column, format, output } => Task::AnalyzeAll {
            source: input_source(input),
            column,
            format: format.to_format(),
            output,
        },
        Commands::Digits { input, column, position } => Task::Digits {
            source: input_source(input),
            column,
            position: position.to_position(),
        },
        Commands::Test { input, column, position } => Task::Test {
            source: input_source(input),
            column,
            position: position.to_position(),
        },
        Commands::Score { input, column, position } => Task::Score {
            source: input_source(input),
            column,
            position: position.to_position(),
        },
        Commands::Viz { input, column, position } => Task::Viz {
            source: input_source(input),
            column,
            position: position.to_position(),
        },
        Commands::Info { position } => Task::Info { position: position.to_position() },
        Commands::Sample { count, output } => Task::Sample { count, output },
    }
}

/// The formula line of the reference information for a position.
pub open spec fn formula_text(p: DigitPosition) -> Seq<char> {
    match p {
        DigitPosition::First | DigitPosition::FirstTwo | DigitPosition::FirstThree =>
            "    P(d) = log10(1 + 1/d)"@,
        DigitPosition::Second | DigitPosition::Third =>
            "    P(d) = sum over prefixes of log10(1 + 1/(prefix*10 + d))"@,
        DigitPosition::LastTwo =>
            "    P(d) = 1/100  (uniform — for detecting fabricated/rounded data)"@,
    }
}

/// The formula shown by the reference information for a position.
pub fn info_formula(position: DigitPosition) -> (r: &'static str)
    ensures
        r@ == formula_text(position),
{
    match position {
        DigitPosition::First | DigitPosition::FirstTwo | DigitPosition::FirstThree =>
            "    P(d) = log10(1 + 1/d)",
        DigitPosition::Second | DigitPosition::Third =>
            "    P(d) = sum over prefixes of log10(1 + 1/(prefix*10 + d))",
        DigitPosition::LastTwo =>
            "    P(d) = 1/100  (uniform — for detecting fabricated/rounded data)",
    }
}

/// One step of the xorshift generator on its 64-bit state.
pub open spec fn xorshift(s: u64) -> u64 {
    let a = s ^ (s << 13u64);
    let b = a ^ (a >> 7u64);
    b ^ (b << 17u64)
}

/// A small xorshift generator, deterministic for a given seed, used to make
/// sample data.
pub struct SimpleRng {
    state: u64,
}

impl View for SimpleRng {
    type V = u64;

    closed spec fn view(&self) -> u64 {
        self.state
    }
}

impl SimpleRng {
    /// The state is never zero, the state that xorshift maps to itself.
    #[verifier::type_invariant]
    spec fn nonzero(self) -> bool {
        self.state != 0
    }

    /// A generator seeded with `seed`; the seed 0, which xorshift maps to
    /// itself, is replaced by 1.
    pub fn new(seed: u64) -> (r: Self)
        ensures
            r@ == (if seed == 0 { 1 } else { seed }),
    {
        SimpleRng { state: if seed == 0 { 1 } else { seed } }
    }

    /// Advances the generator and returns the low 32 bits of the new state.
    pub fn next_u32(&mut self) -> (r: u32)
        ensures
            final(self)@ == xorshift(old(self)@),
            final(self)@ != 0,
            r == (final(self)@ & 0xFFFF_FFFFu64) as u32,
    {
        proof {
            use_type_invariant(&*self);
        }
        let s = self.state;
        let a = s ^ (s << 13u64);
        assert(s != 0 ==> (s ^ (s << 13u64)) != 0) by (bit_vector);
        self.state = a;
        let b = a ^ (a >> 7u64);
        assert(a != 0 ==> (a ^ (a >> 7u64)) != 0) by (bit_vector);
        self.state = b;
        let c = b ^ (b << 17u64);
        assert(b != 0 ==> (b ^ (b << 17u64)) != 0) by (bit_vector);
        self.state = c;
        (self.state & 0xFFFF_FFFFu64) as u32
    }
}

/// The generator never reaches the all-zero state from another state: each
/// of the three shift-and-xor steps is invertible, so a non-zero state stays
/// non-zero.
pub proof fn lemma_xorshift_nonzero(s: u64)
    requires
        s != 0,
    ensures
        xorshift(s) != 0,
{
    let a = s ^ (s << 13u64);
    let b = a ^ (a >> 7u64);
    assert(s != 0 ==> (s ^ (s << 13u64)) != 0) by (bit_vector);
    assert(a != 0 ==> (a ^ (a >> 7u64)) != 0) by (bit_vector);
    assert(b != 0 ==> (b ^ (b << 17u64)) != 0) by (bit_vector);
}

} // verus!
