use benfordlens::cli::{info_formula, input_source, run, Cli, Commands, FormatArg, InputSource, PositionArg, SimpleRng, Task};
use benfordlens::digit::DigitPosition;
use benfordlens::report::OutputFormat;

#[test]
fn test_position_arg_conversion() {
    assert!(matches!(PositionArg::First.to_position(), DigitPosition::First));
    assert!(matches!(PositionArg::Second.to_position(), DigitPosition::Second));
    assert!(matches!(PositionArg::FirstTwo.to_position(), DigitPosition::FirstTwo));
}

#[test]
fn test_format_arg_conversion() {
    assert!(matches!(FormatArg::Text.to_format(), OutputFormat::Text));
    assert!(matches!(FormatArg::Json.to_format(), OutputFormat::Json));
    assert!(matches!(FormatArg::Html.to_format(), OutputFormat::Html));
}

#[test]
fn test_simple_rng_deterministic() {
    let mut a = SimpleRng::new(123);
    let mut b = SimpleRng::new(123);
    for _ in 0..10 {
        assert_eq!(a.next_u32(), b.next_u32());
    }
}

#[test]
fn simple_rng_known_values() {
    let mut r = SimpleRng::new(42);
    assert_eq!(r.next_u32(), 2505132714);
    assert_eq!(r.next_u32(), 4160881343);
    assert_eq!(r.next_u32(), 3520153978);
}

#[test]
fn simple_rng_zero_seed_is_one() {
    let mut a = SimpleRng::new(0);
    let mut b = SimpleRng::new(1);
    for _ in 0..5 {
        assert_eq!(a.next_u32(), b.next_u32());
    }
}

#[test]
fn input_source_dash_is_stdin() {
    assert!(matches!(input_source("-".to_string()), InputSource::Stdin));
    match input_source("data.csv".to_string()) {
        InputSource::File(p) => assert_eq!(p, "data.csv"),
        InputSource::Stdin => panic!("expected a file"),
    }
    assert!(matches!(input_source("--".to_string()), InputSource::File(_)));
}

#[test]
fn run_resolves_analyze() {
    let cli = Cli {
        command: Commands::Analyze {
            input: "data.csv".to_string(),
            column: Some("amount".to_string()),
            position: PositionArg::FirstTwo,
            format: FormatArg::Markdown,
            output: Some("out.md".to_string()),
        },
    };
    match run(cli) {
        Task::Analyze { source, column, position, format, output } => {
            assert!(matches!(source, InputSource::File(ref p) if p == "data.csv"));
            assert_eq!(column, Some("amount".to_string()));
            assert_eq!(position, DigitPosition::FirstTwo);
            assert_eq!(format, OutputFormat::Markdown);
            assert_eq!(output, Some("out.md".to_string()));
        }
        _ => panic!("wrong task"),
    }
}

#[test]
fn run_resolves_other_commands() {
    let t = run(Cli { command: Commands::Score { input: "-".to_string(), column: None, position: PositionArg::LastTwo } });
    assert!(matches!(t, Task::Score { source: InputSource::Stdin, column: None, position: DigitPosition::LastTwo }));
    let t = run(Cli { command: Commands::Info { position: PositionArg::Third } });
    assert!(matches!(t, Task::Info { position: DigitPosition::Third }));
    let t = run(Cli { command: Commands::Sample { count: 7, output: None } });
    assert!(matches!(t, Task::Sample { count: 7, output: None }));
    let t = run(Cli {
        command: Commands::AnalyzeAll { input: "x.json".to_string(), column: None, format: FormatArg::Html, output: None },
    });
    assert!(matches!(t, Task::AnalyzeAll { format: OutputFormat::Html, .. }));
}

#[test]
fn info_formula_lines() {
    assert_eq!(info_formula(DigitPosition::First), "    P(d) = log10(1 + 1/d)");
    assert_eq!(info_formula(DigitPosition::FirstThree), "    P(d) = log10(1 + 1/d)");
    assert_eq!(
        info_formula(DigitPosition::Third),
        "    P(d) = sum over prefixes of log10(1 + 1/(prefix*10 + d))"
    );
    assert!(info_formula(DigitPosition::LastTwo).contains("1/100"));
}
