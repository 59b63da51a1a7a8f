use cuda_lbm::args::{parse_args, Args, ArgsError, Environment, Mode, Word};

fn empty() -> Environment {
    Environment {
        n: None,
        warmup: None,
        steps: None,
        device: None,
        block: None,
        result: None,
        markers: None,
        power: None,
    }
}

fn words(line: &[&str]) -> Vec<Word> {
    line.iter()
        .map(|text| Word {
            text: text.to_string(),
            float_bits: text.parse::<f32>().ok().map(f32::to_bits),
        })
        .collect()
}

fn parse(line: &[&str]) -> Result<Args, ArgsError> {
    parse_args(&empty(), &words(line))
}

fn refused(line: &[&str]) -> String {
    parse(line).err().unwrap().message()
}

#[test]
fn defaults_hold_where_nothing_is_said() {
    let args = parse(&[]).unwrap();
    assert_eq!((args.n, args.warmup, args.steps, args.device, args.block), (128, 20, 1000, 0, 256));
    assert_eq!(f32::from_bits(args.omega_bits), 1.0f32);
    assert_eq!(f32::from_bits(args.u0_bits), 0.03f32);
    assert_eq!(args.result, "cuda-lbm.json");
    assert_eq!(args.markers, "cuda-lbm.markers.json");
    assert_eq!(args.power, "cuda-lbm.power.csv");
    assert_eq!(args.idle_seconds, 0);
    assert!(!args.cpu_parity);
    assert_eq!(Args::default().n, 128);
}

#[test]
fn every_option_is_read() {
    let args = parse(&[
        "--n", "32", "--warmup", "1", "--steps", "9", "--device", "3", "--block", "512", "--omega",
        "1.7", "--u0", "-0.01", "--result", "r.json", "--markers", "m.json", "--power", "p.csv",
        "--idle-seconds", "300", "--cpu-parity",
    ])
    .unwrap();
    assert_eq!((args.n, args.warmup, args.steps, args.device, args.block), (32, 1, 9, 3, 512));
    assert_eq!(f32::from_bits(args.omega_bits), 1.7f32);
    assert_eq!(f32::from_bits(args.u0_bits), -0.01f32);
    assert_eq!((args.result.as_str(), args.markers.as_str()), ("r.json", "m.json"));
    assert_eq!(args.power, "p.csv");
    assert_eq!(args.idle_seconds, 300);
    assert!(args.cpu_parity);
}

#[test]
fn the_environment_comes_first_and_the_command_line_wins() {
    let mut env = empty();
    env.n = Some("64".to_string());
    env.warmup = Some("2".to_string());
    env.steps = Some("3".to_string());
    env.device = Some("1".to_string());
    env.block = Some("128".to_string());
    env.result = Some("a".to_string());
    env.markers = Some("b".to_string());
    env.power = Some("c".to_string());
    let args = parse_args(&env, &words(&[])).unwrap();
    assert_eq!((args.n, args.warmup, args.steps, args.device, args.block), (64, 2, 3, 1, 128));
    assert_eq!((args.result.as_str(), args.markers.as_str()), ("a", "b"));
    assert_eq!(args.power, "c");
    let args = parse_args(&env, &words(&["--n", "16"])).unwrap();
    assert_eq!((args.n, args.warmup), (16, 2));
    env.block = Some("x".to_string());
    let refused = parse_args(&env, &words(&["--block", "256"])).err().unwrap();
    assert_eq!(refused.message(), "invalid digit found in string");
}

#[test]
fn the_last_value_holds() {
    assert_eq!(parse(&["--n", "16", "--n", "8"]).unwrap().n, 8);
}

#[test]
fn a_key_can_be_a_value() {
    assert_eq!(parse(&["--result", "--cpu-parity"]).unwrap().result, "--cpu-parity");
}

#[test]
fn words_are_refused_in_order() {
    assert_eq!(refused(&["--n"]), "missing value for --n");
    assert_eq!(refused(&["--bogus"]), "missing value for --bogus");
    assert_eq!(refused(&["--bogus", "1"]), "unknown argument: --bogus");
    assert_eq!(refused(&["--omega", "fast", "--bogus", "1"]), "invalid float literal");
    assert_eq!(refused(&["--u0", ""]), "cannot parse float from empty string");
    assert_eq!(refused(&["--n", "-1"]), "invalid digit found in string");
    assert_eq!(refused(&["--steps", ""]), "cannot parse integer from empty string");
    assert_eq!(refused(&["--block", "4294967296"]), "number too large to fit in target type");
    assert_eq!(refused(&["--n", "63", "--block", "7", "--x"]), "missing value for --x");
}

#[test]
fn rules_are_checked_in_order() {
    assert_eq!(refused(&["--n", "0"]), "--n must be a positive power of two");
    assert_eq!(refused(&["--n", "63", "--steps", "0"]), "--n must be a positive power of two");
    assert_eq!(refused(&["--steps", "0", "--block", "7"]), "--steps must be positive");
    assert_eq!(refused(&["--block", "1024"]), "--block must be one of 128, 256, or 512");
    assert_eq!(refused(&["--cpu-parity"]), "--cpu-parity is bounded to n <= 32");
    assert!(parse(&["--cpu-parity", "--n", "32"]).is_ok());
    assert!(parse(&["--steps", "0", "--idle-seconds", "300"]).is_ok());
}

#[test]
fn settings_decide_what_is_done() {
    let args = Args { warmup: 3, steps: 10, ..Args::default() };
    assert_eq!(args.mode(), Mode::Solver);
    assert_eq!(args.reference_steps(), None);
    let args = Args { warmup: 3, steps: 10, cpu_parity: true, ..Args::default() };
    assert_eq!(args.reference_steps(), Some(13));
    let args = Args { idle_seconds: 300, ..Args::default() };
    assert_eq!(args.mode(), Mode::Idle(300));
}
