use gssavegame::{
    get_val, get_vals, has_flag, parse_flags, plan_decoder, plan_encoder, plan_invocation, CliError,
    Command, DecoderJob, EncoderJob, Invocation,
};

fn args(list: &[&str]) -> Vec<String> {
    list.iter().map(|s| s.to_string()).collect()
}

#[test]
fn flags_take_following_values() {
    let opts = parse_flags(&args(&["-b", "x", "stray", "--batch", "y", "-b", "z", "-r"])).unwrap();
    assert!(has_flag(&opts, "-r", "--recursive"));
    assert!(has_flag(&opts, "-b", "--nothing"));
    assert!(!has_flag(&opts, "-o", "--output"));
    assert_eq!(get_vals(&opts, "-b", "--batch"), vec!["x", "z", "y"]);
    assert_eq!(get_val(&opts, "-b", "--batch"), Some("x".to_string()));
    assert_eq!(get_val(&opts, "-r", "--recursive"), None);
}

#[test]
fn flag_before_flag_has_no_value() {
    let opts = parse_flags(&args(&["-d", "-o", "out.gssg"])).unwrap();
    assert!(has_flag(&opts, "-d", "--dir"));
    assert_eq!(get_val(&opts, "-d", "--dir"), None);
    assert_eq!(get_val(&opts, "-o", "--output"), Some("out.gssg".to_string()));
}

#[test]
fn short_flag_without_value_hides_long_one() {
    let opts = parse_flags(&args(&["-f", "--file", "a.gssg"])).unwrap();
    assert_eq!(get_val(&opts, "-f", "--file"), None);
    assert_eq!(get_vals(&opts, "-f", "--file"), vec!["a.gssg"]);
}

#[test]
fn invocation_kinds() {
    assert!(matches!(plan_invocation(&args(&["tool"])), Invocation::MissingCommand));
    assert!(matches!(plan_invocation(&args(&["tool", "help"])), Invocation::Help));
    assert!(matches!(plan_invocation(&args(&["tool", "--version"])), Invocation::Version));
    match plan_invocation(&args(&["tool", "encoder", "-h"])) {
        Invocation::CommandHelp(c) => assert_eq!(c, "encoder"),
        _ => panic!("expected command help"),
    }
    match plan_invocation(&args(&["tool", "frobnicate"])) {
        Invocation::UnknownCommand(c) => assert_eq!(c, "frobnicate"),
        _ => panic!("expected unknown command"),
    }
    match plan_invocation(&args(&["tool", "decoder", "-f", "s.gssg"])) {
        Invocation::Run(Command::Decoder, opts) => {
            assert_eq!(get_val(&opts, "-f", "--file"), Some("s.gssg".to_string()))
        }
        _ => panic!("expected decoder run"),
    }
}

#[test]
fn encoder_job_choice() {
    let opts = parse_flags(&args(&["-f", "a.xml", "-d", "dir", "-r"])).unwrap();
    assert!(matches!(plan_encoder(&opts), Err(CliError::MissingOutput)));

    let opts = parse_flags(&args(&["-f", "a.xml", "-d", "dir", "-r", "-o", "o.gssg"])).unwrap();
    match plan_encoder(&opts) {
        Ok(EncoderJob::Dir { dir, recursive, output }) => {
            assert_eq!(dir, "dir");
            assert!(recursive);
            assert_eq!(output, "o.gssg");
        }
        _ => panic!("expected directory job"),
    }

    let opts = parse_flags(&args(&["--file", "a.xml", "-b", "x", "--output", "o.gssg"])).unwrap();
    match plan_encoder(&opts) {
        Ok(EncoderJob::File { file, output }) => {
            assert_eq!(file, "a.xml");
            assert_eq!(output, "o.gssg");
        }
        _ => panic!("expected file job"),
    }

    let opts = parse_flags(&args(&["-b", "x", "-b", "y", "-o", "o.gssg"])).unwrap();
    match plan_encoder(&opts) {
        Ok(EncoderJob::Batch { items, recursive, .. }) => {
            assert_eq!(items, vec!["x", "y"]);
            assert!(!recursive);
        }
        _ => panic!("expected batch job"),
    }

    let opts = parse_flags(&args(&["-o", "o.gssg"])).unwrap();
    assert!(matches!(plan_encoder(&opts), Err(CliError::NoEncoderInput)));
}

#[test]
fn decoder_job_choice() {
    let opts = parse_flags(&args(&["-f", "s.gssg", "-b", "t.gssg"])).unwrap();
    match plan_decoder(&opts) {
        Ok(DecoderJob::File { file, out_dir }) => {
            assert_eq!(file, "s.gssg");
            assert_eq!(out_dir, ".");
        }
        _ => panic!("expected file job"),
    }

    let opts = parse_flags(&args(&["-b", "t.gssg", "-d", "out"])).unwrap();
    match plan_decoder(&opts) {
        Ok(DecoderJob::Batch { items, out_dir }) => {
            assert_eq!(items, vec!["t.gssg"]);
            assert_eq!(out_dir, "out");
        }
        _ => panic!("expected batch job"),
    }

    let opts = parse_flags(&args(&["-r", "-d", "out"])).unwrap();
    match plan_decoder(&opts) {
        Ok(DecoderJob::Scan { scan_dir, out_dir }) => {
            assert_eq!(scan_dir, ".");
            assert_eq!(out_dir, "out");
        }
        _ => panic!("expected scan job"),
    }

    let opts = parse_flags(&args(&["-d", "out"])).unwrap();
    assert!(matches!(plan_decoder(&opts), Err(CliError::NoDecoderInput)));
}

#[test]
fn flags_are_exactly_the_dash_arguments() {
    let opts = parse_flags(&args(&["-a", "x", "-a", "-b", "y", "z", "w", "-c"])).unwrap();
    assert!(has_flag(&opts, "-a", "-a"));
    assert!(has_flag(&opts, "-b", "-b"));
    assert!(has_flag(&opts, "-c", "-c"));
    assert!(!has_flag(&opts, "x", "y"));
    assert!(!has_flag(&opts, "z", "w"));
    assert_eq!(get_vals(&opts, "-a", "--none"), vec!["x"]);
    assert_eq!(get_vals(&opts, "-b", "--none"), vec!["y"]);
    assert_eq!(get_vals(&opts, "-c", "--none"), Vec::<String>::new());
}
