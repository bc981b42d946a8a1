use byo_tools::convert_cli::{
    exit_code, file_action, parse_args, stdin_outcome, targets, Command, FileAction, FileEvent,
    FileMessage, Target,
};

fn args(v: &[&str]) -> Vec<String> {
    v.iter().map(|s| s.to_string()).collect()
}

#[test]
fn parse_no_args_reads_stdin() {
    match parse_args(&args(&[])) {
        Ok(Command::Convert(o)) => {
            assert!(o.files.is_empty());
            assert!(!o.quiet);
            assert!(!o.check_only);
        }
        _ => panic!("expected a conversion"),
    }
}

#[test]
fn parse_flags_and_files() {
    match parse_args(&args(&["-q", "a.txt", "--check", "-", "b.txt"])) {
        Ok(Command::Convert(o)) => {
            assert_eq!(o.files, vec!["a.txt", "-", "b.txt"]);
            assert!(o.quiet);
            assert!(o.check_only);
        }
        _ => panic!("expected a conversion"),
    }
}

#[test]
fn parse_double_dash_takes_rest_as_files() {
    match parse_args(&args(&["-c", "--", "-q", "-x", "--help"])) {
        Ok(Command::Convert(o)) => {
            assert_eq!(o.files, vec!["-q", "-x", "--help"]);
            assert!(!o.quiet);
            assert!(o.check_only);
        }
        _ => panic!("expected a conversion"),
    }
}

#[test]
fn parse_help_and_version() {
    assert!(matches!(parse_args(&args(&["a", "--help", "-z"])), Ok(Command::Help)));
    assert!(matches!(parse_args(&args(&["-h"])), Ok(Command::Help)));
    assert!(matches!(parse_args(&args(&["-V"])), Ok(Command::Version)));
    assert!(matches!(parse_args(&args(&["-v", "-h"])), Ok(Command::Version)));
    assert!(matches!(parse_args(&args(&["--version"])), Ok(Command::Version)));
}

#[test]
fn parse_unknown_option() {
    match parse_args(&args(&["a", "-z", "--help"])) {
        Err(e) => assert_eq!(e.option, "-z"),
        _ => panic!("expected an unknown option"),
    }
}

#[test]
fn stdin_outcome_converts_and_reports() {
    let o = stdin_outcome(b"a\r\nb", false, false);
    assert_eq!(o.converted, b"a\nb".to_vec());
    assert!(o.has_crlf);
    assert!(o.write_converted);
    assert!(!o.print_notice);
    assert!(!o.print_dash);

    let o = stdin_outcome(b"plain", false, false);
    assert!(!o.has_crlf);
    assert!(o.print_notice);

    let o = stdin_outcome(b"x\r\n", false, true);
    assert!(o.print_dash);
    assert!(!o.write_converted);

    let o = stdin_outcome(b"x\r\n", true, true);
    assert!(!o.print_dash);
}

#[test]
fn file_action_follows_events() {
    assert!(matches!(
        file_action(FileEvent::Sampled { has_crlf: true }, false, true),
        FileAction::Finish { message: FileMessage::Path, has_crlf: true }
    ));
    assert!(matches!(
        file_action(FileEvent::Sampled { has_crlf: true }, true, true),
        FileAction::Finish { message: FileMessage::Silent, has_crlf: true }
    ));
    assert!(matches!(file_action(FileEvent::Sampled { has_crlf: false }, false, false), FileAction::ReadWhole));
    assert!(matches!(file_action(FileEvent::Sampled { has_crlf: false }, false, true), FileAction::ReadWhole));
    assert!(matches!(
        file_action(FileEvent::WholeChecked { has_crlf: true }, false, true),
        FileAction::Finish { message: FileMessage::Path, has_crlf: true }
    ));
    assert!(matches!(
        file_action(FileEvent::WholeChecked { has_crlf: false }, false, true),
        FileAction::Finish { message: FileMessage::Silent, has_crlf: false }
    ));
    assert!(matches!(file_action(FileEvent::Sampled { has_crlf: true }, false, false), FileAction::StreamToTemp));
    assert!(matches!(
        file_action(FileEvent::WholeChecked { has_crlf: false }, false, false),
        FileAction::Finish { message: FileMessage::Unchanged, has_crlf: false }
    ));
    assert!(matches!(
        file_action(FileEvent::WholeChecked { has_crlf: true }, true, false),
        FileAction::Rewrite { message: FileMessage::Silent }
    ));
    assert!(matches!(
        file_action(FileEvent::Streamed { has_crlf: true }, false, false),
        FileAction::ReplaceWithTemp { message: FileMessage::Converted }
    ));
    assert!(matches!(
        file_action(FileEvent::Streamed { has_crlf: false }, false, false),
        FileAction::DropTemp { message: FileMessage::Unchanged }
    ));
}

#[test]
fn targets_default_to_stdin() {
    let t = targets(&Vec::new());
    assert_eq!(t.len(), 1);
    assert!(matches!(t[0], Target::Stdin));
    let t = targets(&args(&["a", "-", "b"]));
    assert_eq!(t.len(), 3);
    assert!(matches!(&t[0], Target::File(p) if p == "a"));
    assert!(matches!(t[1], Target::Stdin));
    assert!(matches!(&t[2], Target::File(p) if p == "b"));
}

#[test]
fn exit_code_two_only_for_found_in_check_mode() {
    assert_eq!(exit_code(true, true), 2);
    assert_eq!(exit_code(true, false), 0);
    assert_eq!(exit_code(false, true), 0);
    assert_eq!(exit_code(false, false), 0);
}
