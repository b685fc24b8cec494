use yaml_lexer::{
    is_blank, is_blank_end, is_break, is_break_end, is_end, is_flow, CharacterPosition, Cli,
    CliError, Commands,
};

#[test]
fn default_position_is_start_of_stream() {
    let p = CharacterPosition::default();
    assert_eq!(p.index(), 0);
    assert_eq!(p.line, 1);
    assert_eq!(p.column, 0);
}

#[test]
fn next_index_counts_one() {
    let mut p = CharacterPosition::default();
    p.next_index();
    p.next_index();
    assert_eq!(p.index(), 2);
    assert_eq!(p.line, 1);
    assert_eq!(p.column, 0);
}

#[test]
fn character_classes() {
    assert!(is_end('\0'));
    assert!(!is_end('a'));
    assert!(is_break('\n') && is_break('\r') && !is_break(' '));
    assert!(is_break_end('\0') && is_break_end('\n') && !is_break_end('\t'));
    assert!(is_blank(' ') && is_blank('\t') && !is_blank('\n'));
    assert!(is_blank_end(' ') && is_blank_end('\r') && is_blank_end('\0') && !is_blank_end('x'));
    for c in [',', '[', ']', '{', '}'] {
        assert!(is_flow(c));
    }
    assert!(!is_flow(':') && !is_flow('a'));
}

#[test]
fn cli_reports_debug_level() {
    let cli = Cli::new(2, Commands::Lex { file: "a.yaml".to_string() });
    assert_eq!(cli.get_debug(), 2);
}

#[test]
fn cli_file_path_found() {
    let cli = Cli::new(0, Commands::Lex { file: "a.yaml".to_string() });
    assert_eq!(cli.get_file_path(true, true).unwrap(), "a.yaml");
}

#[test]
fn cli_file_path_missing_or_not_a_file() {
    let cli = Cli::new(0, Commands::Lex { file: "dir".to_string() });
    for (e, f) in [(false, false), (true, false), (false, true)] {
        match cli.get_file_path(e, f) {
            Err(CliError::FileNotFoundError(p)) => assert_eq!(p, "dir"),
            Ok(_) => panic!("expected an error"),
        }
    }
}
