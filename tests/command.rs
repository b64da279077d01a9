use splitmerge::command::{parse_args, parse_positive, part_paths, ArgError, Command};

fn args(items: &[&str]) -> Vec<String> {
    items.iter().map(|s| s.to_string()).collect()
}

#[test]
fn help_option() {
    assert!(matches!(parse_args(&args(&["prog", "--help"])), Ok(Command::Help)));
}

#[test]
fn no_option_is_too_few() {
    assert!(matches!(parse_args(&args(&["prog"])), Err(ArgError::TooFewArguments)));
}

#[test]
fn merge_option_takes_last_as_output() {
    match parse_args(&args(&["prog", "--merge", "a", "b", "c", "out"])) {
        Ok(Command::Merge { source_paths, target_path }) => {
            assert_eq!(source_paths, args(&["a", "b", "c"]));
            assert_eq!(target_path, "out");
        }
        _ => panic!("expected a merge command"),
    }
}

#[test]
fn merge_with_one_input_is_too_few() {
    assert!(matches!(parse_args(&args(&["prog", "--merge", "a", "out"])), Err(ArgError::TooFewArguments)));
}

#[test]
fn merge_with_two_inputs() {
    match parse_args(&args(&["prog", "--merge", "a", "b", "out"])) {
        Ok(Command::Merge { source_paths, target_path }) => {
            assert_eq!(source_paths, args(&["a", "b"]));
            assert_eq!(target_path, "out");
        }
        _ => panic!("expected a merge command"),
    }
}

#[test]
fn merge_without_output_is_too_few() {
    assert!(matches!(parse_args(&args(&["prog", "--merge", "a"])), Err(ArgError::TooFewArguments)));
}

#[test]
fn split_option() {
    match parse_args(&args(&["prog", "--split", "3", "file.bin"])) {
        Ok(Command::Split { source_path, n_parts }) => {
            assert_eq!(source_path, "file.bin");
            assert_eq!(n_parts, 3);
        }
        _ => panic!("expected a split command"),
    }
}

#[test]
fn split_with_extra_operand_is_wrong_count() {
    assert!(matches!(
        parse_args(&args(&["prog", "--split", "3", "a", "b"])),
        Err(ArgError::WrongArgumentCount)
    ));
    assert!(matches!(parse_args(&args(&["prog", "--split", "3"])), Err(ArgError::WrongArgumentCount)));
}

#[test]
fn split_with_zero_parts_is_rejected() {
    match parse_args(&args(&["prog", "--split", "0", "file.bin"])) {
        Err(ArgError::NotPositiveInteger(a)) => assert_eq!(a, "0"),
        _ => panic!("expected a part count error"),
    }
}

#[test]
fn split_with_word_for_count_is_rejected() {
    match parse_args(&args(&["prog", "--split", "three", "file.bin"])) {
        Err(ArgError::NotPositiveInteger(a)) => assert_eq!(a, "three"),
        _ => panic!("expected a part count error"),
    }
}

#[test]
fn unknown_option() {
    match parse_args(&args(&["prog", "--join", "a", "b"])) {
        Err(ArgError::UnknownArgument(a)) => assert_eq!(a, "--join"),
        _ => panic!("expected an unknown argument error"),
    }
}

#[test]
fn positive_integers() {
    assert_eq!(parse_positive("1"), Some(1));
    assert_eq!(parse_positive("42"), Some(42));
    assert_eq!(parse_positive("007"), Some(7));
    assert_eq!(parse_positive("+5"), Some(5));
    assert_eq!(parse_positive(&usize::MAX.to_string()), Some(usize::MAX));
}

#[test]
fn not_positive_integers() {
    for s in ["", "+", "0", "+0", "000", "-1", "-0", "1.5", "12a", " 3", "++3", "99999999999999999999999"] {
        assert_eq!(parse_positive(s), None, "{:?}", s);
    }
}

#[test]
fn parse_positive_agrees_with_std_on_samples() {
    for s in ["1", "+17", "0", "", "x", "18446744073709551615", "18446744073709551616", "4294967296"] {
        let expected = s.parse::<usize>().ok().filter(|v| *v > 0);
        assert_eq!(parse_positive(s), expected, "{:?}", s);
    }
}

#[test]
fn part_file_names_count_from_one() {
    let paths = part_paths(&"file.bin".to_string(), 3);
    assert_eq!(paths, args(&["file.bin1", "file.bin2", "file.bin3"]));
}

#[test]
fn part_file_names_past_nine() {
    let paths = part_paths(&"p".to_string(), 12);
    assert_eq!(paths.len(), 12);
    assert_eq!(paths[9], "p10");
    assert_eq!(paths[11], "p12");
}
