use hexdump::parse::parse_args;

fn args_of(xs: &[&str]) -> Vec<String> {
    xs.iter().map(|s| s.to_string()).collect()
}

#[test]
fn defaults_with_no_arguments() {
    let (cfg, file) = parse_args(&args_of(&[]));
    assert_eq!(cfg.group, 2);
    assert!(!cfg.little_endian);
    assert_eq!(cfg.limit, None);
    assert_eq!(cfg.column, 16);
    assert_eq!(cfg.seek_offset, 0);
    assert!(file.is_none());
}

#[test]
fn little_endian_changes_default_group() {
    let (cfg, file) = parse_args(&args_of(&["-e"]));
    assert!(cfg.little_endian);
    assert_eq!(cfg.group, 4);
    assert!(file.is_none());
}

#[test]
fn group_divisor_accepted() {
    let (cfg, file) = parse_args(&args_of(&["-g", "8", "f.bin"]));
    assert_eq!(cfg.group, 8);
    assert_eq!(file.as_deref(), Some("f.bin"));
}

#[test]
fn group_zero_accepted_as_auto() {
    let (cfg, file) = parse_args(&args_of(&["-g", "0"]));
    assert_eq!(cfg.group, 0);
    assert!(file.is_none());
}

#[test]
fn group_non_divisor_silently_rejected() {
    let (cfg, _) = parse_args(&args_of(&["-g", "3"]));
    assert_eq!(cfg.group, 2);
    let (cfg, _) = parse_args(&args_of(&["-e", "-g", "3"]));
    assert_eq!(cfg.group, 4);
}

#[test]
fn group_malformed_or_oversized_rejected() {
    let (cfg, _) = parse_args(&args_of(&["-g", "abc"]));
    assert_eq!(cfg.group, 2);
    let (cfg, _) = parse_args(&args_of(&["-g", "300"]));
    assert_eq!(cfg.group, 2);
}

#[test]
fn limit_flag_parsed() {
    let (cfg, file) = parse_args(&args_of(&["-l", "5", "data"]));
    assert_eq!(cfg.limit, Some(5));
    assert_eq!(file.as_deref(), Some("data"));
}

#[test]
fn limit_malformed_ignored() {
    let (cfg, _) = parse_args(&args_of(&["-l", "x5"]));
    assert_eq!(cfg.limit, None);
}

#[test]
fn limit_overflow_ignored() {
    let (cfg, _) = parse_args(&args_of(&["-l", "99999999999999999999999999"]));
    assert_eq!(cfg.limit, None);
}

#[test]
fn leading_plus_accepted() {
    let (cfg, _) = parse_args(&args_of(&["-l", "+7"]));
    assert_eq!(cfg.limit, Some(7));
}

#[test]
fn column_flag_parsed() {
    let (cfg, _) = parse_args(&args_of(&["-c", "8"]));
    assert_eq!(cfg.column, 8);
}

#[test]
fn seek_flag_parsed() {
    let (cfg, _) = parse_args(&args_of(&["-s", "10"]));
    assert_eq!(cfg.seek_offset, 10);
}

#[test]
fn consumed_value_is_not_a_filename() {
    let (cfg, file) = parse_args(&args_of(&["-s", "5"]));
    assert_eq!(cfg.seek_offset, 5);
    assert!(file.is_none());
}

#[test]
fn trailing_flag_name_is_not_a_filename() {
    let (cfg, file) = parse_args(&args_of(&["-l"]));
    assert_eq!(cfg.limit, None);
    assert!(file.is_none());
}

#[test]
fn filename_after_flags() {
    let (cfg, file) = parse_args(&args_of(&["-e", "data.bin"]));
    assert!(cfg.little_endian);
    assert_eq!(file.as_deref(), Some("data.bin"));
}

#[test]
fn unknown_flag_ignored() {
    let (cfg, file) = parse_args(&args_of(&["-x", "file"]));
    assert_eq!(cfg.group, 2);
    assert_eq!(file.as_deref(), Some("file"));
}

#[test]
fn first_flag_occurrence_wins() {
    let (cfg, file) = parse_args(&args_of(&["-g", "4", "-g", "8"]));
    assert_eq!(cfg.group, 4);
    // the trailing "8" follows the second "-g", which consumes nothing
    assert_eq!(file.as_deref(), Some("8"));
}
