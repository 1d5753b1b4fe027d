use wvec::cli::{command_of, get_arg, has_flag, SubCommand};
use wvec::ffi::{FfiError, ERR_INVALID_SIZE, ERR_NULL_POINTER, ERR_OUT_OF_MEMORY, SUCCESS};

fn strings(list: &[&str]) -> Vec<String> {
    list.iter().map(|s| s.to_string()).collect()
}

#[test]
fn get_arg_returns_following_value() {
    let args = strings(&["--input", "a.txt", "--size", "100", "--input", "b.txt"]);
    assert_eq!(get_arg(&args, "--input"), Some("a.txt".to_string()));
    assert_eq!(get_arg(&args, "--size"), Some("100".to_string()));
    assert_eq!(get_arg(&args, "--missing"), None);
}

#[test]
fn get_arg_at_the_end_has_no_value() {
    let args = strings(&["--verbose", "--out"]);
    assert_eq!(get_arg(&args, "--out"), None);
    assert_eq!(get_arg(&args, "--verbose"), Some("--out".to_string()));
}

#[test]
fn has_flag_finds_exact_arguments() {
    let args = strings(&["--verbose", "x"]);
    assert!(has_flag(&args, "--verbose"));
    assert!(!has_flag(&args, "--verb"));
    assert!(!has_flag(&[], "--verbose"));
}

#[test]
fn command_names_select_subcommands() {
    assert_eq!(command_of(Some("train")), SubCommand::Train);
    assert_eq!(command_of(Some("bpe-train")), SubCommand::BpeTrain);
    assert_eq!(command_of(Some("bpe-encode")), SubCommand::BpeEncode);
    assert_eq!(command_of(Some("info")), SubCommand::Info);
    assert_eq!(command_of(Some("similar")), SubCommand::Similar);
    assert_eq!(command_of(Some("analogy")), SubCommand::Analogy);
    assert_eq!(command_of(Some("embed")), SubCommand::Embed);
    assert_eq!(command_of(Some("--help")), SubCommand::Help);
    assert_eq!(command_of(Some("bogus")), SubCommand::Help);
    assert_eq!(command_of(None), SubCommand::Help);
}

#[test]
fn status_codes_map_to_errors() {
    assert_eq!(FfiError::from_status(SUCCESS), None);
    assert_eq!(FfiError::from_status(ERR_NULL_POINTER), Some(FfiError::NullPointer));
    assert_eq!(FfiError::from_status(ERR_INVALID_SIZE), Some(FfiError::InvalidSize));
    assert_eq!(FfiError::from_status(ERR_OUT_OF_MEMORY), Some(FfiError::OutOfMemory));
    assert_eq!(FfiError::from_status(-42), Some(FfiError::Unknown(-42)));
    assert_eq!(FfiError::InvalidSize.message(), "invalid size");
}
