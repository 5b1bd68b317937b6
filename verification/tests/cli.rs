//! Argument handling and hex text of the command-line tool.

use ppose::cli::{
    hex, no_leftovers, parse_hex, parse_hex32, positional, positional_or, rs_epoch_now, take_all_flag, take_cover_flag,
    take_flag, take_key_flag, take_pin_flag, CliError,
};
use ppose::cover::CoverMode;

fn args(v: &[&str]) -> Vec<String> {
    v.iter().map(|s| s.to_string()).collect()
}

#[test]
fn misspelled_flag_is_rejected() {
    let mut rest = args(&["127.0.0.1:9", "--covr", "stealth"]);
    assert_eq!(take_pin_flag(&mut rest, "--pin"), Ok(None));
    assert_eq!(take_cover_flag(&mut rest), Ok(CoverMode::Off));
    assert_eq!(take_flag(&mut rest, "--msg"), Ok(None));
    assert_eq!(positional(&mut rest, "usage"), Ok("127.0.0.1:9".to_string()));
    assert_eq!(no_leftovers(&rest), Err(CliError::Unexpected("--covr".to_string())));
}

#[test]
fn non_ascii_hex_is_an_error_not_a_panic() {
    let mut rest = args(&["127.0.0.1:9", "--pin", &"é".repeat(32)]);
    assert_eq!(take_pin_flag(&mut rest, "--pin"), Err(CliError::NotHex));
    assert_eq!(parse_hex("é"), Err(CliError::NotHex));
}

#[test]
fn take_flag_removes_pair() {
    let mut a = args(&["x", "--key", "v", "y", "--key", "w"]);
    assert_eq!(take_flag(&mut a, "--key"), Ok(Some("v".to_string())));
    assert_eq!(a, args(&["x", "y", "--key", "w"]));
    let mut b = args(&["x", "--psk"]);
    assert_eq!(take_flag(&mut b, "--psk"), Err(CliError::MissingValue("--psk".to_string())));
    assert_eq!(b, args(&["x", "--psk"]));
}

#[test]
fn take_all_flag_keeps_order() {
    let mut a = args(&["--hop", "h1", "p", "--hop", "h2", "--hop"]);
    assert_eq!(take_all_flag(&mut a, "--hop"), args(&["h1", "h2"]));
    assert_eq!(a, args(&["p", "--hop"]));
}

#[test]
fn positionals() {
    let mut a = args(&[]);
    assert_eq!(positional(&mut a, "usage: x"), Err(CliError::Usage("usage: x".to_string())));
    assert_eq!(positional_or(&mut a, "127.0.0.1:0"), "127.0.0.1:0");
    let mut b = args(&["0.0.0.0:7", "z"]);
    assert_eq!(positional_or(&mut b, "d"), "0.0.0.0:7");
    assert_eq!(b, args(&["z"]));
    assert_eq!(no_leftovers(&args(&[])), Ok(()));
}

#[test]
fn hex_roundtrip_and_errors() {
    assert_eq!(hex(&[0x00, 0x0f, 0xa5, 0xff]), "000fa5ff");
    assert_eq!(parse_hex("000fA5ff"), Ok(vec![0x00, 0x0f, 0xa5, 0xff]));
    assert_eq!(parse_hex("abc"), Err(CliError::OddLength(3)));
    assert_eq!(parse_hex("zz"), Err(CliError::NotHex));
    assert_eq!(parse_hex(""), Ok(vec![]));
    let k = [0x5au8; 32];
    assert_eq!(parse_hex32(&hex(&k)), Ok(k));
    assert_eq!(parse_hex32("00"), Err(CliError::WrongLength(1)));
}

#[test]
fn cover_flag_values() {
    let mut a = args(&["--cover", "balanced"]);
    assert_eq!(take_cover_flag(&mut a), Ok(CoverMode::Balanced));
    assert!(a.is_empty());
    let mut b = args(&["--cover", "stealth"]);
    assert_eq!(take_cover_flag(&mut b), Ok(CoverMode::Stealth));
    let mut c = args(&["--cover", "off"]);
    assert_eq!(take_cover_flag(&mut c), Ok(CoverMode::Off));
    let mut d = args(&["--cover", "loud"]);
    assert_eq!(take_cover_flag(&mut d), Err(CliError::BadCover("loud".to_string())));
}

#[test]
fn key_flags_parse_hex32() {
    let k = [7u8; 32];
    let mut a = args(&["--key", &hex(&k)]);
    let s = take_key_flag(&mut a, "--key").unwrap().unwrap();
    assert_eq!(s.to_bytes(), k);
    let mut b = args(&["--pin", &hex(&k)]);
    assert_eq!(take_pin_flag(&mut b, "--pin").unwrap().unwrap().as_bytes(), k);
    let mut c = args(&["--pin", "0011"]);
    assert_eq!(take_pin_flag(&mut c, "--pin"), Err(CliError::WrongLength(2)));
}

#[test]
fn epoch_hours() {
    assert_eq!(rs_epoch_now(0), 0);
    assert_eq!(rs_epoch_now(3599), 0);
    assert_eq!(rs_epoch_now(7200), 2);
}
