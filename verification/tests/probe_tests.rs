use carsync::hex::HexError;
use carsync::probe::{
    checksum_output_would_panic, parse_u64, remote_checksums_match, remote_listed_files,
    remote_metadata_match, StatError,
};

#[test]
fn stat_output_with_same_size_and_newer_remote_matches() {
    assert_eq!(remote_metadata_match(1024, 1000, "1024 1000\n"), Ok(true));
    assert_eq!(remote_metadata_match(1024, 1000, "1024 2000\n"), Ok(true));
}

#[test]
fn stat_output_with_older_remote_does_not_match() {
    assert_eq!(remote_metadata_match(1024, 1000, "1024 999\n"), Ok(false));
}

#[test]
fn stat_output_with_other_size_does_not_match() {
    assert_eq!(remote_metadata_match(1024, 1000, "1025 5000\n"), Ok(false));
    assert_eq!(remote_metadata_match(1024, 1000, "1025 garbage\n"), Ok(false));
}

#[test]
fn stat_output_with_missing_words_does_not_match() {
    assert_eq!(remote_metadata_match(1, 1, ""), Ok(false));
    assert_eq!(remote_metadata_match(1, 1, "   \n"), Ok(false));
    assert_eq!(remote_metadata_match(1, 1, "1\n"), Ok(false));
}

#[test]
fn stat_output_with_bad_numbers_is_an_error() {
    assert_eq!(
        remote_metadata_match(1, 1, "abc 1"),
        Err(StatError::InvalidSize)
    );
    assert_eq!(
        remote_metadata_match(1, 1, "1 -5"),
        Err(StatError::InvalidModified)
    );
    assert_eq!(
        remote_metadata_match(1, 1, "99999999999999999999 1"),
        Err(StatError::InvalidSize)
    );
}

#[test]
fn stat_output_accepts_plus_sign_and_extra_space() {
    assert_eq!(remote_metadata_match(7, 3, "  +7\t\t+3  extra\n"), Ok(true));
}

#[test]
fn parse_u64_agrees_with_str_parse() {
    for t in [
        "0", "42", "+42", "+", "", "-1", "18446744073709551615", "18446744073709551616", "1a",
        "0007", "++1",
    ] {
        let chars: Vec<char> = t.chars().collect();
        assert_eq!(parse_u64(&chars, 0, chars.len()), t.parse::<u64>().ok(), "{}", t);
    }
}

#[test]
fn sha256sum_output_with_same_digest_matches() {
    let hash: Vec<u8> = (0..32u8).collect();
    let hex: String = hash.iter().map(|b| format!("{:02x}", b)).collect();
    let output = format!("{}  /srv/file.txt\n", hex);
    assert_eq!(remote_checksums_match(&hash, &output), Ok(true));
    let mut other = hash.clone();
    other[31] = 0;
    assert_eq!(remote_checksums_match(&other, &output), Ok(false));
}

#[test]
fn sha256sum_output_without_words_does_not_match() {
    assert_eq!(remote_checksums_match(&[1, 2], ""), Ok(false));
    assert_eq!(remote_checksums_match(&[1, 2], " \n "), Ok(false));
}

#[test]
fn sha256sum_output_with_bad_hex_is_an_error() {
    assert_eq!(
        remote_checksums_match(&[1], "abc  file"),
        Err(HexError::InvalidLength)
    );
    assert_eq!(
        remote_checksums_match(&[1], "zz  file"),
        Err(HexError::InvalidDigit)
    );
}

#[test]
fn sha256sum_output_that_would_panic_is_detected() {
    assert!(checksum_output_would_panic("aéa  file"));
    assert!(!checksum_output_would_panic("ab  file"));
    assert!(!checksum_output_would_panic(""));
}

#[test]
fn find_output_lists_files_relative_to_base() {
    let files = remote_listed_files("/srv/b", "/srv/b/x.txt\n\n  /srv/b/d/y.txt  \r\n/other/z\n");
    let got: Vec<(String, String)> = files
        .into_iter()
        .map(|f| (f.remote_path, f.relative))
        .collect();
    assert_eq!(
        got,
        vec![
            ("/srv/b/x.txt".to_string(), "x.txt".to_string()),
            ("/srv/b/d/y.txt".to_string(), "d/y.txt".to_string()),
        ]
    );
}

#[test]
fn find_output_follows_str_lines() {
    let output = "/b/one\r\n/b/two\n/b/three";
    let files = remote_listed_files("/b", output);
    let expected: Vec<String> = output
        .lines()
        .map(|l| l.trim())
        .filter(|l| !l.is_empty())
        .map(|l| l.strip_prefix("/b").unwrap().trim_start_matches('/').to_string())
        .collect();
    let got: Vec<String> = files.into_iter().map(|f| f.relative).collect();
    assert_eq!(got, expected);
}

#[test]
fn empty_find_output_lists_nothing() {
    assert!(remote_listed_files("/b", "").is_empty());
}
