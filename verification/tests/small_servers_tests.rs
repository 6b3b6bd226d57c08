use protohack::chat_user::{User, UserError};
use protohack::primes::is_prime;
use protohack::vcs_codec::{RespValue, VersionControlCommand};
use protohack::vcs_store::{File, FileManager};

#[test]
fn known_primes() {
    assert!(is_prime(2));
    assert!(is_prime(3));
    assert!(is_prime(13));
    assert!(is_prime(97));
}

#[test]
fn known_non_primes() {
    assert!(!is_prime(0));
    assert!(!is_prime(1));
    assert!(!is_prime(8));
    assert!(!is_prime(12));
    assert!(!is_prime(91));
}

#[test]
fn user_name_rules() {
    assert!(User::new("alice").is_ok());
    assert!(User::new("Bob7").is_ok());
    assert_eq!(User::new("").unwrap_err(), UserError::Blank);
    assert_eq!(User::new("has space").unwrap_err(), UserError::NotAlphanumeric);
    assert_eq!(
        User::new("averyveryverylongname").unwrap_err(),
        UserError::TooLong
    );
    assert_eq!(User::new("").unwrap_err().message(), "Will not accept blank name");
}

#[test]
fn file_revisions_are_content_addressed() {
    let mut f = File::new();
    let r1 = f.put("hello");
    assert_eq!(r1, 1);
    let r2 = f.put("world");
    assert_eq!(r2, 2);
    let r3 = f.put("hello");
    assert_eq!(r3, 1, "same content keeps its revision number");
    assert_eq!(f.get(Some(1)), b"hello");
    assert_eq!(f.get(Some(2)), b"world");
    assert_eq!(f.get(None), b"world");
}

#[test]
fn file_manager_put_and_list() {
    let mut m = FileManager::new();
    let resp = m.apply(VersionControlCommand::Put(Some((
        "/dir/a.txt".to_string(),
        "content".to_string(),
    ))));
    assert_eq!(resp, RespValue::Text("OK r1".to_string()));
    let resp = m.apply(VersionControlCommand::Put(Some((
        "/dir/a.txt".to_string(),
        "content2".to_string(),
    ))));
    assert_eq!(resp, RespValue::Text("OK r2".to_string()));
    let resp = m.apply(VersionControlCommand::List(Some("/dir/x".to_string())));
    assert_eq!(resp, RespValue::Text("OK 1".to_string()));
    let resp = m.apply(VersionControlCommand::List(Some("/nowhere/x".to_string())));
    assert_eq!(resp, RespValue::Text("OK 0".to_string()));
    let resp = m.apply(VersionControlCommand::Help);
    assert_eq!(resp, RespValue::Text("OK usage: HELP|GET|PUT|LIST".to_string()));
    let resp = m.apply(VersionControlCommand::List(None));
    assert_eq!(resp, RespValue::Text("ERR usage: LIST dir".to_string()));
}

#[test]
fn vcs_codec_encodes_lines() {
    let mut codec = protohack::vcs_codec::Codec;
    let mut buf: Vec<u8> = Vec::new();
    codec
        .encode(RespValue::Text("READY".to_string()), &mut buf)
        .unwrap();
    assert_eq!(buf, b"READY\n");
}
