use scryd::messages::Address;
use scryd::sink::message_insert;
use scryd::digest::hex_sha256;
use scryd::preflight::{assert_dir, assert_file_no_world_bits};
use scryd::raw::raw_path;
use scryd::sink::synthesize_message_id;
use scryd::xdg::{assets_dir, config_path, data_dir, runtime_dir, XdgError, XdgPath};
use sha2::Digest;

const APR_15_2026_MIDNIGHT_UTC: i64 = 1_776_211_200;

fn expected_filename(message_id: &str) -> String {
    format!("{}.eml", hex::encode(sha2::Sha256::digest(message_id.as_bytes())))
}

#[test]
fn config_path_uses_xdg_config_home_when_set() {
    let p = config_path(Some("/home/alice/cfg"), None).unwrap();
    assert_eq!(p, "/home/alice/cfg/scryd/config.toml");
}

#[test]
fn config_path_falls_back_to_home_dot_config() {
    let p = config_path(None, Some("/home/alice")).unwrap();
    assert_eq!(p, "/home/alice/.config/scryd/config.toml");
}

#[test]
fn data_dir_uses_xdg_data_home_when_set() {
    let p = data_dir(Some("/home/alice/data"), None).unwrap();
    assert_eq!(p, "/home/alice/data/scryd");
}

#[test]
fn data_dir_falls_back_to_home_dot_local_share() {
    let p = data_dir(None, Some("/home/alice")).unwrap();
    assert_eq!(p, "/home/alice/.local/share/scryd");
}

#[test]
fn assets_dir_is_data_dir_plus_assets() {
    let p = assets_dir(Some("/home/alice/data"), None).unwrap();
    assert_eq!(p, "/home/alice/data/scryd/assets");
}

#[test]
fn empty_string_env_treated_as_unset() {
    let p = data_dir(Some(""), Some("/home/alice")).unwrap();
    assert_eq!(p, "/home/alice/.local/share/scryd");
}

#[test]
fn unresolvable_paths_name_what_was_wanted() {
    assert_eq!(
        config_path(None, None),
        Err(XdgError::UnresolvableXdgPath(XdgPath::ConfigPath))
    );
    assert_eq!(
        data_dir(Some(""), Some("")),
        Err(XdgError::UnresolvableXdgPath(XdgPath::DataDir))
    );
    assert_eq!(runtime_dir(None), Err(XdgError::MissingRuntimeDir));
    assert_eq!(runtime_dir(Some("")), Err(XdgError::MissingRuntimeDir));
    assert_eq!(runtime_dir(Some("/run/user/1000")).unwrap(), "/run/user/1000/scryd");
    assert_eq!(XdgPath::ConfigPath.as_str(), "config_path");
    assert_eq!(XdgPath::DataDir.as_str(), "data_dir");
}

#[test]
fn preflight_passes_when_invariants_hold() {
    let config = config_path(Some("/tmp/cfg"), None).unwrap();
    let data = data_dir(Some("/tmp/data"), None).unwrap();
    let assets = assets_dir(Some("/tmp/data"), None).unwrap();
    assert!(config.ends_with("scryd/config.toml"));
    assert!(data.ends_with("scryd"));
    assert!(assets.ends_with("scryd/assets"));
    assert_eq!(assert_file_no_world_bits("config", 0o100600), Ok(()));
    assert_eq!(assert_dir("data dir", true, 0o40700, 0o700), Ok(()));
}

#[test]
fn preflight_rejects_world_readable_config() {
    match assert_file_no_world_bits("config", 0o100644) {
        Err(reason) => {
            assert!(reason.contains("config"), "reason={reason}");
            assert!(reason.contains("world"), "reason={reason}");
            assert_eq!(reason, "config: world bits set on mode 644");
        }
        other => panic!("expected PermissionInvariant, got {other:?}"),
    }
}

#[test]
fn preflight_accepts_group_readable_config() {
    assert_file_no_world_bits("config", 0o100640).expect("0o640 config should pass preflight");
}

#[test]
fn preflight_rejects_loose_data_dir() {
    match assert_dir("data dir", true, 0o40755, 0o700) {
        Err(reason) => {
            assert!(reason.contains("data"));
            assert_eq!(reason, "data dir: expected mode 700, got 755");
        }
        other => panic!("expected PermissionInvariant for loose data dir, got {other:?}"),
    }
}

#[test]
fn preflight_rejects_a_data_path_that_is_not_a_directory() {
    assert_eq!(
        assert_dir("data dir", false, 0o100700, 0o700),
        Err("data dir: not a directory".to_string())
    );
}

#[test]
fn raw_path_is_deterministic() {
    let p1 = raw_path("/tmp/d", "primary", "primary:det@x", 1_700_000_000);
    let p2 = raw_path("/tmp/d", "primary", "primary:det@x", 1_700_000_000);
    assert_eq!(p1, p2);
}

#[test]
fn raw_path_lays_out_account_year_month_and_hashed_name() {
    let p = raw_path("/data", "primary", "primary:abc@x", APR_15_2026_MIDNIGHT_UTC);
    assert_eq!(
        p,
        format!("/data/raw/primary/2026/04/{}", expected_filename("primary:abc@x"))
    );
    let q = raw_path("/data/", "primary", "primary:mkdir@x", 0);
    assert!(q.starts_with("/data/raw/primary/1970/01/"));
}

#[test]
fn raw_path_falls_back_to_the_epoch_for_unrepresentable_dates() {
    let p = raw_path("/data", "primary", "primary:x@x", i64::MAX);
    assert_eq!(
        p,
        format!("/data/raw/primary/1970/01/{}", expected_filename("primary:x@x"))
    );
}

#[test]
fn hex_sha256_matches_the_reference_digest() {
    assert_eq!(
        hex_sha256(b"abc"),
        "ba7816bf8f01cfea414140de5dae2223b00361a396177a9cb410ff61f20015ad"
    );
    assert_eq!(hex_sha256(b"").len(), 64);
}

#[test]
fn message_id_prefers_the_header_id() {
    assert_eq!(
        synthesize_message_id("primary", Some("abc@x"), "INBOX", 42, 7),
        "primary:abc@x"
    );
}

#[test]
fn message_id_without_header_is_synthesized_from_the_mailbox_slot() {
    let id = synthesize_message_id("primary", None, "INBOX", 42, 7);
    let expected = format!(
        "primary:synth-{}",
        hex::encode(sha2::Sha256::digest(b"INBOX|42|7"))
    );
    assert_eq!(id, expected);
    assert_ne!(id, synthesize_message_id("primary", None, "INBOX", 42, 8));
}

#[test]
fn message_insert_names_and_places_the_message() {
    let m = message_insert(
        "/data",
        "primary".to_string(),
        "INBOX".to_string(),
        7,
        42,
        1234,
        None,
        Some("<p@x>".to_string()),
        vec!["<r@x>".to_string()],
        Address { addr: "bob@example.com".to_string(), name: Some("Bob".to_string()) },
        vec![Address { addr: "alice@example.com".to_string(), name: None }],
        Vec::new(),
        Some("Hello".to_string()),
        APR_15_2026_MIDNIGHT_UTC,
        "body".to_string(),
    );
    let expected_id = format!("primary:synth-{}", hex::encode(sha2::Sha256::digest(b"INBOX|42|7")));
    assert_eq!(m.message_id, expected_id);
    assert_eq!(m.raw_path, format!("/data/raw/primary/2026/04/{}", expected_filename(&expected_id)));
    assert_eq!(m.size_bytes, 1234);
    assert_eq!(m.sender_addr, "bob@example.com");
    assert_eq!(m.sender_name.as_deref(), Some("Bob"));
    assert_eq!(m.in_reply_to.as_deref(), Some("<p@x>"));
    assert_eq!(m.subject.as_deref(), Some("Hello"));
}

#[test]
fn bases_already_named_scryd_get_no_second_suffix() {
    assert_eq!(config_path(Some("/etc/scryd"), None).unwrap(), "/etc/scryd/config.toml");
    assert_eq!(data_dir(Some("/var/lib/scryd"), None).unwrap(), "/var/lib/scryd");
    assert_eq!(assets_dir(Some("/var/lib/scryd"), None).unwrap(), "/var/lib/scryd/assets");
    assert_eq!(runtime_dir(Some("/run/scryd")).unwrap(), "/run/scryd");
    assert_eq!(data_dir(Some("/var/lib/scryd-old"), None).unwrap(), "/var/lib/scryd-old/scryd");
}

#[test]
fn raw_path_dates_follow_the_civil_calendar() {
    let cases = [
        (951_782_400i64, "2000/02"),
        (951_782_399, "2000/02"),
        (951_868_800, "2000/03"),
        (-1, "1969/12"),
        (-11_670_912_000, "1600/03"),
        (253_402_300_800, "+10000/01"),
    ];
    for (secs, ym) in cases {
        let p = raw_path("/d", "a", "a:1@x", secs);
        assert!(p.starts_with(&format!("/d/raw/a/{ym}/")), "{secs} gave {p}");
    }
}
