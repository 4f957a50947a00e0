use magic_mount::config::{
    decode_hex, default_mountsource, parse_payload_arg, payload_text, trim_end_matches_char,
    ApiConfigPayload, Config, MODULE_PATH,
};
use magic_mount::error::Error;

fn config() -> Config {
    Config { mountsource: "magic".to_string(), partitions: vec!["vendor".to_string()], umount: true }
}

fn empty_payload() -> ApiConfigPayload {
    ApiConfigPayload {
        mountsource: None,
        partitions: None,
        umount: None,
        disable_umount: None,
        ignore_list: None,
        custom_mounts: None,
    }
}

#[test]
fn default_config() {
    let c = Config::default();
    assert_eq!(c.mountsource, "KSU");
    assert!(c.partitions.is_empty());
    assert!(!c.umount);
    assert_eq!(default_mountsource(), "KSU");
}

#[test]
fn load_or_default_falls_back() {
    let c = Config::load_or_default(None);
    assert_eq!(c.mountsource, "KSU");
    let c = Config::load_or_default(Some(config()));
    assert_eq!(c.mountsource, "magic");
    assert!(c.umount);
}

#[test]
fn api_view_of_config() {
    let api = config().into_api(vec!["/x".to_string()], vec![]);
    assert_eq!(api.moduledir, "/data/adb/modules");
    assert_eq!(api.mountsource, "magic");
    assert_eq!(api.partitions, vec!["vendor".to_string()]);
    assert!(api.umount);
    assert!(!api.disable_umount);
    assert_eq!(api.ignore_list, vec!["/x".to_string()]);
    assert!(api.custom_mounts.is_empty());
}

#[test]
fn trailing_slashes_are_trimmed() {
    assert_eq!(trim_end_matches_char(MODULE_PATH, '/'), "/data/adb/modules");
    assert_eq!(trim_end_matches_char("a///", '/'), "a");
    assert_eq!(trim_end_matches_char("///", '/'), "");
}

#[test]
fn payload_fields_replace_config_fields() {
    let mut c = config();
    let mut p = empty_payload();
    p.mountsource = Some("other".to_string());
    p.partitions = Some(vec![]);
    p.umount = Some(false);
    p.disable_umount = Some(false);
    c.apply_api_payload(p);
    assert_eq!(c.mountsource, "other");
    assert!(c.partitions.is_empty());
    assert!(!c.umount);
}

#[test]
fn disable_umount_applies_when_umount_is_absent() {
    let mut c = config();
    let mut p = empty_payload();
    p.disable_umount = Some(true);
    c.apply_api_payload(p);
    assert!(!c.umount);
    assert_eq!(c.mountsource, "magic");
    let mut p = empty_payload();
    p.disable_umount = Some(false);
    c.apply_api_payload(p);
    assert!(c.umount);
}

#[test]
fn empty_payload_changes_nothing() {
    let mut c = config();
    c.apply_api_payload(empty_payload());
    assert_eq!(c.mountsource, "magic");
    assert_eq!(c.partitions, vec!["vendor".to_string()]);
    assert!(c.umount);
}

#[test]
fn set_umount_enabled_sets_it() {
    let mut c = Config::default();
    c.set_umount_enabled(true);
    assert!(c.umount_enabled());
    c.set_umount_enabled(false);
    assert!(!c.umount_enabled());
}

#[test]
fn hex_decodes_bytes() {
    assert_eq!(decode_hex("48656c6C6f").unwrap(), b"Hello".to_vec());
    assert_eq!(decode_hex("").unwrap(), Vec::<u8>::new());
    assert_eq!(decode_hex("+f00").unwrap(), vec![15, 0]);
    assert_eq!(decode_hex("ff").unwrap(), vec![255]);
}

#[test]
fn hex_of_odd_length_is_refused() {
    assert!(matches!(decode_hex("abc"), Err(Error::PayloadContain)));
}

#[test]
fn hex_with_a_bad_digit_is_refused() {
    match decode_hex("00zz11") {
        Err(Error::InvalidHexByte { hex }) => assert_eq!(hex, "zz"),
        other => panic!("unexpected {other:?}"),
    }
    match decode_hex("-1") {
        Err(Error::InvalidHexByte { hex }) => assert_eq!(hex, "-1"),
        other => panic!("unexpected {other:?}"),
    }
    assert!(matches!(decode_hex("+"), Err(Error::PayloadContain)));
}

#[test]
fn hex_single_plus_chunk_is_refused() {
    match decode_hex("++") {
        Err(Error::InvalidHexByte { hex }) => assert_eq!(hex, "++"),
        other => panic!("unexpected {other:?}"),
    }
}

#[test]
fn hex_with_a_non_ascii_chunk_is_refused() {
    match decode_hex("\u{e9}") {
        Err(Error::InvalidHexByte { hex }) => assert_eq!(hex, "\u{e9}"),
        other => panic!("unexpected {other:?}"),
    }
    assert!(matches!(decode_hex("\u{20ac}\u{20ac}"), Err(Error::HexNotUtf8)));
}

#[test]
fn payload_argument_is_found() {
    let args: Vec<String> = ["x", "--payload", "abcd", "--payload", "ef"].iter().map(|s| s.to_string()).collect();
    assert_eq!(parse_payload_arg(&args).unwrap(), "abcd");
    let args: Vec<String> = ["--payload"].iter().map(|s| s.to_string()).collect();
    assert!(matches!(parse_payload_arg(&args), Err(Error::MissingArgment)));
    assert!(matches!(parse_payload_arg(&[]), Err(Error::MissingArgment)));
    let args: Vec<String> = ["--payload", "--payload", "x"].iter().map(|s| s.to_string()).collect();
    assert_eq!(parse_payload_arg(&args).unwrap(), "--payload");
}

#[test]
fn payload_text_must_be_utf8() {
    assert_eq!(payload_text(b"{}".to_vec()).unwrap(), "{}");
    assert!(matches!(payload_text(vec![0xff]), Err(Error::PayloadNotUtf8)));
}

#[test]
fn hex_text_of_any_bytes_decodes_back() {
    let bytes: Vec<u8> = (0u16..=255).map(|b| b as u8).collect();
    let text: String = bytes.iter().map(|b| format!("{b:02x}")).collect();
    assert_eq!(decode_hex(&text).unwrap(), bytes);
    let upper: String = bytes.iter().map(|b| format!("{b:02X}")).collect();
    assert_eq!(decode_hex(&upper).unwrap(), bytes);
    let json = "{\"umount\":true,\"partitions\":[\"vendor\"]}";
    let text: String = json.bytes().map(|b| format!("{b:02x}")).collect();
    assert_eq!(payload_text(decode_hex(&text).unwrap()).unwrap(), json);
}

#[test]
fn applying_a_payload_twice_is_applying_it_once() {
    let payload = || {
        let mut p = empty_payload();
        p.mountsource = Some("tmpfs".to_string());
        p.disable_umount = Some(true);
        p
    };
    let mut once = config();
    once.apply_api_payload(payload());
    let mut twice = config();
    twice.apply_api_payload(payload());
    twice.apply_api_payload(payload());
    assert_eq!(once.mountsource, twice.mountsource);
    assert_eq!(once.partitions, twice.partitions);
    assert_eq!(once.umount, twice.umount);
    assert_eq!(twice.mountsource, "tmpfs");
    assert!(!twice.umount);
}
