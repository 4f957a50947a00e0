use magic_mount::scanner::{module_partitions, normalize_version, scan_modules, ModuleEntry};
use magic_mount::utils::validate_module_id;

fn prop(id: &str) -> String {
    format!("id={id}\nname=Name {id}\nversion=v1.2\nauthor=me\ndescription=desc\n")
}

fn entry(prop_text: Option<String>) -> ModuleEntry {
    ModuleEntry {
        is_dir: true,
        has_module_prop: true,
        partition_dirs: vec!["system".to_string()],
        has_disable: false,
        has_remove: false,
        has_skip_mount: false,
        module_prop: prop_text,
    }
}

#[test]
fn module_ids_have_a_fixed_shape() {
    assert!(validate_module_id("ab").is_ok());
    assert!(validate_module_id("magic_mount-rs.2").is_ok());
    assert!(validate_module_id("a").is_err());
    assert!(validate_module_id("1ab").is_err());
    assert!(validate_module_id("a b").is_err());
    assert!(validate_module_id("ab\n").is_err());
    assert!(validate_module_id("").is_err());
}

#[test]
fn versions_lose_a_v_before_a_digit() {
    assert_eq!(normalize_version("v1.0"), "1.0");
    assert_eq!(normalize_version("V2"), "2");
    assert_eq!(normalize_version("version"), "version");
    assert_eq!(normalize_version("v"), "v");
    assert_eq!(normalize_version("1.0"), "1.0");
    assert_eq!(normalize_version(""), "");
}

#[test]
fn partitions_are_system_and_the_extra_ones() {
    let p = module_partitions(&["vendor".to_string()]);
    assert!(p.contains(&"system".to_string()));
    assert!(p.contains(&"vendor".to_string()));
}

#[test]
fn modules_are_filtered_and_sorted() {
    let mut disabled = entry(Some(prop("dis")));
    disabled.has_disable = true;
    let mut removed = entry(Some(prop("rem")));
    removed.has_remove = true;
    let mut skipped = entry(Some(prop("skp")));
    skipped.has_skip_mount = true;
    let mut no_partition = entry(Some(prop("nop")));
    no_partition.partition_dirs = vec!["vendor".to_string()];
    let mut vendor = entry(Some(prop("ven")));
    vendor.partition_dirs = vec!["vendor".to_string()];
    let mut not_dir = entry(Some(prop("nd")));
    not_dir.is_dir = false;
    let entries = vec![
        entry(Some(prop("zeta"))),
        disabled,
        entry(Some(prop("alpha"))),
        removed,
        skipped,
        entry(None),
        entry(Some("name=x\n".to_string())),
        entry(Some(prop("1bad"))),
        no_partition,
        not_dir,
        entry(Some(prop("Beta"))),
    ];
    let found = scan_modules(&entries, &[]);
    let ids: Vec<&str> = found.iter().map(|m| m.id.as_str()).collect();
    assert_eq!(ids, vec!["Beta", "alpha", "zeta"]);
    assert_eq!(found[1].version, "1.2");
    assert_eq!(found[1].name, "Name alpha");
    assert!(!found[1].disabled && !found[1].skip);

    // A module needs a `system` directory, whatever further partitions are looked for.
    let with_vendor = scan_modules(&vec![vendor], &["vendor".to_string()]);
    assert!(with_vendor.is_empty());
}

#[test]
fn modules_with_one_id_keep_their_order() {
    let mut a = entry(Some(format!("{}author=first\n", prop("same"))));
    a.partition_dirs = vec!["system".to_string()];
    let b = entry(Some(prop("same")));
    let found = scan_modules(&vec![a, b], &[]);
    assert_eq!(found.len(), 2);
    assert_eq!(found[0].author, "first");
    assert_eq!(found[1].author, "me");
}

#[test]
fn later_keys_override_earlier_ones() {
    let e = entry(Some(format!("{}id=other\n", prop("first"))));
    let found = scan_modules(&vec![e], &[]);
    assert_eq!(found[0].id, "other");
}

#[test]
fn further_partitions_leave_the_scan_unchanged() {
    let mut vendor_only = entry(Some(prop("ven")));
    vendor_only.partition_dirs = vec!["vendor".to_string()];
    let mut both = entry(Some(prop("both")));
    both.partition_dirs = vec!["vendor".to_string(), "system".to_string()];
    let entries = vec![entry(Some(prop("bb"))), vendor_only, both, entry(Some(prop("aa")))];
    let ids = |extra: &[String]| -> Vec<String> {
        scan_modules(&entries, extra).into_iter().map(|m| m.id).collect()
    };
    let expected = vec!["aa".to_string(), "bb".to_string(), "both".to_string()];
    assert_eq!(ids(&[]), expected);
    assert_eq!(ids(&["vendor".to_string()]), expected);
    assert_eq!(ids(&["vendor".to_string(), "product".to_string(), "vendor".to_string()]), expected);
}
