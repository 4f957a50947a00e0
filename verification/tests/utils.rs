use magic_mount::build_layout::{aarch64_bin_path, armv7_bin_path, module_dir, temp_dir, x64_bin_path};
use magic_mount::text::{is_control_char, is_white_space_char, text_has_line};
use magic_mount::umount::{send_unmountable, UnmountState};
use magic_mount::utils::{description, generate_tmp, update_desc};

#[test]
fn tmp_paths_are_random_names_under_mnt() {
    let t = generate_tmp();
    assert_eq!(t.len(), 15);
    assert!(t.starts_with("/mnt/"));
    assert!(t[5..].chars().all(|c| c.is_ascii_alphanumeric()));
}

#[test]
fn description_counts_are_written() {
    assert_eq!(
        description(12, 0, 305),
        "[\u{1F60B} MF 12,MS 0,IG 305] An implementation of a metamodule using Magic Mount."
    );
    assert_eq!(
        description(u32::MAX, 9, 10),
        "[\u{1F60B} MF 4294967295,MS 9,IG 10] An implementation of a metamodule using Magic Mount."
    );
}

#[test]
fn description_lines_are_replaced() {
    let prop = "id=magic\ndescription=old\nname=x\ndescriptionless=1\n";
    let out = update_desc(prop, 1, 2, 3);
    let d = description(1, 2, 3);
    assert_eq!(out, format!("id=magic\ndescription={d}\nname=x\ndescription={d}"));
    assert_eq!(update_desc("", 1, 2, 3), "");
    assert_eq!(update_desc("a\r\nb", 1, 2, 3), "a\nb");
}

#[test]
fn unmountable_targets_are_kept_only_with_kernelsu() {
    let mut s = UnmountState::new(true);
    send_unmountable(&mut s, "/system/bin");
    send_unmountable(&mut s, "/vendor");
    assert_eq!(s.targets, vec!["/system/bin".to_string(), "/vendor".to_string()]);
    let mut s = UnmountState::new(false);
    send_unmountable(&mut s, "/system/bin");
    assert!(s.targets.is_empty());
    let mut s = UnmountState::new(true);
    s.closed = true;
    send_unmountable(&mut s, "/system/bin");
    assert!(s.targets.is_empty());
}

#[test]
fn build_paths() {
    assert_eq!(module_dir(), "module");
    assert_eq!(temp_dir(), "output/.temp");
    assert_eq!(aarch64_bin_path(), "target/aarch64-linux-android/release/magic_mount_rs");
    assert_eq!(armv7_bin_path(), "target/armv7-linux-androideabi/release/magic_mount_rs");
    assert_eq!(x64_bin_path(), "target/x86_64-linux-android/release/magic_mount_rs");
    assert_eq!(
        std::path::Path::new("target").join("x86_64-linux-android").join("release").join("magic_mount_rs").to_str().unwrap(),
        x64_bin_path()
    );
}

#[test]
fn character_classes_agree_with_std() {
    for v in 0u32..=0x10FFFF {
        if let Some(c) = char::from_u32(v) {
            assert_eq!(is_white_space_char(c), c.is_whitespace(), "white space {v:#x}");
            assert_eq!(is_control_char(c), c.is_control(), "control {v:#x}");
        }
    }
}

#[test]
fn lines_are_found_as_str_lines_finds_them() {
    let texts = ["a\nb\r\nc\r", "", "\n", "x\r\n", "a\n\nb\n"];
    let wanted = ["a", "b", "c", "c\r", "", "x", "x\r", "d"];
    for t in texts {
        for w in wanted {
            assert_eq!(text_has_line(t, w), t.lines().any(|l| l == w), "{t:?} {w:?}");
        }
    }
}
