use magic_mount::build_layout::{
    build_args, cargo_ndk_args, check_args, lint_args, release_zip_path, rustfmt_args,
    version_code, zip_url,
};

const NDK: [&str; 10] = [
    "+nightly",
    "ndk",
    "--platform",
    "26",
    "-t",
    "arm64-v8a",
    "-t",
    "armeabi-v7a",
    "-t",
    "x86_64",
];

fn with_ndk(rest: &[&str]) -> Vec<String> {
    NDK.iter().chain(rest.iter()).map(|s| s.to_string()).collect()
}

#[test]
fn cargo_ndk_arguments() {
    assert_eq!(cargo_ndk_args(), with_ndk(&[]));
}

#[test]
fn check_arguments() {
    assert_eq!(check_args(false), with_ndk(&["check", "-Z", "build-std", "-Z", "trim-paths"]));
    assert_eq!(
        check_args(true),
        with_ndk(&["check", "-Z", "build-std", "-Z", "trim-paths", "--verbose"])
    );
}

#[test]
fn build_arguments_put_verbose_first() {
    assert_eq!(build_args(false), with_ndk(&["build", "-Z", "build-std", "-r"]));
    assert_eq!(build_args(true), with_ndk(&["--verbose", "build", "-Z", "build-std", "-r"]));
}

#[test]
fn lint_arguments() {
    assert_eq!(lint_args(false, false), with_ndk(&["clippy"]));
    assert_eq!(lint_args(false, true), with_ndk(&["clippy", "--release"]));
    assert_eq!(
        lint_args(true, true),
        with_ndk(&["clippy", "--fix", "--allow-dirty", "--allow-staged", "--all", "--release"])
    );
}

#[test]
fn rustfmt_arguments() {
    assert_eq!(rustfmt_args(false), vec!["fmt".to_string(), "--all".to_string()]);
    assert_eq!(
        rustfmt_args(true),
        vec!["fmt".to_string(), "--all".to_string(), "--verbose".to_string()]
    );
}

#[test]
fn release_names() {
    assert_eq!(version_code(0), 300000);
    assert_eq!(version_code(412), 300412);
    assert_eq!(release_zip_path(), "output/magic_mount_rs.zip");
    assert_eq!(
        zip_url("1.2.3", 412),
        "https://github.com/Tools-cx-app/meta-magic_mount-rs/releases/download/v1.2.3/magic_mount_rs-1.2.3-412.zip"
    );
    assert_eq!(
        zip_url("2.0", usize::MAX),
        format!(
            "https://github.com/Tools-cx-app/meta-magic_mount-rs/releases/download/v2.0/magic_mount_rs-2.0-{}.zip",
            usize::MAX
        )
    );
}
