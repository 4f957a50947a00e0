use vstd::prelude::*;

use crate::config::strings_view;
use crate::text::push_char;
use crate::utils::{decimal, push_decimal, push_str};

verus! {

/// The directory that holds the files of the module.
pub const MODULE_DIR: &'static str = "module";

/// The directory where releases are put.
pub const OUTPUT_DIR: &'static str = "output";

/// The directory, under the output one, where a release is put together.
pub const TEMP_DIR_NAME: &'static str = ".temp";

/// cargo's directory of build results.
pub const TARGET_DIR: &'static str = "target";

/// The directory of release builds under a target.
pub const RELEASE_DIR: &'static str = "release";

/// The name of the program.
pub const BINARY_NAME: &'static str = "magic_mount_rs";

/// The target of 64-bit ARM Android.
pub const AARCH64_TARGET: &'static str = "aarch64-linux-android";

/// The target of 32-bit ARM Android.
pub const ARMV7_TARGET: &'static str = "armv7-linux-androideabi";

/// The target of x86-64 Android.
pub const X64_TARGET: &'static str = "x86_64-linux-android";

/// `base` and `name` joined by a path separator (`Path::join` of a relative name onto a
/// base that does not end with one).
pub open spec fn joined_path(base: Seq<char>, name: Seq<char>) -> Seq<char> {
    base + seq!['/'] + name
}

/// The path `target/<target>/release/magic_mount_rs` of a built binary.
pub open spec fn bin_path(target: Seq<char>) -> Seq<char> {
    joined_path(joined_path(joined_path(TARGET_DIR@, target), RELEASE_DIR@), BINARY_NAME@)
}

fn bin_path_of(target: &str) -> (r: String)
    ensures
        r@ == bin_path(target@),
{
    let mut r = String::new();
    push_str(&mut r, TARGET_DIR);
    push_char(&mut r, '/');
    push_str(&mut r, target);
    push_char(&mut r, '/');
    push_str(&mut r, RELEASE_DIR);
    push_char(&mut r, '/');
    push_str(&mut r, BINARY_NAME);
    assert(r@ =~= bin_path(target@));
    r
}

/// The directory that holds the module's files.
pub fn module_dir() -> (r: String)
    ensures
        r@ == MODULE_DIR@,
{
    let mut r = String::new();
    push_str(&mut r, MODULE_DIR);
    assert(r@ =~= MODULE_DIR@);
    r
}

/// The directory where the module's zip is put together: `output/.temp`.
pub fn temp_dir() -> (r: String)
    ensures
        r@ == joined_path(OUTPUT_DIR@, TEMP_DIR_NAME@),
{
    let mut r = String::new();
    push_str(&mut r, OUTPUT_DIR);
    push_char(&mut r, '/');
    push_str(&mut r, TEMP_DIR_NAME);
    assert(r@ =~= joined_path(OUTPUT_DIR@, TEMP_DIR_NAME@));
    r
}

/// The binary built for 64-bit ARM.
pub fn aarch64_bin_path() -> (r: String)
    ensures
        r@ == bin_path(AARCH64_TARGET@),
{
    bin_path_of(AARCH64_TARGET)
}

/// The binary built for 32-bit ARM.
pub fn armv7_bin_path() -> (r: String)
    ensures
        r@ == bin_path(ARMV7_TARGET@),
{
    bin_path_of(ARMV7_TARGET)
}

/// The binary built for x86-64.
pub fn x64_bin_path() -> (r: String)
    ensures
        r@ == bin_path(X64_TARGET@),
{
    bin_path_of(X64_TARGET)
}

/// The value of `RUSTFLAGS` for every cargo-ndk command.
pub const NDK_RUSTFLAGS: &'static str = "-C default-linker-libraries";

/// Appends the argument `a` to `v`.
fn push_arg(v: &mut Vec<String>, a: &str)
    ensures
        strings_view(final(v)@) == strings_view(old(v)@).push(a@),
{
    v.push(a.to_owned());
    assert(strings_view(v@) =~= strings_view(old(v)@).push(a@));
}

/// The arguments that start every cargo-ndk command: the nightly toolchain, `ndk`,
/// API level 26 and the three Android targets.
pub open spec fn cargo_ndk_args_model() -> Seq<Seq<char>> {
    seq![
        "+nightly"@,
        "ndk"@,
        "--platform"@,
        "26"@,
        "-t"@,
        "arm64-v8a"@,
        "-t"@,
        "armeabi-v7a"@,
        "-t"@,
        "x86_64"@,
    ]
}

/// The arguments that start every cargo-ndk command.
pub fn cargo_ndk_args() -> (r: Vec<String>)
    ensures
        strings_view(r@) == cargo_ndk_args_model(),
{
    let mut r: Vec<String> = Vec::new();
    push_arg(&mut r, "+nightly");
    push_arg(&mut r, "ndk");
    push_arg(&mut r, "--platform");
    push_arg(&mut r, "26");
    push_arg(&mut r, "-t");
    push_arg(&mut r, "arm64-v8a");
    push_arg(&mut r, "-t");
    push_arg(&mut r, "armeabi-v7a");
    push_arg(&mut r, "-t");
    push_arg(&mut r, "x86_64");
    assert(strings_view(r@) =~= cargo_ndk_args_model());
    r
}

/// `--verbose` where `verbose` is set, else nothing.
pub open spec fn verbose_args(verbose: bool) -> Seq<Seq<char>> {
    if verbose {
        seq!["--verbose"@]
    } else {
        Seq::empty()
    }
}

/// The arguments of cargo for `check`: a check of the Android build with the standard
/// library built too and the paths trimmed.
pub open spec fn check_args_model(verbose: bool) -> Seq<Seq<char>> {
    cargo_ndk_args_model() + seq!["check"@, "-Z"@, "build-std"@, "-Z"@, "trim-paths"@]
        + verbose_args(verbose)
}

/// The arguments of cargo for `check`.
pub fn check_args(verbose: bool) -> (r: Vec<String>)
    ensures
        strings_view(r@) == check_args_model(verbose),
{
    let mut r = cargo_ndk_args();
    push_arg(&mut r, "check");
    push_arg(&mut r, "-Z");
    push_arg(&mut r, "build-std");
    push_arg(&mut r, "-Z");
    push_arg(&mut r, "trim-paths");
    if verbose {
        push_arg(&mut r, "--verbose");
    }
    assert(strings_view(r@) =~= check_args_model(verbose));
    r
}

/// The arguments of cargo for `build`: a release build of the Android binaries with the
/// standard library built too, `--verbose` before them where asked for.
pub open spec fn build_args_model(verbose: bool) -> Seq<Seq<char>> {
    cargo_ndk_args_model() + verbose_args(verbose) + seq!["build"@, "-Z"@, "build-std"@, "-r"@]
}

/// The arguments of cargo for `build`.
pub fn build_args(verbose: bool) -> (r: Vec<String>)
    ensures
        strings_view(r@) == build_args_model(verbose),
{
    let mut r = cargo_ndk_args();
    if verbose {
        push_arg(&mut r, "--verbose");
    }
    push_arg(&mut r, "build");
    push_arg(&mut r, "-Z");
    push_arg(&mut r, "build-std");
    push_arg(&mut r, "-r");
    assert(strings_view(r@) =~= build_args_model(verbose));
    r
}

/// The arguments of cargo for one run of `lint`: clippy on the Android build, fixing what
/// it can where `fix` is set, on the release build where `release` is set (`lint` runs
/// it without and then with `release`).
pub open spec fn lint_args_model(fix: bool, release: bool) -> Seq<Seq<char>> {
    cargo_ndk_args_model() + seq!["clippy"@] + (if fix {
        seq!["--fix"@, "--allow-dirty"@, "--allow-staged"@, "--all"@]
    } else {
        Seq::empty()
    }) + (if release {
        seq!["--release"@]
    } else {
        Seq::empty()
    })
}

/// The arguments of cargo for one run of `lint`.
pub fn lint_args(fix: bool, release: bool) -> (r: Vec<String>)
    ensures
        strings_view(r@) == lint_args_model(fix, release),
{
    let mut r = cargo_ndk_args();
    push_arg(&mut r, "clippy");
    if fix {
        push_arg(&mut r, "--fix");
        push_arg(&mut r, "--allow-dirty");
        push_arg(&mut r, "--allow-staged");
        push_arg(&mut r, "--all");
    }
    if release {
        push_arg(&mut r, "--release");
    }
    assert(strings_view(r@) =~= lint_args_model(fix, release));
    r
}

/// The arguments of cargo for `format`: rustfmt on every package of the workspace.
pub open spec fn rustfmt_args_model(verbose: bool) -> Seq<Seq<char>> {
    seq!["fmt"@, "--all"@] + verbose_args(verbose)
}

/// The arguments of cargo for `format`.
pub fn rustfmt_args(verbose: bool) -> (r: Vec<String>)
    ensures
        strings_view(r@) == rustfmt_args_model(verbose),
{
    let mut r: Vec<String> = Vec::new();
    push_arg(&mut r, "fmt");
    push_arg(&mut r, "--all");
    if verbose {
        push_arg(&mut r, "--verbose");
    }
    assert(strings_view(r@) =~= rustfmt_args_model(verbose));
    r
}

/// What is added to the count of commits to give the version code.
pub const VERSION_CODE_BASE: usize = 300000;

/// The version code of a release whose history counts `commits` commits.
pub fn version_code(commits: usize) -> (r: usize)
    requires
        commits + VERSION_CODE_BASE <= usize::MAX,
    ensures
        r == commits + VERSION_CODE_BASE,
{
    commits + VERSION_CODE_BASE
}

/// The file name of a published release asset: `magic_mount_rs-<version>-<commits>.zip`,
/// where `commits` counts the commits of its history.
pub open spec fn release_zip_name(version: Seq<char>, commits: nat) -> Seq<char> {
    BINARY_NAME@ + seq!['-'] + version + seq!['-'] + decimal(commits) + ".zip"@
}

fn push_release_zip_name(s: &mut String, version: &str, commits: usize)
    ensures
        final(s)@ == old(s)@ + release_zip_name(version@, commits as nat),
{
    push_str(s, BINARY_NAME);
    push_char(s, '-');
    push_str(s, version);
    push_char(s, '-');
    push_decimal(s, commits as u64);
    push_str(s, ".zip");
    assert(s@ =~= old(s)@ + release_zip_name(version@, commits as nat));
}

/// The file name of the module's zip that `build` puts together.
pub const RELEASE_ZIP_NAME: &'static str = "magic_mount_rs.zip";

/// Where `build` puts the module's zip: `output/magic_mount_rs.zip`.
pub fn release_zip_path() -> (r: String)
    ensures
        r@ == joined_path(OUTPUT_DIR@, RELEASE_ZIP_NAME@),
{
    let mut r = String::new();
    push_str(&mut r, OUTPUT_DIR);
    push_char(&mut r, '/');
    push_str(&mut r, RELEASE_ZIP_NAME);
    assert(r@ =~= joined_path(OUTPUT_DIR@, RELEASE_ZIP_NAME@));
    r
}

/// Where the releases of the module are downloaded from.
pub const RELEASES_URL: &'static str = "https://github.com/Tools-cx-app/meta-magic_mount-rs/releases/download/v";

/// The address of the release `<version>` after `commits` commits, as `update` writes
/// it: the releases address, the version, `/` and the release's file name.
pub fn zip_url(version: &str, commits: usize) -> (r: String)
    ensures
        r@ == RELEASES_URL@ + version@ + seq!['/'] + release_zip_name(version@, commits as nat),
{
    let mut r = String::new();
    push_str(&mut r, RELEASES_URL);
    push_str(&mut r, version);
    push_char(&mut r, '/');
    push_release_zip_name(&mut r, version, commits);
    assert(r@ =~= RELEASES_URL@ + version@ + seq!['/'] + release_zip_name(version@, commits as nat));
    r
}

} // verus!
