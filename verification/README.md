# magic_mount

The logic of a KernelSU/APatch metamodule that mounts the files of modules with
"magic mount", verified with Verus: its configuration and the web UI's view of it,
the custom list of bind mounts and ignored paths, the scan of the module directory,
the tree of module files, and the text it writes back.

## Layout

- `src/` — the verified library.
  - `config.rs`: the configuration, the web UI's payloads (hex decoding, the
    `--payload` argument), the text of the custom list.
  - `parser/`: the grammar of a custom-list line and the reading of a whole list.
  - `custom_list.rs`: the laws that a written custom list reads back as written.
  - `scanner.rs`: which modules a scan of the module directory reports, and in what
    order (`module.prop` is read with `java-properties`).
  - `magic_mount/node.rs`: the tree of module files and its textual dump.
  - `utils.rs`: module-id validation (`regex-lite`), the temporary mount point
    (`fastrand`), the description line of `module.prop`.
  - `umount.rs`: the mount points handed to KernelSU for unmounting.
  - `build_layout.rs`: the paths and cargo arguments of the release build.
  - `text.rs`: characters, trimming and lines as `str` has them.
- `tests/` — tests run against the compiled library with the real outside crates.
- `app/` — the program: files, mounts, extended attributes, JSON and TOML.

Each outside call in `src/` goes through a small `#[verifier::external_body]`
wrapper whose contract states what the crate's documentation or source shows.
