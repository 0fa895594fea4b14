# mft

Full paths for the entries of an NTFS master file table, from the file names that each entry
carries. The library is written in Verus: what each function returns is stated in its contract
and proved.

- `src/fast_entry.rs`: file names, collected per entry.
- `src/path_resolve/`: selection of names, resolution along one parent or all of them, and the
  comparison of two resolutions. The module's own documentation says more.
- `app/`: the same functions with `eyre` reports as errors.

What is taken from the standard library and from `rayon` without proof stands in
`path_resolve/path_text.rs`, `path_resolve/decode.rs` and, for the work on several threads, in
`build_layer` of `path_resolve/parallel.rs`.
