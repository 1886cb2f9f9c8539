# filesystem_delta

Snapshots of a directory tree and the patches between them, verified with
Verus.

- `src/` is the verified library: the snapshot entry that a path's metadata
  gives (`snapshot`, `metadata`, `hashing`), the order in which paths are
  walked and compared (`order`), the patch between two snapshots (`delta`,
  with its laws in `delta_laws`), what the file system must do for each step
  of a patch (`apply`), and path normalisation (`paths`).
- `app/` walks a directory, reads metadata, links and file contents, carries
  patch steps out on disk, and holds the serde forms of the types.
- `tests/` runs the library on values.

The digest that a snapshot records for a file is the lower-case hexadecimal
SHA-256 of its contents; `src/hashing.rs` computes it with the `sha2` crate,
behind one trusted wrapper.

The steps of a patch come by path, then by step name (`chmod`, then
`modify_file` or `symlink`, then `utimes`), except that when a path changes
kind its removal comes before the creation of the new entry, so that the
patch can be carried out in order.
