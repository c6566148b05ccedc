# tar-entry

The entries of a tar archive: what they are called, how their content is read, and how they are
unpacked. The library decides, and its decisions are verified with Verus; it touches no file
itself.

- `src/entry.rs`: entries, their names and their settings. A name comes from a long-name entry, else
  from the pax extensions, else from the header.
- `src/reading.rs`: reading the content stretch by stretch, or as a whole.
- `src/unpack.rs`: unpacking an entry to a given place. An `Unpack` says which file operation comes
  next and is told what came of it, until there is an outcome.
- `src/unpack_in.rs`: the same under a directory that must not be left.
- `src/unpack_laws.rs`, `src/unpack_in_laws.rs`: what holds of all runs of the two. Unpacking ends,
  writes all of the content (holes that are too long to be skipped aside), removes nothing without
  leave, sets owners before permissions, and on Unix has set times, owners, permissions and extended
  attributes when it ends well. Under a directory, exactly the missing directories are
  made, and nothing is made, linked or set unless the paths that count for it have been resolved to
  places in what the directory resolves to, or were made on the way. That the replies tell the truth,
  and that nobody else moves things about meanwhile, is up to the host.
- `src/path.rs`: paths in Unix syntax, as byte strings; `src/host_path.rs`: paths as a host takes
  them.
- `src/pax.rs`: pax extension records.
- `src/header.rs`, `src/host.rs`, `src/action.rs`, `src/error.rs`, `src/messages.rs`,
  `src/text.rs`, `src/bytes.rs`: the values that these speak of.
- `app/`: entries as asynchronous readers, and the file operations themselves.

The separator of paths is `/` on all hosts. On Windows a path can begin with a prefix (a drive, a
share or a device), which is a component of its own; of backslashes only those of `\\?\` at the
beginning have a meaning there.
