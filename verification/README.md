# gitcomet_view

What a Git client's main pane decides and computes, verified with Verus: the
rows of a diff and how they are folded, the search over whatever is on screen,
the state of a merge with conflicts, and what is known of files on disk.

- `src/` is the library. Its functions state what they return or change, and the
  laws that span functions are the public proof functions named `law_`. The digest
  of numbers is stated to the bit, that of bytes up to how a target multiplies.
- `src/outside.rs` holds what is taken on trust of other crates and of the
  standard library, with a word on each.
- `tests/` runs the library on concrete values.
- `app/` is what surrounds it: the file system, the environment, pixels, and the
  loops that run what the library decides.
