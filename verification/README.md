# clickpipe

A pipe filter that turns file paths, URLs and issue IDs in any command's
output into clickable OSC 8 terminal hyperlinks, leaving every byte the
upstream tool printed in place.

The detection and rendering core is a Verus library whose behaviour is
stated in `requires`/`ensures` contracts over byte-sequence models and
proved:

- `src/text.rs`: UTF-8 boundaries, white space, ASCII classes, decimal
  numbers, search, replacement and percent-encoding on bytes.
- `src/osc8.rs`: the OSC 8 opener and closer, and URI sanitizing.
- `src/uri.rs`: `file://` URIs and editor deep links.
- `src/ansi.rs`: the ANSI-aware line model (escape sequences, visible text,
  regions already hyperlinked) and rendering with wrappers.
- `src/urls.rs`, `src/paths.rs`, `src/issues.rs`: the three detectors.
- `src/scan.rs`: running the detectors and resolving overlaps.
- `src/giturl.rs`: issue templates from git config text and remotes.
- `src/cli.rs`: flags, configuration, the per-line pipeline (with the
  file-existence questions handed to the caller) and the stats summary.

`app/main.rs` is the program around it: argument and environment reading,
the git directory walk, file-existence checks, input reading and output
writing. `tests/` exercises the library through its public API.
