# fastfmt

`cargo fmt`, then put the one-liners back. rustfmt lays a file out; fastfmt
then joins the short blocks that rustfmt broke over several lines back onto
one line, and puts each `else` of a statement-position `if` chain on a line of
its own.

The library under `src/` is verified with Verus. Each public function states
what it returns over spec functions on character sequences, and `src/laws.rs`,
`src/tokens.rs`, `src/settle.rs` and `src/guard.rs` prove what holds across
functions:

- compaction moves whitespace and drops trailing commas (a comma after which,
  past whitespace and other commas, a `}` comes), and changes nothing else;
- a joined block makes a line that fits the cap, at most 105 columns, measured
  from the start of its line to the end of it;
- no block that holds a comment or a multi-line token is joined;
- joins go innermost first, and the rounds run until a further round would
  change nothing;
- guarding a `rustfmt.toml` twice gives what guarding it once gives, and an
  enabled guard is left as it stands.

Layout:

- `src/syntax.rs`: the tree-sitter parse, held as a preorder list of nodes;
- `src/join.rs`: which blocks join and how a block reads on one line;
- `src/elses.rs`: the `else` split;
- `src/edits.rs`: applying a set of text replacements;
- `src/config.rs`, `src/cli.rs`: the guard line, TOML values, edition, width,
  where the guard file lives, and the command line;
- `app/`: the `cargo-fastfmt` program (running rustfmt, files, directories).

The parser is the one call into an outside crate: `parse_rust` in `src/syntax.rs` is trusted
to give back a list that depends on the text alone; everything done with that
list is proved.
