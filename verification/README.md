# brace_expansion

Bash-style brace expansion (`a{b,c}d` → `abd acd`, `{1..3}` → `1 2 3`,
`{01..03}`, `{a..e..2}`, nested sets, backslash escapes), written in Verus.

The public entry points are `expand` and `expand_with_max` in `src/lib.rs`.
Their results are proved equal to `spec_expand`, a model over `Seq<char>`.
Internally the text is handled as `Vec<char>`.

- `src/text.rs`: matching, replacing and splitting character sequences.
- `src/escape.rs`: hiding escaped characters behind markers and bringing them
  back, each in one left-to-right pass; escaping then unescaping text without
  NUL removes the backslash of each escape pair (`law_escape_round_trip`).
- `src/balanced.rs`: the first balanced `{ … }` pair.
- `src/number.rs`: reading and writing integers, zero-padding.
- `src/sequence.rs`: numeric and alphabetic sequences.
- `src/expand.rs`: comma sets, the `$` and dangling-brace rules, and the
  recursive expansion.
- `src/laws.rs`: properties of whole patterns, proved over the model: plain
  text is kept, comma sets expand member by member, two sets give a cross
  product, sequences give their members, escapes give literal characters,
  sets with no expansion stay literal, comma-split members rejoin to their
  input, and the top-level flag only drops empty members of a comma set.
