# Metamath proof checker

A checker for Metamath databases.

- `src/text.rs`: tokens as character sequences; white space, splitting a
  line into tokens, comparing and ordering tokens.
- `src/tokens.rs`: the tokens of a database, with comments skipped and
  included files (`$[ name $]`) read in place, each at most once; the
  caller opens each file whose name the scan hands back.
- `src/stream.rs`: the scanned tokens, read one by one or a statement at a
  time up to `$.`.
- `src/frame.rs`: the stack of scopes with their constants, variables,
  disjoint-variable pairs and hypotheses, and the assertions made in them.
- `src/mm.rs`: the reader of a database, the substitution of variables,
  compressed proofs, and the stack machine that checks a proof.
- `src/laws.rs`: properties that hold across these operations.
- `app/main.rs`: the command line program: `FILE [BEGIN_LABEL [STOP_LABEL]]`.

Each operation's contract is stated over the sequences of characters of its
tokens. An operation that can reject its input comes in two forms: the one
named for the operation requires an input that is accepted, and its `try_`
form takes any input and answers a rejected one with an `MmError`.
