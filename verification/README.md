# stratamoto

A fuzzer for Stratum V2 roles, as a verified library: programs in a small typed IR, the
builder that decides which of them are valid, the compiler that lowers them to the actions a
harness performs, the generators, mutators and minimizers that make and shrink them, and the
campaign loop that drives them against a target.

- `src/` is the library, written in Verus. Every function carries a contract, proved but for
  the thin trusted wrappers around calls into `rand`, `postcard`, `stratum_core` and `std`.
  - `builder`, `program`, `instruction`, `operation`, `variable`, `errors`, `nops`: the IR,
    the rules of a valid program, and why dropping its nops keeps it valid.
  - `compiler`, `wire`: lowering a program to actions, with `SetupConnection` payloads encoded
    by `stratum_core`.
  - `generators`, `mutators`, `minimizers`: making, changing and shrinking programs. The
    generators cover the `SetupConnection` handshake; the IR has no operations for the mining
    channels that come after it, so no generator opens one.
  - `corpus`, `corpus_dir`, `fuzzer`, `observer`, `target`, `campaign`: the campaign, the
    names its corpus files go by, and the coverage tally of an instrumented build.
  - `guided`, `feedbacks`, `monitor`: the decisions of a coverage-guided campaign: where
    fragments go, when a reduction keeps a candidate, how findings are filed and reported.
  - `artifact`, `render`: the envelope failures are saved in, and programs as text.
  - `timer`, `files`: the simulated clock and in-memory files of the deterministic simulator.
  - `init`, `libraries`: the boot script of a Nyx share directory and the libraries a binary
    loads.
  - `random`, `duration`, `text`: the calls into `rand` and `std` the rest relies on.
- `tests/` exercises the library on concrete values.
- `app/` is the command line: reading and writing files, serde forms of the library's types,
  and running external tools.
