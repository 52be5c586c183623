# lxr_codegen

The code generation core of a lexer generator, verified with Verus. Rules
are regular expressions over characters; the library turns them into
automata over bytes and into the tables and decisions that an emitted lexer
reads. Rules use longest-match semantics, and declaration order resolves
matches of equal length.

## Layout

- `src/regex`: expression trees, quantifiers, character sets, and the
  messages of parse errors.
- `src/automata`: labels and their partitions, UTF-8 encoding of character
  sets, NFA and DFA builders and scans, the subset construction, minimization
  (with and without a dead state), and trimming of states that never accept.
- `src/compiler`: the accept of each automaton state and its mapping through
  determinization and minimization.
- `src/table.rs`: the byte classes and state tables of an emitted lexer.
- `src/graph` and `src/code`: the rule graph of a lexer and the decisions of
  the emitted matcher (arms, fork bodies, runs, depth limits, starts that
  accept).
- `src/lexer.rs` and `src/generate.rs`: checks of lexer modes and rules, the
  start conditions that the rules enter and reach, and the errors that a
  lexer definition gets.
- `tests/`: scenarios on concrete values for each module.

Each public function states its result in `ensures`; the laws that relate
several functions (a minimized automaton reads the same input, the subset
construction scans like its NFA, the UTF-8 encoding of a set matches exactly
the encodings of its characters, once each and in ascending order) are public
proof functions next to the code they speak of.
