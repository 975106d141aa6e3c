# rc_calque

The lexical and grammatical core of a service that teaches English to
Russian speakers, verified with Verus.

- `src/` is the library. Every function has a contract that Verus proves:
  - `text`: strings as sequences of characters (splitting, joining, trimming,
    order, decimal numbers);
  - `lex`: CEFR levels, tokenization, the dictionary of forms and the greedy
    analysis of a text into lexical units, lexical difficulty;
  - `gram`: the grammar inventory and its hierarchical skill keys (filters,
    roll-ups, ladders);
  - `concept`: concepts, their kinds and the groups evidence is pooled in;
  - `observe`: how an attempt used each required concept;
  - `predict`: the discrete side of the knowledge model (sources, policies,
    schema version, the order observations are applied in);
  - `http`, `authn`: the request error and the access-token rules.
  Calls into `wordnet-lemmatizer`, `rust-stemmers`, `jsonwebtoken`, `uuid`
  and std's Unicode tables go through small trusted wrappers whose contracts
  say what the outside code does.
- `app/` is ordinary Rust around it: loading the dictionary and the
  inventory from their files, axum and token glue, the database, the
  floating-point knowledge model, and the integration bench.
- `tests/` runs the library on concrete values.
