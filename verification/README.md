# relay_core

The verified core of `relay`, a local-first API client whose requests live in
`.rl` files (TOML) next to the code they exercise.

- `src/` is the library, verified with Verus:
  - `text` — Unicode white space, trimming, building strings from characters;
  - `string_map` — `StringMap`, the string-to-string map used for variables,
    headers and the token cache, specified as a `Map<Seq<char>, Seq<char>>`;
  - `vars` — `{{var}}` interpolation and the merging of variable scopes, with
    their laws;
  - `model` — the request-file and collection-configuration model;
  - `auth` — OAuth2 client-credentials tokens: configuration checks, the cache,
    reading the token endpoint's reply;
  - `http` — checking a resolved request and deciding what is sent;
  - `parser` — load errors and the secrets table;
  - `discovery` — selecting and ordering `.rl` files among walked entries;
  - `report` — per-file outcomes, the exit decision, XML escaping and the
    JUnit report;
  - `gui` — commands of the desktop front end that compute their answer.
- `app/` is the `relay` command-line program: file and network I/O, argument
  parsing, serde forms of the model, and console output.
- `tests/` exercises the library on concrete values.
