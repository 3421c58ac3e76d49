# force_alias

Makes a zsh user type their aliases. A shell hook sends every command line to
a small server; the server expands the aliases the line already uses, shortens
it again with every alias that applies, and refuses the line when that saves
keystrokes, answering with the shorter line and the aliases involved.

Layout:

- `src/` — the verified library (Verus):
  - `text.rs`: strings as character sequences, UTF-8 byte lengths, slicing;
  - `util.rs`: substring and word search, quote stripping, splitting;
  - `alias.rs`: aliases, where they apply, and expanding / shortening command
    lines; parsing `alias -L` output;
  - `properties.rs`: laws of expanding and shortening (growth, idempotence,
    termination, undoing an expansion);
  - `judge.rs`: the server's verdict on a command line and its advice text;
  - `registry.rs`: the aliases of each shell, by process id;
  - `request_types.rs`: request bodies.
- `tests/` — tests of the library.
- `app/` — the client and the server (argument parsing, HTTP, JSON, running
  zsh), around the library. They are one binary: run under a name that
  contains `server` it is the server, under any other name the client, so
  installing it as `force-alias-server` and `force-alias-client` (two copies
  or links) gives the two commands that the zsh hook calls.
