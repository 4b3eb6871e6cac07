# fd-api

The desk API's rules, written in Verus and proved against their contracts.

- `src/` is the verified library:
  - `auth` — the password on the second listener: the stored verifier and
    its file format, sessions, the lockout, the one-attempt-at-a-time rule,
    the cookie, writing `[auth]` into `config/local.toml`, and whether the
    authenticated listener opens.
  - `accounts` — the broker accounts folded from each book's last snapshot.
  - `paper` — run ids, which run a stop means, bars arriving, intents and
    orders from outside, deciders, reading the tail of a run's log, and the
    news window a run's status shows: the next blackout its guards act on
    and the first recurring calendar series to run out.
  - `routes`, `levels`, `htf`, `m1` — which stored series a chart is drawn
    from, backtest date bounds, trading days and broker weeks, fractal
    swings and the structure label, ticks folded into minutes.
  - `research`, `advisor`, `cli`, `version`, `error`, `dto`, `text` — the
    research screen's parsing (the backlog, run receipts, direction
    receipts) and the order it lists things in, the advisor setup code and
    its checks, the command line, the build stamp, errors, and the text
    operations the contracts are stated over.
- `tests/` runs the library on concrete values.
- `app/` is the process around it: arguments, files, sockets, the HTTP
  routes and the setup tool's child process. It serves the version,
  research, advisor and auth routes. The paper, levels, htf, bars,
  backtest, m1, live and indicator routes need the desk's engine, strategy,
  store and ingest crates, which are not part of this repository; their
  rules are in `src/` and run under `tests/`, but no route serves them here.

Calls into `ring`, `base64`, `subtle`, `toml` and std's UTF-8 check stand
behind small trusted wrappers in `src/auth.rs`, `src/paper.rs` and
`src/text.rs`; each says in its doc comment what it claims of the call.

The build stamp in `src/version.rs` is read by functions that take its
three texts (`summary_of`, `built_at_from`). `app/` hands them what the
build environment put in `FD_GIT_HASH`, `FD_GIT_DIRTY` and `FD_BUILT_AT_MS`
at compile time. There is no build script to set those, so whoever cuts a
release exports them before building. Where they are not set, the library's
constants stand in: the commit reads `unknown`, which fails an equality
check loudly.
