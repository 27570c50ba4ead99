# minesweeper

Multiplayer Minesweeper without a server, as a verified library. Two peers play
one game by exchanging an event log over a WebRTC data channel; the handshake
that brings them together travels as two links that a human carries.

The library under `src/` does no I/O. What every function returns is stated in
its contract and proved by Verus, and the promises that span functions are
stated as public proof functions whose names start with `law_`.

## Layout

- `rng`, `board`, `event`, `game` — the generator, the grid, the moves and the
  rules. `board/laws.rs` and `game/laws.rs` say what holds of every deal, every
  click and every log.
- `eventlog`, `framing`, `wire`, `tick` — the replicated log, its byte format,
  and how moves plug into it.
- `app` — one player's page: what a local move and a message from the peer do,
  and what there is to draw and say (`app/page.rs`, `app/presence.rs`).
- `sdp`, `ip`, `b64`, `qr`, `session`, `net`, `panel` — the handshake: session
  descriptions packed to their bare facts, links, pastes, the QR code, and the
  state machine that decides what each report means.
- `counter` — a shared tally, a second application of the log.
- `bytes`, `fnv`, `number`, `split`, `text` — what the others are built from.

`app/` is the page itself: the canvas, the buttons, WebRTC and deflate, all of
them the browser's. It performs what the library decides. A page's script calls
`start_game` or `start_tally` once after loading it; the game then puts
`debug_hash` and `debug_log_len` on the window.

## What is trusted

Three calls are believed rather than proved, each with its contract beside it:
`String::push` (`text.rs`), `String::from_utf8` (`session.rs`), and
`QrCode::new` of the `qrcode` crate (`qr.rs`), of whose result the library knows
that it is a function of the data and a square of a known size.
