# tnt_delivery_bot

A Telegram bot that tracks T&T supermarket deliveries: a user sends a delivery
token or tracking link, the bot polls the tracking API on a schedule and pushes
every change of the order's fields to all users who follow it.

The rules of the bot are a library verified with Verus (`src/`):

- `token_parse`: the token a message carries (query link, `#/` link, bare token).
- `schedule`: FNV-1a hashing and the slot in which each token is polled once per period.
- `model`: order-status snapshots, their field-by-field diff, and the message texts.
- `config`: settings from raw environment strings, with their validation.
- `db`: the subscription store (tokens shared by followers, TTL, failure counts).
- `tick`: one scheduler round as steps: expire, pick due tokens, record a poll,
  finish it after the update went out.
- `bot`: joining by token and the `/start`, `/help`, `/list`, `/stop` commands.

`app/` is the program around it: environment, SQLite persistence of the store,
HTTP polling, Telegram dispatch and the timer loop.

`Cargo.toml` pins `takecell` though nothing here names it: `teloxide-core`
depends on it, and its newest release needs a newer Rust compiler than the
one this project builds with.
