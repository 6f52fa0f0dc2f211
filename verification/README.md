# Tessera

A deterministic limit order book in Rust, verified with Verus.

The library under `src/` is a price-time priority matching engine with its
validator, canonical state hash, snapshots, wire codec, journal and agent
simulator. What a book *means* is a small mathematical model
(`src/model.rs`): per side and price level, the queue of resting orders,
oldest first. The contracts of the engine are exact over that model: they say
what is returned and what changes. The ends of the ring are the exception:
what comes of an attempt there is up to other threads, so their contracts
name the queue operation that was made and leave its outcome open.

What is proved, in short:

- `OrderBook::apply` does to the book, and answers, exactly what the model
  says (`src/book.rs`), on an arena, a bitmap and an open-addressed index
  whose invariants hold after every instruction.
- The book never crosses; fills follow price-time priority at the resting
  price; a refusal changes nothing; immediate orders never rest;
  fill-or-kill fills all or nothing; a modify is a cancel and a new order
  (`src/laws.rs`).
- Quantity is conserved, per instruction and over whole sessions
  (`src/ledger.rs`); and every resting order came with what it still wants
  and what it has traded since it was acknowledged (`src/accounts.rs`).
- The engine and a deliberately simple second engine give identical output
  streams and state hashes on every stream whose sequence numbers do not
  decrease (`src/agreement.rs`, `src/differential.rs`).
- The simple engine stays sound whatever sequence numbers come in
  (`src/oracle.rs`).
- The validator reports nothing exactly on sound books, and otherwise the
  first fault (`src/validate.rs`).
- A snapshot restores to its orders, stably sorted by side and price.
- Snapshots, records, headers and journals read back what was written;
  replaying a journal reproduces the session (`src/snapshot.rs`,
  `src/codec.rs`, `src/journal.rs`).
- A simulation's log, applied to an empty book, leads to the simulation's
  final state (`src/runner.rs`, `src/driver.rs`).

The only code that is trusted rather than proved is the interface to
`crossbeam_queue::ArrayQueue` in `src/ring.rs`.

`app/` is the program around the library: the command line, journal files,
the terminal view, the spinning ends of the ring, a fuzz entry point, and
the floating-point reference price. `tests/` runs the library.
