//! Tessera: a deterministic limit order book whose correctness is proved.
//!
//! Price-time priority matching, with no clock, no randomness and no
//! allocation on the matching path. What the book means is a small
//! mathematical model; the engine is proved to do what the model says, and
//! the promises of the book are proved of the model.
//!
//! - The model: [`model`] says what a book is and what one instruction does to
//!   it, [`priority`] in which order its orders stand.
//! - The engine: [`book`], on [`arena`], [`book_side`] and [`order_index`],
//!   with [`validate`], [`hash`] and [`snapshot`].
//! - The promises: [`laws`], [`matching`] for whom an incoming order meets and
//!   what the self-trade rules do, [`verdicts`] for what every instruction is
//!   answered and leaves, [`ledger`] for conservation of quantity,
//!   [`accounts`] for the account of every order, [`canon`] for what the hash
//!   reads, and [`agreement`] with the deliberately simple second engine in
//!   [`reference`], of which [`oracle`] says what it keeps. [`differential`]
//!   runs both engines side by side.
//! - Sessions: [`codec`], [`journal`] and [`ring`]; [`wire`] says what stands
//!   where in their bytes.
//! - The simulator: [`rng`], [`agent`] and its four kinds, [`runner`] and
//!   [`driver`]; [`conduct`] says how the agents behave, [`tally`] that the
//!   counts are true.
//! - The shell: [`cli`] and [`display`], of which [`panel`] says what they show.

pub mod accounts;
pub mod adversarial;
pub mod agent;
pub mod agreement;
pub mod arena;
pub mod book;
pub mod book_side;
pub mod buffer;
pub mod bytes;
pub mod canon;
pub mod cli;
pub mod codec;
pub mod conduct;
pub mod config;
pub mod differential;
pub mod display;
pub mod driver;
pub mod events;
pub mod hash;
pub mod journal;
pub mod laws;
pub mod ledger;
pub mod market_maker;
pub mod matching;
pub mod model;
pub mod momentum;
pub mod noise;
pub mod oracle;
pub mod order_index;
pub mod panel;
pub mod priority;
pub mod reference;
pub mod ring;
pub mod rng;
pub mod runner;
pub mod snapshot;
pub mod tally;
pub mod types;
pub mod validate;
pub mod verdicts;
pub mod wire;
