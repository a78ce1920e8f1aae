//! The text of a rule: `SURVIVAL/BIRTH/STATES/NEIGHBOURS`.
//!
//! `SURVIVAL` and `BIRTH` are lists of items, separated by commas. An item
//! is one count `n` or a pair `lo-hi`, which stands for the counts from `lo`
//! to `hi`, both included. A list may be empty. `STATES` is a number, at
//! least 2. `NEIGHBOURS` is `M` for the 26 neighbours of Moore or `N` for the
//! 6 of von Neumann. Numbers are decimal, have no leading zero and are at
//! most 255; the count of a single item and the last count of a pair are at
//! most 254. Nothing may stand between or around these parts.
//!
//! `4-5/4/6/N`: a live cell survives with 4 or 5 live neighbours, a dead
//! cell comes alive with exactly 4, a cell passes through 6 states, and a
//! cell has 6 neighbours.
//!
//! A text that is turned down is turned down for the first byte, from the
//! left, at which it stops to be the beginning of a rule's text; a text that
//! keeps to the grammar is turned down if it names fewer than two states.
//!
//! * [`grammar`]: the grammar, as mathematics;
//! * [`read`]: [`Rule::parse`](crate::rule::Rule::parse);
//! * [`write`]: [`Rule::to_text`](crate::rule::Rule::to_text);
//! * [`laws`]: what is read is what was written.

pub mod grammar;
pub mod laws;
pub mod read;
pub mod write;
