//! A three-dimensional cellular automaton of the "Generations" family on a
//! cubic lattice whose faces are joined to the faces across.
//!
//! A cell is alive, decaying or dead. A live cell stays alive while the
//! number of its live neighbours is one that the rule lets it survive with;
//! then it decays for a fixed number of generations and is dead. A dead cell
//! comes alive when the number of its live neighbours is one that the rule
//! lets it be born with. Decaying cells count as live neighbours.
//!
//! * [`cell`]: the states of a cell and the step from one to the next;
//! * [`rule`]: the counts to survive and to be born with, the number of
//!   states and the kind of neighbourhood;
//! * [`text`]: the text of a rule, such as `4-5/4/6/N`, read and written;
//! * [`point`]: the points of a lattice and their neighbours;
//! * [`lattice`]: a lattice of cells and its generations, as mathematics;
//! * [`grid`]: the lattice that a program holds, and the step to its next
//!   generation;
//! * [`schedule`]: when a driver computes the next generation, takes it over
//!   or throws it away.
//!
//! Every function states what it returns, and the statements are proved.
//! Beyond them these laws are proved:
//!
//! * a point has 6 or 26 neighbours, all different from each other and from
//!   the point, where an axis has three coordinates or more
//!   ([`point::lemma_neighbors_distinct`]), and a step past the end of an
//!   axis arrives at its other end ([`point::lemma_wrap_around`]);
//! * a cell that decays is dead after as many generations as it has left
//!   ([`cell::lemma_decay`]);
//! * a lattice has one next generation: it has the same side, and each of
//!   its cells depends on the cell before and on that cell's live
//!   neighbours only ([`lattice::lemma_successor`],
//!   [`lattice::lemma_successor_unique`],
//!   [`lattice::lemma_next_cell_local`]);
//! * a text is read as a rule if and only if it writes that rule
//!   ([`text::laws::lemma_written_is_read`],
//!   [`text::laws::lemma_read_is_written`]), and a rule that was read is
//!   read again from its own text ([`text::laws::lemma_read_write_read`]);
//! * no result of a computation is lost, taken over twice or taken over
//!   after a reset ([`schedule::lemma_plan_keeps_order`],
//!   [`schedule::lemma_driver_keeps_in_step`]).

pub mod cell;
pub mod grid;
pub mod lattice;
pub mod point;
pub mod rule;
pub mod schedule;
pub mod text;
