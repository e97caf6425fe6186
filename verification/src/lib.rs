//! Search for keyboard layouts that are cheap to type.
//!
//! A layout assigns characters to the fifty keys of a fixed board for two
//! hands, without shift and with it. What a text costs on a layout is the
//! sum of what twelve rules charge for each window of up to four characters
//! typed in a row: for reaching a key, for one finger on two keys, for
//! awkward stretches, rolls and runs. Two searches look for a cheaper
//! layout by swapping keys: one by annealing, one by always taking the best
//! swap.
//!
//! - [`layout`]: the board, layouts, swaps, and the walk through the layouts
//!   a number of swaps away.
//! - [`combos`]: the ways to pick the keys of such swaps.
//! - [`quartad`], [`tally`], [`corpus`]: windows, sums by window, and the
//!   windows of a text.
//! - [`weights`], [`penalty`]: the weights of the cost model and the cost
//!   of a text.
//! - [`simulator`]: the two searches and the list of the best layouts.
//! - [`presets`]: layouts in common use.
//! - [`text`]: strings as sequences of characters.

pub mod layout;
pub mod combos;
pub mod quartad;
pub mod tally;
pub mod corpus;
pub mod weights;
pub mod penalty;
pub mod simulator;
pub mod presets;
pub mod text;
