//! Match accumulator for a command-line argument parser.
//!
//! While a parsing loop consumes tokens, the accumulator records how many
//! times each declared argument appeared, which raw values it captured, and
//! which subcommand (if any) was selected, recursively.  It also decides
//! whether an option still needs more values, and can mirror a globally
//! scoped argument's values into the match tree of the active subcommand
//! chain.

pub mod arg;
pub mod matched;
pub mod matcher;
pub mod matches;
pub mod propagation;
