//! Declared value-arity policy of one argument.

use vstd::prelude::*;

use crate::matched::Record;

verus! {

/// What the declaration of one argument says about the values it takes:
/// an exact count per group, an open-ended maximum or minimum, and whether
/// the argument may appear (or collect value groups) more than once.
pub struct Arg {
    pub name: String,
    pub number_of_values: Option<usize>,
    pub max_values: Option<usize>,
    pub min_values: Option<usize>,
    pub multiple: bool,
}

/// Whether the parser must keep consuming values for an argument, from its
/// declared policy and its current record, if any:
/// - no record yet: more values are needed;
/// - an exact count `n` with `multiple`: values arrive in groups of `n`, so
///   more are needed exactly while the collected count is no multiple of `n`;
/// - an exact count `n` without `multiple`: more are needed while the count
///   differs from `n`, surplus included;
/// - otherwise a maximum `m`: more are accepted while the count has not
///   passed `m` — one further value is accepted even at count `m` exactly;
/// - otherwise a minimum: always ask for more and let the caller decide when
///   to stop;
/// - no declared arity: a single-value argument is satisfied after one
///   value, a `multiple` argument always takes more.
pub open spec fn spec_needs_more_vals(o: Arg, rec: Option<Record>) -> bool {
    match rec {
        None => true,
        Some(r) => match o.number_of_values {
            Some(num) => if o.multiple {
                r.vals.len() as int % num as int != 0
            } else {
                r.vals.len() != num as int
            },
            None => match o.max_values {
                Some(m) => r.vals.len() <= m as int,
                None => if o.min_values is Some {
                    true
                } else {
                    o.multiple
                },
            },
        },
    }
}

} // verus!
