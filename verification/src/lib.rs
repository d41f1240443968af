//! Exhaustive search for an arithmetic expression over a given list of
//! integers that evaluates exactly to a target value.
//!
//! The search space is the product of every ordering of the values, every
//! assignment of the four operators to the internal nodes, and every binary
//! tree shape with one leaf per value. Candidates are evaluated in exact
//! rational arithmetic; overflow and division by zero discard a candidate.
//!
//! - [`rational`]: fractions and their arithmetic; [`checked`]: the checked
//!   integer arithmetic under it.
//! - [`operator`]: the four operators.
//! - [`shape`]: tree shapes and their enumeration; [`catalan`]: how many
//!   there are.
//! - [`permutation`] and [`assignment`]: generators of orderings and of
//!   operator assignments.
//! - [`expression`]: syntax trees, their values and their text; [`text`]:
//!   the text of numbers; [`reading`]: reading the text back.
//! - [`instance`]: an expression as values, operators and a shape.
//! - [`search`]: the candidates for a list of values, and the search for
//!   one that reaches a target; [`listing`]: the iterators of itertools
//!   that list orderings and assignments; [`product`]: places in a product
//!   of lists.
//! - [`builder`]: expressions grouped by an order of application, and the
//!   generator of all of them.

pub mod assignment;
pub mod builder;
pub mod catalan;
pub mod checked;
pub mod expression;
pub mod instance;
pub mod listing;
pub mod operator;
pub mod permutation;
pub mod product;
pub mod rational;
pub mod reading;
pub mod search;
pub mod shape;
pub mod text;
