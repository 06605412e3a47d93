//! Stochastic universal sampling over integer weights.
//!
//! A wheel is laid out from the weights, one arc per item, and `n` evenly
//! spaced spokes are placed on it after a single random spin. Each spoke
//! selects the item on whose arc it stands, so one pass over the weights
//! yields all `n` selections, and every item is selected as often as its
//! share of the weight says, give or take one.
//!
//! - [`choice`]: the entry points of [`RandomChoice`], which borrow the
//!   selected samples or resample a buffer in place, each with a drawn spin,
//!   with a given spin, and with checked arguments.
//! - [`source`]: the one random draw of a call, the spin.
//! - [`wheel`]: the arithmetic of the wheel and the walk along it.
//! - [`walk`]: the same walk over arc ends and spokes that a caller has
//!   computed elsewhere and hands over as ordered keys.
//! - [`laws`] and [`share`]: what holds of every selection.

pub mod choice;
pub mod error;
pub mod laws;
pub mod share;
pub mod source;
pub mod walk;
pub mod wheel;

pub use choice::RandomChoice;
pub use error::SamplingError;
