//! Business-day calendar arithmetic over a fixed set of day ordinals.
//!
//! A [`BusinessCalendar`] is built once, from day ordinals in any order and
//! with any repeats, and is read-only from then on. It answers whether a day
//! is a business day, which business day lies a number of steps away from a
//! day, which is the next or the previous one, which business days lie in a
//! range and how many, and at which rank a business day stands. How a day
//! ordinal relates to a date is the caller's matter.
//!
//! - [`model`] describes a calendar as a strictly increasing `Seq<i32>` and
//!   each query as a spec function on it.
//! - [`calendar`] holds the type and its queries, each with a contract over
//!   the model.
//! - [`normalize`] sorts raw ordinals and drops their repeats.
//! - [`lemmas`] proves what the queries need of strictly increasing
//!   sequences.
//! - [`theorems`] states what holds of every calendar.

pub mod calendar;
pub mod lemmas;
pub mod model;
pub mod normalize;
pub mod theorems;

pub use calendar::BusinessCalendar;
