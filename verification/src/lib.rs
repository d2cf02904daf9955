//! Business-day calendar arithmetic for option pricing.
//!
//! The verified core of a Black-Scholes pricing utility: a
//! proleptic-Gregorian calendar date type, a day-numbering scheme,
//! weekday classification, and the business-day count that the pricing
//! formulas use as their day-count convention. The floating-point
//! pricing formulas themselves live outside the verified library and
//! consume the counts produced here.

pub mod calendar;
pub mod date;

pub use calendar::calcular_dias_uteis;
pub use date::Date;
