//! AIRAC cycle arithmetic and chart-metadata reconciliation.
//!
//! The core is a bidirectional mapping between calendar dates and 4-digit
//! 28-day publication-cycle codes, plus a pure reconciliation pipeline that
//! turns a parsed chart-metadata document into a set of chart records and
//! synchronizes an identity-keyed store with them.

pub mod cycle;
pub mod dates;
pub mod models;
pub mod store;

pub use cycle::Airac;
pub use cycle::calculate_cycle;
pub use cycle::calculate_cycle_dates;
pub use cycle::cycles_between_dates;
pub use cycle::first_cycle_of_year;
pub use cycle::get_cycle_for;
pub use cycle::is_cycle_date;
pub use cycle::number_of_cycles_in_year;
pub use cycle::split_year;
pub use dates::Date;
pub use models::Airport;
pub use models::Chart;
pub use models::ChartRecord;
pub use models::ChartType;
pub use models::City;
pub use models::DigitalTpp;
pub use models::State;
pub use store::Store;
