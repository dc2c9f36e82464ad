pub mod collector;
pub mod format;
pub mod telemetry;

pub use telemetry::TelemetryCounters;
