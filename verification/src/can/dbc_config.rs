//! What a DBC logger stores besides the signal values.
use vstd::prelude::*;

verus! {

/// Configuration of a DBC-driven logger.
pub struct DbcMdfLoggerConfig {
    /// Store raw values with conversion blocks instead of physical values
    /// (default: `false`, physical values as 64-bit floats)
    pub store_raw_values: bool,
    /// Include unit information in channels (default: `true`)
    pub include_units: bool,
    /// Include minimum and maximum limits in channels (default: `true`)
    pub include_limits: bool,
    /// Include conversion blocks in raw value mode (default: `true`)
    pub include_conversions: bool,
    /// Include value descriptions as value-to-text conversions (default:
    /// `true`)
    pub include_value_descriptions: bool,
}

impl Default for DbcMdfLoggerConfig {
    /// Physical values, with units, limits, conversions and value
    /// descriptions.
    fn default() -> (r: Self)
        ensures
            !r.store_raw_values && r.include_units && r.include_limits && r.include_conversions
                && r.include_value_descriptions,
    {
        DbcMdfLoggerConfig {
            store_raw_values: false,
            include_units: true,
            include_limits: true,
            include_conversions: true,
            include_value_descriptions: true,
        }
    }
}

} // verus!
