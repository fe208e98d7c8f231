//! The configuration the analysis runs under: series identifiers, year
//! range, optional credential, and output mode. The argument-parsing layer
//! hands this over already validated.

use vstd::prelude::*;
use vstd::string::StringExecFns;

verus! {

/// How the computed records are presented.
#[derive(Clone, Copy, Debug, PartialEq, Eq, Structural)]
pub enum OutputFormat {
    /// Fixed-width text table.
    Table,
    /// Structured record serialization.
    Json,
}

/// One run's configuration.
#[derive(Debug)]
pub struct Cli {
    /// Series identifiers to fetch.
    pub series: Vec<String>,
    /// First year of the requested range.
    pub start_year: u16,
    /// Last year of the requested range.
    pub end_year: u16,
    /// Optional registration key, passed through to the fetch layer.
    pub api_key: Option<String>,
    /// Output mode.
    pub format: OutputFormat,
}

impl Default for Cli {
    /// The default run: one well-known series over 2022 through 2024,
    /// rendered as a table, without a credential.
    fn default() -> (r: Cli)
        ensures
            r.series@.len() == 1,
            r.series@[0]@ == "CES6054150001"@,
            r.start_year == 2022,
            r.end_year == 2024,
            r.api_key is None,
            r.format == OutputFormat::Table,
    {
        let mut series: Vec<String> = Vec::new();
        series.push(String::from_str("CES6054150001"));
        Cli { series, start_year: 2022, end_year: 2024, api_key: None, format: OutputFormat::Table }
    }
}

} // verus!
