//! Wire shapes of the chart routes that carry no price.
use vstd::prelude::*;

verus! {

/// Which file a chart series was read from.
pub struct BarSourceDto {
    /// The parquet read, relative to the data root.
    pub file: String,
    /// Its stored timeframe, which is not always the one asked for.
    pub timeframe: String,
    /// True when the bars were rebucketed from a finer series.
    pub resampled: bool,
    /// Last write time of that file, UTC epoch ms.
    pub exported_at_ms: Option<i64>,
}

/// One market in the catalog.
pub struct MarketInfo {
    pub id: String,
    pub label: String,
    pub bar_symbol: String,
    pub bar_source: String,
    pub options_source: String,
    /// False when the store holds nothing for this market yet.
    pub has_data: bool,
}

/// The catalog's defaults.
pub struct Defaults {
    pub timeframe: String,
}

/// Whether a backtest looks promising, and why not.
pub struct VerdictDto {
    pub promising: bool,
    pub reasons: Vec<String>,
}

/// A count of zero, which the wire leaves out.
pub fn is_zero(n: &usize) -> (z: bool)
    ensures
        z == (*n == 0),
{
    *n == 0
}

} // verus!
