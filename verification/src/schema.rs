//! Records as the price feed delivers them.

use vstd::prelude::*;

verus! {

/// One quotation of the day-ahead price feed, every field as the feed
/// writes it: two timestamps and a price in decimal notation.
#[derive(Debug, Clone)]
pub struct PriceRecord {
    pub datum_nl: String,
    pub datum_utc: String,
    pub prijs_excl_belastingen: String,
}

} // verus!
