use vstd::prelude::*;
use vstd::string::StringExecFns;

verus! {

/// Where the transaction records of a run come from.
#[derive(Debug)]
pub struct OrderBookConfiguration {
    /// The path of the record file.
    pub orderbook_path: Option<String>,
}

impl OrderBookConfiguration {
    /// A configuration that reads the records at `input_path`.
    pub fn new(input_path: &str) -> (r: Self)
        ensures
            r.orderbook_path is Some,
            r.orderbook_path->0@ == input_path@,
    {
        OrderBookConfiguration { orderbook_path: Some(String::from_str(input_path)) }
    }
}

} // verus!
