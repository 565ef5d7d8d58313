//! The decoded form of one published update message.
//!
//! Only the fields that drive routing and retention — subject name,
//! interval tag, timestamp, volume and trade count — are held decoded; the
//! price fields are carried as the raw digit strings from the wire, since
//! nothing in the broker ever computes with a price.  A numeric field whose
//! value does not parse, or does not fit, is left at its previous value;
//! decoding a message never fails.

use crate::codec::{decoded_pairs, parse_json};
use crate::numbers::{i64_value_of, parse_i64, parse_usize, usize_value_of};
use vstd::prelude::*;

verus! {

/// The mathematical model of a `StockInformation`.
pub ghost struct StockInfoV {
    pub stock_name: Seq<char>,
    pub stock_interval: int,
    pub timestamp: int,
    pub avg_price: Seq<char>,
    pub avg_price_open: Seq<char>,
    pub min_price: Seq<char>,
    pub max_price: Seq<char>,
    pub volume_moved: int,
    pub num_of_trades: int,
}

pub struct StockInformation {
    pub stock_name: String,
    pub stock_interval: usize,
    pub timestamp: i64,
    pub avg_price: String,
    pub avg_price_open: String,
    pub min_price: String,
    pub max_price: String,
    pub volume_moved: i64,
    pub num_of_trades: i64,
}

impl View for StockInformation {
    type V = StockInfoV;

    open spec fn view(&self) -> StockInfoV {
        StockInfoV {
            stock_name: self.stock_name@,
            stock_interval: self.stock_interval as int,
            timestamp: self.timestamp as int,
            avg_price: self.avg_price@,
            avg_price_open: self.avg_price_open@,
            min_price: self.min_price@,
            max_price: self.max_price@,
            volume_moved: self.volume_moved as int,
            num_of_trades: self.num_of_trades as int,
        }
    }
}

/// The empty record every decode starts from.
pub open spec fn info_init() -> StockInfoV {
    StockInfoV {
        stock_name: Seq::empty(),
        stock_interval: 0,
        timestamp: 0,
        avg_price: Seq::empty(),
        avg_price_open: Seq::empty(),
        min_price: Seq::empty(),
        max_price: Seq::empty(),
        volume_moved: 0,
        num_of_trades: 0,
    }
}

/// What storing one decoded key-value pair does to the record.  Unknown
/// keys, and numeric values that do not parse, change nothing.
pub open spec fn info_insert(info: StockInfoV, key: Seq<char>, value: Seq<char>) -> StockInfoV {
    if key == "sn"@ {
        StockInfoV { stock_name: value, ..info }
    } else if key == "si"@ {
        match usize_value_of(value) {
            Some(v) => StockInfoV { stock_interval: v, ..info },
            None => info,
        }
    } else if key == "ap"@ {
        StockInfoV { avg_price: value, ..info }
    } else if key == "op"@ {
        StockInfoV { avg_price_open: value, ..info }
    } else if key == "mn"@ {
        StockInfoV { min_price: value, ..info }
    } else if key == "mx"@ {
        StockInfoV { max_price: value, ..info }
    } else if key == "vm"@ {
        match i64_value_of(value) {
            Some(v) => StockInfoV { volume_moved: v, ..info },
            None => info,
        }
    } else if key == "nt"@ {
        match i64_value_of(value) {
            Some(v) => StockInfoV { num_of_trades: v, ..info },
            None => info,
        }
    } else if key == "t"@ {
        match i64_value_of(value) {
            Some(v) => StockInfoV { timestamp: v, ..info },
            None => info,
        }
    } else {
        info
    }
}

/// The record decoded from a sequence of key-value pairs, stored in order.
pub open spec fn info_of_pairs(pairs: Seq<(Seq<char>, Seq<char>)>) -> StockInfoV
    decreases pairs.len(),
{
    if pairs.len() == 0 {
        info_init()
    } else {
        info_insert(info_of_pairs(pairs.drop_last()), pairs.last().0, pairs.last().1)
    }
}

/// The record decoded from a whole wire message.
pub open spec fn info_of(s: Seq<char>) -> StockInfoV {
    info_of_pairs(decoded_pairs(s))
}

impl StockInformation {
    pub fn new() -> (r: Self)
        ensures
            r@ == info_init(),
    {
        StockInformation {
            stock_name: String::new(),
            stock_interval: 0,
            timestamp: 0,
            avg_price: String::new(),
            avg_price_open: String::new(),
            min_price: String::new(),
            max_price: String::new(),
            volume_moved: 0,
            num_of_trades: 0,
        }
    }

    pub fn clone(&self) -> (r: Self)
        ensures
            r@ == self@,
    {
        StockInformation {
            stock_name: self.stock_name.clone(),
            stock_interval: self.stock_interval,
            timestamp: self.timestamp,
            avg_price: self.avg_price.clone(),
            avg_price_open: self.avg_price_open.clone(),
            min_price: self.min_price.clone(),
            max_price: self.max_price.clone(),
            volume_moved: self.volume_moved,
            num_of_trades: self.num_of_trades,
        }
    }

    /// Stores one decoded key-value pair, exactly as `info_insert` says.
    pub fn insert_data(&mut self, key: String, value: String)
        ensures
            final (self)@ == info_insert(old(self)@, key@, value@),
    {
        if key == String::from_str("sn") {
            self.stock_name = value;
        } else if key == String::from_str("si") {
            match parse_usize(value.as_str()) {
                Some(v) => {
                    self.stock_interval = v;
                },
                None => {},
            }
        } else if key == String::from_str("ap") {
            self.avg_price = value;
        } else if key == String::from_str("op") {
            self.avg_price_open = value;
        } else if key == String::from_str("mn") {
            self.min_price = value;
        } else if key == String::from_str("mx") {
            self.max_price = value;
        } else if key == String::from_str("vm") {
            match parse_i64(value.as_str()) {
                Some(v) => {
                    self.volume_moved = v;
                },
                None => {},
            }
        } else if key == String::from_str("nt") {
            match parse_i64(value.as_str()) {
                Some(v) => {
                    self.num_of_trades = v;
                },
                None => {},
            }
        } else if key == String::from_str("t") {
            match parse_i64(value.as_str()) {
                Some(v) => {
                    self.timestamp = v;
                },
                None => {},
            }
        }
    }
}

/// Decodes a wire message into a `StockInformation`, exactly as `info_of`
/// says.
pub fn parse_json_to_stock_info(json_data: &str) -> (r: StockInformation)
    ensures
        r@ == info_of(json_data@),
{
    let pairs = parse_json(json_data);
    let mut info = StockInformation::new();
    let mut i: usize = 0;
    while i < pairs.len()
        invariant
            i <= pairs.len(),
            pairs.deep_view() == decoded_pairs(json_data@),
            info@ == info_of_pairs(pairs.deep_view().subrange(0, i as int)),
        decreases pairs.len() - i,
    {
        proof {
            assert(pairs.deep_view().subrange(0, (i + 1) as int).drop_last()
                =~= pairs.deep_view().subrange(0, i as int));
            assert(pairs.deep_view().subrange(0, (i + 1) as int).last() == pairs.deep_view()[
                i as int
            ]);
        }
        let key = pairs[i].0.clone();
        let value = pairs[i].1.clone();
        info.insert_data(key, value);
        i = i + 1;
    }
    proof {
        assert(pairs.deep_view().subrange(0, pairs.len() as int) =~= pairs.deep_view());
    }
    info
}

} // verus!
