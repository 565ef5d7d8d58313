use stock_notifier::codec::parse_json;
use stock_notifier::numbers::{parse_i64, parse_usize};
use stock_notifier::stock_information::parse_json_to_stock_info;

fn pairs_of(s: &str) -> Vec<(String, String)> {
    parse_json(s)
}

#[test]
fn parse_json_decodes_a_plain_message() {
    let pairs = pairs_of("{\"sn\": \"AAPL\", \"si\": 1, \"vm\": 100}");
    assert_eq!(pairs.len(), 3);
    assert_eq!(pairs[0], ("sn".to_string(), "AAPL".to_string()));
    assert_eq!(pairs[1], ("si".to_string(), "1".to_string()));
    assert_eq!(pairs[2], ("vm".to_string(), "100".to_string()));
}

#[test]
fn parse_json_skips_whitespace_quotes_and_braces() {
    let pairs = pairs_of("{ \"a\"\t:\n\"b\" , \"c\" : \"d\" }");
    assert_eq!(pairs, vec![("a".to_string(), "b".to_string()), ("c".to_string(), "d".to_string())]);
}

#[test]
fn parse_json_keeps_a_dangling_pair_with_both_halves() {
    let pairs = pairs_of("{sn:AAPL,si:1");
    assert_eq!(
        pairs,
        vec![("sn".to_string(), "AAPL".to_string()), ("si".to_string(), "1".to_string())]
    );
}

#[test]
fn parse_json_drops_a_trailing_key_without_a_value() {
    let pairs = pairs_of("{sn:AAPL,si}");
    assert_eq!(pairs, vec![("sn".to_string(), "AAPL".to_string())]);
}

#[test]
fn parse_json_drops_a_field_with_an_empty_value() {
    let pairs = pairs_of("{a:,b:2}");
    assert_eq!(pairs, vec![("b".to_string(), "2".to_string())]);
}

#[test]
fn parse_json_of_empty_input_is_empty() {
    assert_eq!(pairs_of(""), Vec::<(String, String)>::new());
    assert_eq!(pairs_of("{}"), Vec::<(String, String)>::new());
}

#[test]
fn stock_info_decodes_every_recognized_field() {
    let info = parse_json_to_stock_info(
        "{sn:AAPL,si:2,t:1700000000,ap:1893,op:1890,mn:1880,mx:1901,vm:100,nt:7}",
    );
    assert_eq!(info.stock_name, "AAPL");
    assert_eq!(info.stock_interval, 2);
    assert_eq!(info.timestamp, 1700000000);
    assert_eq!(info.avg_price, "1893");
    assert_eq!(info.avg_price_open, "1890");
    assert_eq!(info.min_price, "1880");
    assert_eq!(info.max_price, "1901");
    assert_eq!(info.volume_moved, 100);
    assert_eq!(info.num_of_trades, 7);
}

#[test]
fn stock_info_ignores_unknown_keys_and_bad_numbers() {
    let info = parse_json_to_stock_info("{sn:MSFT,zz:9,si:abc,vm:-5}");
    assert_eq!(info.stock_name, "MSFT");
    assert_eq!(info.stock_interval, 0);
    assert_eq!(info.volume_moved, -5);
}

#[test]
fn stock_info_takes_the_last_occurrence_of_a_repeated_key() {
    let info = parse_json_to_stock_info("{sn:AAPL,sn:MSFT}");
    assert_eq!(info.stock_name, "MSFT");
}

#[test]
fn parse_usize_accepts_digits_and_rejects_the_rest() {
    assert_eq!(parse_usize("0"), Some(0));
    assert_eq!(parse_usize("120"), Some(120));
    assert_eq!(parse_usize(""), None);
    assert_eq!(parse_usize("12a"), None);
    assert_eq!(parse_usize("-3"), None);
    assert_eq!(parse_usize("+3"), None);
    assert_eq!(parse_usize("18446744073709551615"), Some(usize::MAX));
    assert_eq!(parse_usize("18446744073709551616"), None);
}

#[test]
fn parse_i64_handles_signs_and_the_extremes() {
    assert_eq!(parse_i64("0"), Some(0));
    assert_eq!(parse_i64("-5"), Some(-5));
    assert_eq!(parse_i64("1700000000"), Some(1700000000));
    assert_eq!(parse_i64("-"), None);
    assert_eq!(parse_i64(""), None);
    assert_eq!(parse_i64("9223372036854775807"), Some(i64::MAX));
    assert_eq!(parse_i64("9223372036854775808"), None);
    assert_eq!(parse_i64("-9223372036854775808"), Some(i64::MIN));
    assert_eq!(parse_i64("-9223372036854775809"), None);
}
