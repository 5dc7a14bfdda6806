use leds::{chain_ranges, cost_currency, ChainRange};

#[test]
fn splits_into_series_chains() {
    assert_eq!(
        chain_ranges(7, 3),
        vec![
            ChainRange { chain_id: 1, start: 0, end: 3 },
            ChainRange { chain_id: 2, start: 3, end: 6 },
            ChainRange { chain_id: 3, start: 6, end: 7 },
        ]
    );
    assert_eq!(chain_ranges(6, 3).len(), 2);
    assert!(chain_ranges(0, 20).is_empty());
    assert!(chain_ranges(0, 0).is_empty());
    assert_eq!(chain_ranges(5, 20), vec![ChainRange { chain_id: 1, start: 0, end: 5 }]);
}

#[test]
fn currency_defaults_to_roubles() {
    assert_eq!(cost_currency(&None), "RUB");
    assert_eq!(cost_currency(&Some("EUR".to_string())), "EUR");
}
