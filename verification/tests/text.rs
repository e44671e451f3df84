use ob::config::{non_empty, symbols, ConfigError};
use ob::domain::{OrderError, Symbol, SymbolError};
use ob::matching::BookError;
use ob::service::ServiceError;
use ob::http::{depth_label, parse_depth, parse_symbol, parse_usize, ApiError};
use ob::service::BookDepth;

#[test]
fn symbol_text_round_trips_through_its_packed_value() {
    let symbol = Symbol::parse("BTC-USD").unwrap();
    assert_eq!(symbol.to_bytes(), b"BTC-USD".to_vec());
    assert_eq!(Symbol::parse("A").unwrap().code(), 0x41);
    assert_eq!(Symbol::parse("AB").unwrap().code(), 0x4142);
    let longest = "ABCDEFGHIJKLMNOP";
    assert_eq!(Symbol::parse(longest).unwrap().to_bytes(), longest.as_bytes().to_vec());
    assert_eq!(Symbol::parse("X/Y_Z.9").unwrap().to_bytes(), b"X/Y_Z.9".to_vec());
}

#[test]
fn distinct_texts_give_distinct_symbols() {
    assert_ne!(Symbol::parse("BTC").unwrap(), Symbol::parse("BTC-USD").unwrap());
    assert_ne!(Symbol::parse("AB").unwrap(), Symbol::parse("BA").unwrap());
    assert_eq!(Symbol::parse("ETH").unwrap(), Symbol::parse("ETH").unwrap());
}

#[test]
fn symbol_errors_name_the_broken_rule() {
    assert_eq!(Symbol::parse(""), Err(SymbolError::Empty));
    assert_eq!(Symbol::parse("ABCDEFGHIJKLMNOPQ"), Err(SymbolError::TooLong));
    assert_eq!(Symbol::parse("btc-usd"), Err(SymbolError::InvalidCharacter));
    assert_eq!(Symbol::parse("BTC USD"), Err(SymbolError::InvalidCharacter));
    assert_eq!(Symbol::parse("BTC\u{e9}"), Err(SymbolError::InvalidCharacter));
}

#[test]
fn depth_text_is_top_full_or_a_count() {
    assert_eq!(parse_depth("top").ok(), Some(BookDepth::Top));
    assert_eq!(parse_depth("full").ok(), Some(BookDepth::Full));
    assert_eq!(parse_depth("5").ok(), Some(BookDepth::Levels(5)));
    assert_eq!(parse_depth("+7").ok(), Some(BookDepth::Levels(7)));
    assert_eq!(parse_depth("0").ok(), Some(BookDepth::Levels(0)));
    for bad in ["", "-1", "+", "Top", "5x", " 5", "99999999999999999999999"] {
        match parse_depth(bad) {
            Err(ApiError::BadRequest(message)) => {
                assert_eq!(message, "depth must be top, full, or a non-negative integer")
            }
            other => panic!("{bad:?} gave {other:?}"),
        }
    }
}

#[test]
fn unsigned_text_reads_as_usize_from_str_does() {
    assert_eq!(parse_usize(b"18446744073709551615"), Some(usize::MAX));
    assert_eq!(parse_usize(b"18446744073709551616"), None);
    assert_eq!(parse_usize(b"007"), Some(7));
    assert_eq!(parse_usize(b"++7"), None);
    for text in ["0", "42", "+42", "1000000", "-0", "", "4 2"] {
        assert_eq!(parse_usize(text.as_bytes()), text.parse::<usize>().ok(), "{text:?}");
    }
}

#[test]
fn depth_labels_spell_the_depth() {
    assert_eq!(depth_label(BookDepth::Top), "top");
    assert_eq!(depth_label(BookDepth::Full), "full");
    assert_eq!(depth_label(BookDepth::Levels(0)), "0");
    assert_eq!(depth_label(BookDepth::Levels(123)), "123");
}

#[test]
fn invalid_symbol_query_is_a_bad_request() {
    assert_eq!(parse_symbol("ETH-USD").ok(), Some(Symbol::parse("ETH-USD").unwrap()));
    match parse_symbol("eth") {
        Err(ApiError::BadRequest(message)) => assert_eq!(message, "invalid symbol"),
        other => panic!("gave {other:?}"),
    }
}

#[test]
fn blank_configuration_values_are_refused() {
    assert_eq!(non_empty("LOG_LEVEL", "info".to_string()).ok(), Some("info".to_string()));
    assert_eq!(non_empty("LOG_LEVEL", " info ".to_string()).ok(), Some(" info ".to_string()));
    for blank in ["", "   ", "\t\n", "\u{3000}\u{a0}"] {
        let error = non_empty("SERVICE_NAME", blank.to_string()).unwrap_err();
        assert_eq!(error.name(), "SERVICE_NAME");
        assert_eq!(error.value(), blank);
        assert_eq!(error.reason(), "must not be empty");
    }
}

#[test]
fn symbol_lists_are_trimmed_and_skip_empty_entries() {
    let btc = Symbol::parse("BTC-USD").unwrap();
    let eth = Symbol::parse("ETH-USD").unwrap();
    assert_eq!(symbols("SYMBOLS", "BTC-USD".to_string()).unwrap(), vec![btc]);
    assert_eq!(symbols("SYMBOLS", "BTC-USD, ETH-USD".to_string()).unwrap(), vec![btc, eth]);
    assert_eq!(symbols("SYMBOLS", ",,BTC-USD,\t,ETH-USD ,".to_string()).unwrap(), vec![btc, eth]);
    assert_eq!(symbols("SYMBOLS", "\u{3000}BTC-USD\u{2009}".to_string()).unwrap(), vec![btc]);
}

#[test]
fn symbol_list_without_entries_is_refused() {
    for text in ["", "  ", ", ,,"] {
        let error = symbols("SYMBOLS", text.to_string()).unwrap_err();
        assert_eq!(error.name(), "SYMBOLS");
        assert_eq!(error.value(), text);
        assert_eq!(error.reason(), "must list at least one symbol");
    }
}

#[test]
fn symbol_list_names_its_first_invalid_entry() {
    let error = symbols("SYMBOLS", "BTC-USD, eth-usd, x y".to_string()).unwrap_err();
    assert_eq!(error.name(), "SYMBOLS");
    assert_eq!(error.value(), "BTC-USD, eth-usd, x y");
    assert_eq!(error.reason(), "\"eth-usd\" is not a valid symbol");

    let error = symbols("SYMBOLS", "A\"B".to_string()).unwrap_err();
    assert_eq!(error.reason(), "\"A\\\"B\" is not a valid symbol");

    let error = symbols("SYMBOLS", "ABCDEFGHIJKLMNOPQ".to_string()).unwrap_err();
    assert_eq!(error.reason(), "\"ABCDEFGHIJKLMNOPQ\" is not a valid symbol");
}

#[test]
fn symbols_read_back_as_their_text() {
    assert_eq!(Symbol::parse("BTC-USD").unwrap().to_text(), "BTC-USD");
    assert_eq!(Symbol::parse("A.B/C_D").unwrap().to_text(), "A.B/C_D");
}

#[test]
fn book_errors_carry_their_messages() {
    assert_eq!(BookError::InvalidOrder(OrderError::ZeroQuantity).message(), "quantity must be positive");
    assert_eq!(
        BookError::InvalidOrder(OrderError::InvalidOpenQuantity).message(),
        "open quantity must be positive and no greater than original quantity"
    );
    assert_eq!(OrderError::InvalidLimitPrice.message(), "limit orders require a positive price");
    assert_eq!(BookError::DuplicateOrder(42).message(), "duplicate active order ID: 42");
    assert_eq!(BookError::DuplicateOrder(0).message(), "duplicate active order ID: 0");
    assert_eq!(BookError::Full.message(), "order book has no room to rest the unfilled remainder");
    assert_eq!(BookError::QuantityOverflow.message(), "aggregate quantity exceeds the supported range");
    assert_eq!(BookError::SequenceExhausted.message(), "engine sequence exhausted");
    assert_eq!(BookError::OrderNotFound(18446744073709551615).message(), "order not found: 18446744073709551615");
}

#[test]
fn service_failures_are_answered_by_kind() {
    let btc = Symbol::parse("BTC-USD").unwrap();
    match ApiError::from_service_error(ServiceError::UnknownSymbol(btc)) {
        ApiError::BadRequest(message) => assert_eq!(message, "unknown symbol: BTC-USD"),
        other => panic!("gave {other:?}"),
    }
    match ApiError::from_service_error(ServiceError::Book(BookError::DuplicateOrder(3))) {
        ApiError::BadRequest(message) => assert_eq!(message, "duplicate active order ID: 3"),
        other => panic!("gave {other:?}"),
    }
    let overloaded = ApiError::from_service_error(ServiceError::Overloaded);
    assert!(matches!(overloaded, ApiError::Overloaded));
    assert_eq!(overloaded.message(), "matching engine ring is full");
    let unavailable = ApiError::from_service_error(ServiceError::Unavailable);
    assert!(matches!(unavailable, ApiError::Unavailable));
    assert_eq!(unavailable.message(), "matching engine is unavailable");
    assert_eq!(ApiError::BadRequest("no".to_string()).message(), "no");
}

#[test]
fn configuration_errors_read_as_one_line() {
    let error = non_empty("LOG_LEVEL", " \t".to_string()).unwrap_err();
    assert_eq!(error.message(), "environment variable LOG_LEVEL=\" \\t\" is invalid: must not be empty");
    let error = ConfigError::new("PORT", "x".to_string(), "invalid digit found in string".to_string());
    assert_eq!(error.name(), "PORT");
    assert_eq!(error.message(), "environment variable PORT=\"x\" is invalid: invalid digit found in string");
}

#[test]
fn api_errors_map_to_http_statuses() {
    assert_eq!(ApiError::BadRequest("x".to_string()).status(), 400);
    assert_eq!(ApiError::Overloaded.status(), 503);
    assert_eq!(ApiError::Unavailable.status(), 503);
}

#[test]
fn numbers_render_in_decimal() {
    for n in [0u64, 7, 10, 42, 1000, 4_294_967_296, u64::MAX] {
        assert_eq!(ob::text::u64_text(n), n.to_string());
    }
    assert_eq!(ob::text::usize_text(usize::MAX), usize::MAX.to_string());
    assert_eq!(ob::text::usize_text(90), "90");
}
