use matching_engine::models::{Order, Side};
use matching_engine::state::{Config, ConfigData, Engine};

fn create_test_config() -> Config {
    Config {
        is_primary: true,
        primary_url: None,
        symbols: vec!["BTC".to_string(), "ETH".to_string()],
    }
}

#[test]
fn config_validates_symbol() {
    let config = Config {
        is_primary: true,
        primary_url: None,
        symbols: vec!["BTC".to_string(), "ETH".to_string()],
    };

    assert!(config.is_valid_symbol("BTC"));
    assert!(config.is_valid_symbol("ETH"));
    assert!(!config.is_valid_symbol("SOL"));
}

#[test]
fn engine_has_multiple_orderbooks() {
    let config = create_test_config();
    let engine = Engine::new(&config.symbols);

    assert!(engine.get_orderbook("BTC").is_some());
    assert!(engine.get_orderbook("ETH").is_some());
    assert!(engine.get_orderbook("SOL").is_none());
    assert_eq!(engine.books.len(), 2);
}

#[test]
fn engine_keeps_one_book_per_repeated_symbol() {
    let symbols = vec!["BTC".to_string(), "ETH".to_string(), "BTC".to_string()];
    let engine = Engine::new(&symbols);
    assert_eq!(engine.books.len(), 2);
    let book = engine.get_orderbook("BTC").unwrap();
    assert!(book.bids.is_empty());
    assert!(book.asks.is_empty());
}

#[test]
fn engine_books_are_isolated() {
    let config = create_test_config();
    let mut engine = Engine::new(&config.symbols);
    {
        let book = engine.get_orderbook_mut("BTC").unwrap();
        book.add_order(Order { id: 1, side: Side::Buy, price: 100, qty: 5 }).unwrap();
    }
    assert_eq!(engine.get_orderbook("BTC").unwrap().bids.len(), 1);
    assert!(engine.get_orderbook("ETH").unwrap().bids.is_empty());
    assert!(engine.get_orderbook_mut("DOGE").is_none());
}

#[test]
fn config_from_sources_reads_flag_in_any_case() {
    let c = Config::from_sources(Some("TRUE".to_string()), None, None);
    assert!(c.is_primary);
    let c = Config::from_sources(Some("False".to_string()), Some("http://p".to_string()), None);
    assert!(!c.is_primary);
    assert_eq!(c.primary_url, Some("http://p".to_string()));
    let c = Config::from_sources(Some("yes".to_string()), None, None);
    assert!(!c.is_primary);
    let c = Config::from_sources(None, None, None);
    assert!(c.is_primary);
}

#[test]
fn config_from_sources_defaults_symbols() {
    let c = Config::from_sources(None, None, None);
    assert_eq!(
        c.symbols,
        vec!["BTC".to_string(), "ETH".to_string(), "SOL".to_string(), "XRP".to_string()]
    );
    let data = ConfigData { symbols: vec!["ADA".to_string()] };
    let c = Config::from_sources(None, None, Some(data));
    assert_eq!(c.symbols, vec!["ADA".to_string()]);
}
