use ledger::date::{Date, DateTime, Time};
use ledger::decimal::Dec;
use ledger::iter::MultiPeek;
use ledger::pricedb::{
    discard_ws, parse_market_price_line, parse_market_price_line_checked, peek_next_word,
    read_commodity, read_date_time, read_sym, read_until, ParseError,
};
use ledger::quantity::Quantity;
use ledger::symbol::Symbol;

fn quantity(num: &str, sym: &str) -> Quantity {
    Quantity {
        q: Dec::parse(num).unwrap(),
        s: Symbol::new(sym),
    }
}

fn chars(s: &str) -> MultiPeek<char> {
    MultiPeek::new(s.chars().collect())
}

fn dt(y: i32, m: u32, d: u32, h: u32, mi: u32, s: u32) -> DateTime {
    DateTime {
        date: Date::from_ymd(y, m, d).unwrap(),
        time: Time::from_hms(h, mi, s).unwrap(),
    }
}

#[test]
fn test_market_price_parse() {
    let line = "P 2025/09/13 AAPL $ 150.25";
    let mp = parse_market_price_line(line).expect("Failed to parse market price");
    assert_eq!(mp.sym, Symbol::new("AAPL"));
    assert_eq!(mp.price, quantity("150.25", "$"));

    let line = "P 2025/09/13 12:13:14 AAPL $ 150.25";
    let mp = parse_market_price_line(line).expect("Failed to parse market price");
    assert_eq!(mp.sym, Symbol::new("AAPL"));
    assert_eq!(mp.price, quantity("150.25", "$"));
    assert_eq!(mp.date_time, dt(2025, 9, 13, 12, 13, 14));

    let line = "P 2025/09/13 AAPL $150.25";
    let mp = parse_market_price_line(line).expect("Failed to parse market price");
    assert_eq!(mp.sym, Symbol::new("AAPL"));
    assert_eq!(mp.price, quantity("150.25", "$"));

    let line = "P 2025/09/13 AAPL \"any-cmdty\" 150.25";
    let mp = parse_market_price_line(line).expect("Failed to parse market price");
    assert_eq!(mp.sym, Symbol::new("AAPL"));
    assert_eq!(mp.price, quantity("150.25", "\"any-cmdty\""));
}

#[test]
fn test_market_price_parse_reverse() {
    let line = "P 2025/09/13 AAPL  150.25 $";
    let mp = parse_market_price_line(line).expect("Failed to parse market price");
    assert_eq!(mp.sym, Symbol::new("AAPL"));
    assert_eq!(mp.price, quantity("150.25", "$"));

    let line = "P 2025/09/13 12:13:14 AAPL  150.25 $";
    let mp = parse_market_price_line(line).expect("Failed to parse market price");
    assert_eq!(mp.sym, Symbol::new("AAPL"));
    assert_eq!(mp.price, quantity("150.25", "$"));
    assert_eq!(mp.date_time, dt(2025, 9, 13, 12, 13, 14));

    let line = "P 2025/09/13 AAPL 150.25$";
    let mp = parse_market_price_line(line).expect("Failed to parse market price");
    assert_eq!(mp.sym, Symbol::new("AAPL"));
    assert_eq!(mp.price, quantity("150.25", "$"));

    let line = "P 2025/09/13 AAPL  150.25 \"any-cmdty\"";
    let mp = parse_market_price_line(line).expect("Failed to parse market price");
    assert_eq!(mp.sym, Symbol::new("AAPL"));
    assert_eq!(mp.price, quantity("150.25", "\"any-cmdty\""));
}

#[test]
fn test_market_price_with_spaces_parse() {
    let line = "P    2025/09/13    AAPL $   150.25";
    let mp = parse_market_price_line(line).expect("Failed to parse market price");
    assert_eq!(mp.sym, Symbol::new("AAPL"));
    assert_eq!(mp.price, quantity("150.25", "$"));
    let line = "P 2025/09/13          12:13:14 AAPL   $ 150.25";
    let mp = parse_market_price_line(line).expect("Failed to parse market price");
    assert_eq!(mp.sym, Symbol::new("AAPL"));
    assert_eq!(mp.price, quantity("150.25", "$"));
    assert_eq!(mp.date_time, dt(2025, 9, 13, 12, 13, 14));
    let line = "P 2025/09/13 AAPL           $150.25";
    let mp = parse_market_price_line(line).expect("Failed to parse market price");
    assert_eq!(mp.sym, Symbol::new("AAPL"));
    assert_eq!(mp.price, quantity("150.25", "$"));

    let line = "P 2025/09/13         AAPL \"any-cmdty\" 150.25";
    let mp = parse_market_price_line(line).expect("Failed to parse market price");
    assert_eq!(mp.sym, Symbol::new("AAPL"));
    assert_eq!(mp.price, quantity("150.25", "\"any-cmdty\""));
}

#[test]
fn test_read_commodity() {
    let mut qty = chars("$ 123.00");
    let qty = read_commodity(&mut qty).unwrap().unwrap();
    assert_eq!(qty, quantity("123.00", "$"));

    let mut qty = chars("$123.00");
    let qty = read_commodity(&mut qty).unwrap().unwrap();
    assert_eq!(qty, quantity("123.00", "$"));

    let mut qty = chars("123.00XYZ");
    let qty = read_commodity(&mut qty).unwrap().unwrap();
    assert_eq!(qty, quantity("123.00", "XYZ"));
}

#[test]
fn test_read_sym() {
    let mut iter = chars("$");
    match read_sym(&mut iter) {
        Ok(s) => assert_eq!(s, "$".to_string()),
        Err(e) => panic!("Failed to read sym: {:?}", e),
    }

    let mut iter = chars("\"AA-BB\"");
    match read_sym(&mut iter) {
        Ok(s) => assert_eq!(s, "\"AA-BB\"".to_string()),
        Err(e) => panic!("Failed to read sym: {:?}", e),
    }

    let mut iter = chars("\"AA%$^${}A-BB\"");
    match read_sym(&mut iter) {
        Ok(s) => assert_eq!(s, "\"AA%$^${}A-BB\"".to_string()),
        Err(e) => panic!("Failed to read sym: {:?}", e),
    }
}

#[test]
fn test_read_next_word() {
    let mut iter = chars("  hellx world   ");
    assert_eq!(read_until(&mut iter, |c: &char| c.is_whitespace()), Some("hellx".to_string()));
    assert_eq!(read_until(&mut iter, |c: &char| c.is_whitespace()), Some("world".to_string()));
    assert_eq!(read_until(&mut iter, |c: &char| c.is_whitespace()), None);

    let mut iter = chars(" hellx    world");
    assert_eq!(read_until(&mut iter, |c: &char| c.is_whitespace()), Some("hellx".to_string()));
    assert_eq!(read_until(&mut iter, |c: &char| c.is_whitespace()), Some("world".to_string()));
    assert_eq!(read_until(&mut iter, |c: &char| c.is_whitespace()), None);

    let mut iter = chars("$ 123.00");
    iter.peek();
    assert_eq!(read_until(&mut iter, |c: &char| c.is_whitespace()), Some("$".to_string()));

    let mut empty_iter = chars("   ");
    assert_eq!(read_until(&mut empty_iter, |c: &char| c.is_whitespace()), None);
}

#[test]
fn test_peek_next_word() {
    let mut iter = chars("  hellx world   ");
    assert_eq!(peek_next_word(&mut iter), Some("hellx".to_string()));
    assert_eq!(peek_next_word(&mut iter), Some("world".to_string()));
    assert_eq!(peek_next_word(&mut iter), None);

    assert_eq!(read_until(&mut iter, |c: &char| c.is_whitespace()), Some("hellx".to_string()));
    assert_eq!(read_until(&mut iter, |c: &char| c.is_whitespace()), Some("world".to_string()));
    assert_eq!(read_until(&mut iter, |c: &char| c.is_whitespace()), None);

    let mut empty_iter = chars("   ");
    assert_eq!(read_until(&mut empty_iter, |c: &char| c.is_whitespace()), None);
}

#[test]
fn test_discard_ws() {
    let mut iter = chars("h");
    discard_ws(&mut iter, true);
    assert_eq!(iter.peek(), Some(&'h'));

    let mut iter = chars(" h");
    discard_ws(&mut iter, true);
    assert_eq!(iter.peek(), Some(&'h'));

    let mut iter = chars("  h");
    discard_ws(&mut iter, true);
    assert_eq!(iter.peek(), Some(&'h'));

    let mut iter = chars("      h");
    discard_ws(&mut iter, true);
    assert_eq!(iter.peek(), Some(&'h'));
    //
    let mut iter = chars("h");
    discard_ws(&mut iter, false);
    assert_eq!(iter.next(), Some('h'));

    let mut iter = chars(" h");
    discard_ws(&mut iter, false);
    assert_eq!(iter.next(), Some('h'));

    let mut iter = chars("  h");
    discard_ws(&mut iter, false);
    assert_eq!(iter.next(), Some('h'));

    let mut iter = chars("      h");
    discard_ws(&mut iter, false);
    assert_eq!(iter.next(), Some('h'));
}

#[test]
fn market_price_errors() {
    assert_eq!(
        parse_market_price_line("X 2025/09/13 AAPL $ 1").unwrap_err(),
        ParseError::ExpectedP
    );
    assert_eq!(
        parse_market_price_line("P 2025/13/13 AAPL $ 1").unwrap_err(),
        ParseError::InvalidDate
    );
    assert_eq!(
        parse_market_price_line("P 20x5/09/13 AAPL $ 1").unwrap_err(),
        ParseError::ExpectedDate
    );
    assert_eq!(
        parse_market_price_line("P 2025/09/13").unwrap_err(),
        ParseError::UnexpectedEndOfInput
    );
    assert_eq!(
        parse_market_price_line("P 2025/09/13 25:00:00 AAPL $ 1").unwrap_err(),
        ParseError::InvalidTime
    );
    assert_eq!(
        parse_market_price_line("P 2025/09/13 AAPL \"$ 1").unwrap_err(),
        ParseError::EndQuoteOfSymbolNotFound
    );
    assert_eq!(
        parse_market_price_line("P 2025/09/13 AAPL").unwrap_err(),
        ParseError::ExpectedPrice
    );
    assert_eq!(
        parse_market_price_line("P 2025/09/13 AAPL 1.2.3 $").unwrap_err(),
        ParseError::ExpectedNum
    );
}

#[test]
fn market_price_lines_the_reader_stops_on() {
    assert!(parse_market_price_line_checked("").is_none());
    assert!(parse_market_price_line_checked("P 2025 AAPL $ 1").is_none());
    assert!(parse_market_price_line_checked("P 2025/09/13 AAPL $").is_none());
    assert!(parse_market_price_line_checked("P 2025/09/13 AAPL $ 1").is_some());
}

#[test]
fn read_until_stops_where_the_test_says() {
    let mut iter = chars("  12,5;x");
    assert_eq!(read_until(&mut iter, |c: &char| *c == ','), Some("12".to_string()));
    assert_eq!(iter.next(), Some(','));
    assert_eq!(read_until(&mut iter, |c: &char| *c == ';'), Some("5".to_string()));
    assert_eq!(read_until(&mut iter, |c: &char| *c == ';'), None);
    assert_eq!(iter.next(), Some(';'));
}

#[test]
fn read_date_time_consumes_the_time_and_whatever_was_peeked() {
    let mut iter = chars("2023-01-02 10:11:12 USD 1.5 EUR");
    assert_eq!(
        read_date_time(&mut iter),
        Some(Ok(dt(2023, 1, 2, 10, 11, 12)))
    );
    let rest: String = std::iter::from_fn(|| iter.next()).collect();
    assert_eq!(rest, "USD 1.5 EUR");

    let mut iter = chars("2023-01-02 10:11:12 USD 1.5 EUR");
    for _ in 0..25 {
        iter.peek();
    }
    assert_eq!(
        read_date_time(&mut iter),
        Some(Ok(dt(2023, 1, 2, 10, 11, 12)))
    );
    let rest: String = std::iter::from_fn(|| iter.next()).collect();
    assert_eq!(rest, ".5 EUR");

    let mut iter = chars("2023-01-02 USD 1.5 EUR");
    assert_eq!(read_date_time(&mut iter), Some(Ok(dt(2023, 1, 2, 0, 0, 0))));
    let rest: String = std::iter::from_fn(|| iter.next()).collect();
    assert_eq!(rest, " USD 1.5 EUR");
}

#[test]
fn time_fields_are_read_as_leading_digits() {
    let mut iter = chars("2023-01-02 1x:30:0y USD");
    assert_eq!(read_date_time(&mut iter), Some(Ok(dt(2023, 1, 2, 1, 30, 0))));
    let mut iter = chars("2023-01-02 +1:-0:07 USD");
    assert_eq!(read_date_time(&mut iter), Some(Ok(dt(2023, 1, 2, 1, 0, 7))));
    let mut iter = chars("2023-01-02 -1:00:00 USD");
    assert_eq!(read_date_time(&mut iter), Some(Err(ParseError::ExpectedTimeOrSymbol)));
    let mut iter = chars("2023-01-02 ab:00:00 USD");
    assert_eq!(read_date_time(&mut iter), Some(Err(ParseError::ExpectedTimeOrSymbol)));
    let mut iter = chars("2023-01-02 25:00:00 USD");
    assert_eq!(read_date_time(&mut iter), Some(Err(ParseError::InvalidTime)));
}
