use transaction_parser::parser::{
    date_parse, lines, parse_ledger, parse_line, price_parse, unit_price, ParseError,
};
use transaction_parser::text::{chars_of, parse_i32, parse_u8, same_text, split};
use transaction_parser::{Commodity, Date, OptionType};

fn type_commodity(com: &Commodity) -> &str {
    match com {
        Commodity::Option { ticker: _, contract: _, strike: _, expiration: _ } => "option",
        Commodity::Stock(_) => "stock",
    }
}

#[test]
fn check_type_utility() {
    let stock = Commodity::Stock(String::from("UAA"));
    assert_eq!(type_commodity(&stock), "stock");

    let option = Commodity::Option {
        ticker: String::from("UAA"),
        contract: OptionType::Call,
        strike: 183,
        expiration: String::from("10/30/20"),
    };
    assert_eq!(type_commodity(&option), "option");
}

#[test]
fn parse_stock() {
    let stock_example = String::from(r"1,10/29/20,UAA,1367.77,100,,,");
    let (commodity, lot) = parse_line(&stock_example).unwrap();
    assert_eq!(type_commodity(&commodity), "stock");
    if let Commodity::Stock(t) = commodity {
        assert_eq!(t, "UAA");
    } else {
        panic!("ticker not read correctly");
    }
    assert_eq!(lot.quantity, 100);
    assert_eq!(lot.price, 136777);
    assert_eq!(lot.date, Date { day: 29, month: 10, year: 20 });
}

#[test]
fn parse_option() {
    let option_example = String::from(r"9,10/30/20,GE,90,-1,6.5,call,11/06/20");
    let (commodity, lot) = parse_line(&option_example).unwrap();
    assert_eq!(type_commodity(&commodity), "option");
    if let Commodity::Option { ticker: t, contract: c, strike: s, expiration: e } = commodity {
        assert_eq!(t, "GE");
        assert_eq!(c, OptionType::Call);
        assert_eq!(s, 65000);
        assert_eq!(e, "11/06/20");
    } else {
        panic!("commodity not read correctly");
    }
    assert_eq!(lot.quantity, -1);
    assert_eq!(lot.price, 900000);
    assert_eq!(lot.date, Date { day: 30, month: 10, year: 20 });
}

#[test]
fn parse_put_option() {
    let (commodity, lot) = parse_line("3,01/02/21,F,12.5,-2,9,put,02/19/21").unwrap();
    assert_eq!(
        commodity,
        Commodity::Option {
            ticker: String::from("F"),
            contract: OptionType::Put,
            strike: 90000,
            expiration: String::from("02/19/21"),
        }
    );
    assert_eq!(lot.price, 62500);
    assert_eq!(lot.quantity, -2);
}

#[test]
fn contract_other_than_call_is_put() {
    let (commodity, _lot) = parse_line("3,01/02/21,F,12.5,-2,9,Call,02/19/21").unwrap();
    match commodity {
        Commodity::Option { contract, .. } => assert_eq!(contract, OptionType::Put),
        Commodity::Stock(_) => panic!("an option was expected"),
    }
}

#[test]
fn split_keeps_empty_fields() {
    assert_eq!(split("1,10/29/20,UAA,1367.77,100,,,", ','), vec!["1", "10/29/20", "UAA", "1367.77", "100", "", "", ""]);
    assert_eq!(split("", ','), vec![""]);
    assert_eq!(split(",", ','), vec!["", ""]);
    assert_eq!(split("abc", ','), vec!["abc"]);
    assert_eq!(split("a,,b", ','), vec!["a", "", "b"]);
    assert_eq!(split("é,ü", ','), vec!["é", "ü"]);
}

#[test]
fn decimal_numbers() {
    assert_eq!(parse_i32("0"), Some(0));
    assert_eq!(parse_i32("100"), Some(100));
    assert_eq!(parse_i32("-1"), Some(-1));
    assert_eq!(parse_i32("+17"), Some(17));
    assert_eq!(parse_i32("007"), Some(7));
    assert_eq!(parse_i32("2147483647"), Some(2147483647));
    assert_eq!(parse_i32("-2147483648"), Some(-2147483648));
    assert_eq!(parse_i32("2147483648"), None);
    assert_eq!(parse_i32("-2147483649"), None);
    assert_eq!(parse_i32("99999999999999999999999"), None);
    assert_eq!(parse_i32(""), None);
    assert_eq!(parse_i32("-"), None);
    assert_eq!(parse_i32("+"), None);
    assert_eq!(parse_i32("1-"), None);
    assert_eq!(parse_i32("--1"), None);
    assert_eq!(parse_i32("12a"), None);
    assert_eq!(parse_i32(" 1"), None);
    assert_eq!(parse_u8("0"), Some(0));
    assert_eq!(parse_u8("255"), Some(255));
    assert_eq!(parse_u8("+9"), Some(9));
    assert_eq!(parse_u8("256"), None);
    assert_eq!(parse_u8("-1"), None);
    assert_eq!(parse_u8("-0"), None);
    assert_eq!(parse_u8(""), None);
}

#[test]
fn decimal_numbers_agree_with_std() {
    let samples = ["0", "5", "-5", "+5", "", "-", "+", "12x", "300", "-129", "2147483647", "2147483648", "0000", "+-1", "1 "];
    for sample in samples {
        assert_eq!(parse_i32(sample), sample.parse::<i32>().ok());
        assert_eq!(parse_u8(sample), sample.parse::<u8>().ok());
    }
}

#[test]
fn same_text_compares_characters() {
    assert!(same_text("call", "call"));
    assert!(same_text("", ""));
    assert!(!same_text("call", "Call"));
    assert!(!same_text("call", "cal"));
    assert!(!same_text("cal", "call"));
}

#[test]
fn dates() {
    assert_eq!(date_parse("10/29/20"), Some(Date { month: 10, day: 29, year: 20 }));
    assert_eq!(date_parse("1/2/3/4"), Some(Date { month: 1, day: 2, year: 3 }));
    assert_eq!(date_parse("10/29"), None);
    assert_eq!(date_parse("10/29/2020"), None);
    assert_eq!(date_parse("10//20"), None);
    assert_eq!(date_parse(""), None);
}

#[test]
fn prices() {
    assert_eq!(price_parse("1367.77"), Some(13677700));
    assert_eq!(price_parse("90"), Some(900000));
    assert_eq!(price_parse("6.5"), Some(65000));
    assert_eq!(price_parse("6.05"), Some(60500));
    assert_eq!(price_parse("6.50"), Some(65000));
    assert_eq!(price_parse("0.123"), Some(12300));
    assert_eq!(price_parse("1.2.3"), Some(12000));
    assert_eq!(price_parse("-3.5"), Some(-25000));
    assert_eq!(price_parse("214748.36"), Some(2147483600));
    assert_eq!(price_parse("214748.37"), None);
    assert_eq!(price_parse("214749"), None);
    assert_eq!(price_parse("-214748.-36"), Some(-2147483600));
    assert_eq!(price_parse("6."), None);
    assert_eq!(price_parse(".5"), None);
    assert_eq!(price_parse(""), None);
    assert_eq!(price_parse("six"), None);
}

#[test]
fn unit_prices_round_towards_zero() {
    assert_eq!(unit_price(13677700, 100), 136777);
    assert_eq!(unit_price(900000, -1), 900000);
    assert_eq!(unit_price(10, 3), 3);
    assert_eq!(unit_price(-10, 3), -3);
    assert_eq!(unit_price(-10, -3), -3);
    assert_eq!(unit_price(2, 3), 0);
    assert_eq!(unit_price(i32::MIN, 1), i32::MIN);
    assert_eq!(unit_price(i32::MIN, i32::MAX), -1);
}

#[test]
fn rejected_lines() {
    assert_eq!(parse_line(""), Err(ParseError::Fields));
    assert_eq!(parse_line("1,10/29/20,UAA,1367.77,100,"), Err(ParseError::Fields));
    assert_eq!(parse_line("9,10/30/20,GE,90,-1,6.5,call"), Err(ParseError::Fields));
    assert_eq!(parse_line("1,10-29-20,UAA,1367.77,100,,,"), Err(ParseError::Date));
    assert_eq!(parse_line("1,10/29/20,UAA,lots,100,,,"), Err(ParseError::Price));
    assert_eq!(parse_line("1,10/29/20,UAA,1367.77,many,,,"), Err(ParseError::Quantity));
    assert_eq!(parse_line("1,10/29/20,UAA,1367.77,0,,,"), Err(ParseError::Quantity));
    assert_eq!(parse_line("1,10/29/20,UAA,1367.77,-2147483648,,,"), Err(ParseError::Quantity));
    assert_eq!(parse_line("9,10/30/20,GE,90,-1,high,call,11/06/20"), Err(ParseError::Strike));
}

#[test]
fn short_stock_line_of_seven_fields() {
    let (commodity, lot) = parse_line("1,10/29/20,UAA,1367.77,100,,").unwrap();
    assert_eq!(commodity, Commodity::Stock(String::from("UAA")));
    assert_eq!(lot.price, 136777);
}

#[test]
fn negative_strike_wraps() {
    let (commodity, _lot) = parse_line("9,10/30/20,GE,90,-1,-1,call,11/06/20").unwrap();
    match commodity {
        Commodity::Option { strike, .. } => assert_eq!(strike, (-10000i32) as u32),
        Commodity::Stock(_) => panic!("an option was expected"),
    }
}

#[test]
fn lines_of_a_text() {
    assert_eq!(lines(""), Vec::<&str>::new());
    assert_eq!(lines("a"), vec!["a"]);
    assert_eq!(lines("a\n"), vec!["a"]);
    assert_eq!(lines("a\nb"), vec!["a", "b"]);
    assert_eq!(lines("a\r\nb\r\n"), vec!["a", "b"]);
    assert_eq!(lines("a\n\nb"), vec!["a", "", "b"]);
    assert_eq!(lines("\n"), vec![""]);
    assert_eq!(lines("a\r"), vec!["a\r"]);
    assert_eq!(lines("a\r\r\n"), vec!["a\r"]);
    for sample in ["", "a", "a\n", "a\nb", "a\r\nb\r\n", "a\n\nb", "\n", "a\r", "\r\n\r\n", "x\ny\n\n"] {
        assert_eq!(lines(sample), sample.lines().collect::<Vec<&str>>());
    }
}

#[test]
fn ledgers() {
    let text = "1,10/29/20,UAA,1367.77,100,,,\n9,10/30/20,GE,90,-1,6.5,call,11/06/20\n";
    let transactions = parse_ledger(text).unwrap();
    assert_eq!(transactions.len(), 2);
    assert_eq!(transactions[0].0, Commodity::Stock(String::from("UAA")));
    assert_eq!(transactions[0].1.price, 136777);
    assert_eq!(transactions[1].1.quantity, -1);
    assert_eq!(parse_ledger("").unwrap().len(), 0);
    assert_eq!(
        parse_ledger("1,10/29/20,UAA,1367.77,100,,,\n\n9,10/30/20,GE,90,-1,6.5,call,11/06/20"),
        Err(ParseError::Fields)
    );
    assert_eq!(
        parse_ledger("1,10/29/20,UAA,x,100,,,\n1,10-29-20,UAA,1367.77,100,,,"),
        Err(ParseError::Price)
    );
}

#[test]
fn characters_of_a_string() {
    assert_eq!(chars_of(""), Vec::<char>::new());
    assert_eq!(chars_of("aé,"), vec!['a', 'é', ',']);
}
