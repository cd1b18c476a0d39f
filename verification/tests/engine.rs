use transaction_parser::analyzer::{
    checked_settle, option_return, populate_book, profit_loss, settle, settle_all,
};
use transaction_parser::book::PositionBook;
use transaction_parser::{Commodity, Date, Lot, OptionType, Settlement};

fn day(day: u8) -> Date {
    Date { day, month: 11, year: 20 }
}

fn lot(on: u8, price: i32, quantity: i32) -> Lot {
    Lot { date: day(on), price, quantity }
}

fn stock(ticker: &str) -> Commodity {
    Commodity::Stock(String::from(ticker))
}

#[test]
fn two_buys_closed_by_one_sale() {
    let uaa = stock("UAA");
    let ledger = settle_all(&vec![
        (uaa.clone(), lot(1, 136777, 100)),
        (uaa.clone(), lot(2, 138500, 100)),
        (uaa.clone(), lot(3, 137500, -200)),
    ])
    .unwrap();
    assert_eq!(ledger.profit, -27700);
    assert_eq!(
        ledger.settlements,
        vec![
            Settlement { open: day(1), close: day(3), commodity: uaa.clone(), quantity: 100, profit: 72300 },
            Settlement { open: day(2), close: day(3), commodity: uaa.clone(), quantity: 100, profit: -100000 },
        ]
    );
    let handle = ledger.book.find(&uaa).unwrap();
    assert_eq!(ledger.book.open_lots(handle), vec![]);
    assert_eq!(ledger.book.peek_front(handle), None);
}

#[test]
fn single_buy_stays_open() {
    let uaa = stock("UAA");
    let ledger = settle_all(&vec![(uaa.clone(), lot(1, 1000, 50))]).unwrap();
    assert_eq!(ledger.profit, 0);
    assert_eq!(ledger.settlements.len(), 0);
    let handle = ledger.book.find(&uaa).unwrap();
    assert_eq!(ledger.book.open_lots(handle), vec![lot(1, 1000, 50)]);
}

#[test]
fn one_buy_closed_by_two_sales() {
    let uaa = stock("UAA");
    let transactions = vec![
        (uaa.clone(), lot(1, 1000, 100)),
        (uaa.clone(), lot(2, 1100, -40)),
        (uaa.clone(), lot(3, 900, -60)),
    ];
    let after_first_sale = settle_all(&transactions[..2].to_vec()).unwrap();
    let handle = after_first_sale.book.find(&uaa).unwrap();
    assert_eq!(after_first_sale.book.open_lots(handle), vec![lot(1, 1000, 60)]);
    assert_eq!(after_first_sale.settlements.len(), 1);

    let ledger = settle_all(&transactions).unwrap();
    assert_eq!(
        ledger.settlements,
        vec![
            Settlement { open: day(1), close: day(2), commodity: uaa.clone(), quantity: 40, profit: 4000 },
            Settlement { open: day(1), close: day(3), commodity: uaa.clone(), quantity: 60, profit: -6000 },
        ]
    );
    assert_eq!(ledger.profit, -2000);
    let handle = ledger.book.find(&uaa).unwrap();
    assert_eq!(ledger.book.open_lots(handle), vec![]);
}

#[test]
fn sale_larger_than_the_position_turns_it_short() {
    let uaa = stock("UAA");
    let ledger = settle_all(&vec![
        (uaa.clone(), lot(1, 1000, 100)),
        (uaa.clone(), lot(2, 1250, -150)),
    ])
    .unwrap();
    assert_eq!(
        ledger.settlements,
        vec![Settlement { open: day(1), close: day(2), commodity: uaa.clone(), quantity: 100, profit: 25000 }]
    );
    assert_eq!(ledger.profit, 25000);
    let handle = ledger.book.find(&uaa).unwrap();
    assert_eq!(ledger.book.open_lots(handle), vec![lot(2, 1250, -50)]);
    assert_eq!(ledger.book.peek_front(handle), Some(lot(2, 1250, -50)));
}

#[test]
fn short_position_closed_by_purchases() {
    let uaa = stock("UAA");
    let ledger = settle_all(&vec![
        (uaa.clone(), lot(1, 500, -10)),
        (uaa.clone(), lot(2, 600, -10)),
        (uaa.clone(), lot(3, 450, 15)),
    ])
    .unwrap();
    assert_eq!(
        ledger.settlements,
        vec![
            Settlement { open: day(1), close: day(3), commodity: uaa.clone(), quantity: 10, profit: 500 },
            Settlement { open: day(2), close: day(3), commodity: uaa.clone(), quantity: 5, profit: 750 },
        ]
    );
    assert_eq!(ledger.profit, 1250);
    let handle = ledger.book.find(&uaa).unwrap();
    assert_eq!(ledger.book.open_lots(handle), vec![lot(2, 600, -5)]);
}

#[test]
fn oldest_lot_is_closed_first() {
    let uaa = stock("UAA");
    let ledger = settle_all(&vec![
        (uaa.clone(), lot(1, 100, 10)),
        (uaa.clone(), lot(2, 200, 10)),
        (uaa.clone(), lot(3, 300, 10)),
        (uaa.clone(), lot(4, 250, -10)),
    ])
    .unwrap();
    assert_eq!(ledger.settlements.len(), 1);
    assert_eq!(ledger.settlements[0].open, day(1));
    assert_eq!(ledger.settlements[0].profit, 1500);
    let handle = ledger.book.find(&uaa).unwrap();
    assert_eq!(ledger.book.open_lots(handle), vec![lot(2, 200, 10), lot(3, 300, 10)]);
}

#[test]
fn instruments_do_not_meet() {
    let uaa = stock("UAA");
    let ge = stock("GE");
    let call = Commodity::Option {
        ticker: String::from("GE"),
        contract: OptionType::Call,
        strike: 65000,
        expiration: String::from("11/06/20"),
    };
    let put = Commodity::Option {
        ticker: String::from("GE"),
        contract: OptionType::Put,
        strike: 65000,
        expiration: String::from("11/06/20"),
    };
    let ledger = settle_all(&vec![
        (uaa.clone(), lot(1, 100, 10)),
        (ge.clone(), lot(2, 100, -10)),
        (call.clone(), lot(3, 100, -1)),
        (put.clone(), lot(4, 100, 1)),
        (call.clone(), lot(5, 40, 1)),
    ])
    .unwrap();
    assert_eq!(
        ledger.settlements,
        vec![Settlement { open: day(3), close: day(5), commodity: call.clone(), quantity: 1, profit: 60 }]
    );
    assert_eq!(ledger.book.len(), 4);
    assert_eq!(ledger.book.open_lots(ledger.book.find(&uaa).unwrap()), vec![lot(1, 100, 10)]);
    assert_eq!(ledger.book.open_lots(ledger.book.find(&ge).unwrap()), vec![lot(2, 100, -10)]);
    assert_eq!(ledger.book.open_lots(ledger.book.find(&call).unwrap()), vec![]);
    assert_eq!(ledger.book.open_lots(ledger.book.find(&put).unwrap()), vec![lot(4, 100, 1)]);
}

#[test]
fn empty_lot_is_neither_matched_nor_queued() {
    let uaa = stock("UAA");
    let ledger = settle_all(&vec![
        (uaa.clone(), lot(1, 100, 10)),
        (uaa.clone(), lot(2, 500, 0)),
    ])
    .unwrap();
    assert_eq!(ledger.settlements.len(), 0);
    assert_eq!(ledger.book.open_lots(ledger.book.find(&uaa).unwrap()), vec![lot(1, 100, 10)]);
    let only_empty = settle_all(&vec![(uaa.clone(), lot(2, 500, 0))]).unwrap();
    assert_eq!(only_empty.settlements.len(), 0);
    assert_eq!(only_empty.book.open_lots(only_empty.book.find(&uaa).unwrap()), vec![]);
}

#[test]
fn used_up_lot_does_not_come_back() {
    let uaa = stock("UAA");
    let ledger = settle_all(&vec![
        (uaa.clone(), lot(1, 100, 10)),
        (uaa.clone(), lot(2, 110, -10)),
        (uaa.clone(), lot(3, 120, 5)),
        (uaa.clone(), lot(4, 130, -5)),
        (uaa.clone(), lot(5, 140, -7)),
    ])
    .unwrap();
    assert_eq!(ledger.settlements.len(), 2);
    assert_eq!(ledger.settlements[1].open, day(3));
    assert_eq!(ledger.book.open_lots(ledger.book.find(&uaa).unwrap()), vec![lot(5, 140, -7)]);
}

#[test]
fn empty_ledger() {
    let ledger = settle_all(&vec![]).unwrap();
    assert_eq!(ledger.profit, 0);
    assert_eq!(ledger.settlements.len(), 0);
    assert_eq!(ledger.book.len(), 0);
    assert_eq!(profit_loss(vec![]), (0, vec![]));
}

#[test]
fn profit_that_cannot_be_written_down() {
    let uaa = stock("UAA");
    assert!(settle_all(&vec![
        (uaa.clone(), lot(1, 0, 1_000_000)),
        (uaa.clone(), lot(2, 1_000_000, -1_000_000)),
    ])
    .is_none());
    let total_too_large = vec![
        (uaa.clone(), lot(1, 0, 2)),
        (uaa.clone(), lot(2, i32::MAX, -1)),
        (uaa.clone(), lot(3, i32::MAX, -1)),
    ];
    assert!(settle_all(&total_too_large).is_none());
    let back_in_range = vec![
        (uaa.clone(), lot(1, 0, 3)),
        (uaa.clone(), lot(2, i32::MAX, -1)),
        (uaa.clone(), lot(3, i32::MAX, -1)),
        (uaa.clone(), lot(4, -i32::MAX, -1)),
    ];
    assert_eq!(settle_all(&back_in_range).unwrap().profit, i32::MAX);
}

#[test]
fn match_step_moves_both_lots_towards_zero() {
    let mut buy = lot(1, 136777, 100);
    let mut sell = lot(3, 137500, -200);
    assert_eq!(settle(&mut buy, &mut sell), (72300, 100));
    assert_eq!(buy, lot(1, 136777, 0));
    assert_eq!(sell, lot(3, 137500, -100));

    let mut sell = lot(1, 500, -30);
    let mut buy = lot(2, 450, 100);
    assert_eq!(settle(&mut sell, &mut buy), (1500, 30));
    assert_eq!(sell.quantity, 0);
    assert_eq!(buy.quantity, 70);
}

#[test]
fn match_step_conserves_quantity_and_is_symmetric() {
    let cases = [(100, -200), (-200, 100), (5, -5), (-1, 7), (i32::MAX, i32::MIN), (0, -4), (3, 0)];
    for (a, b) in cases {
        let mut first = lot(1, 10, a);
        let mut second = lot(2, 11, b);
        let (profit, quantity) = settle(&mut first, &mut second);
        assert_eq!(first.quantity as i64 + second.quantity as i64, a as i64 + b as i64);
        assert_eq!(quantity as i64, (a as i64).abs().min((b as i64).abs()));
        let mut first = lot(1, 10, a);
        let mut second = lot(2, 11, b);
        assert_eq!(settle(&mut second, &mut first), (profit, quantity));
    }
}

#[test]
fn checked_match_step() {
    let mut buy = lot(1, 10, 5);
    let mut other_buy = lot(2, 11, 7);
    assert_eq!(checked_settle(&mut buy, &mut other_buy), None);
    assert_eq!((buy, other_buy), (lot(1, 10, 5), lot(2, 11, 7)));

    let mut sell = lot(1, 10, -5);
    let mut other_sell = lot(2, 11, -7);
    assert_eq!(checked_settle(&mut sell, &mut other_sell), None);

    let mut buy = lot(1, 0, 1_000_000);
    let mut sell = lot(2, 1_000_000, -1_000_000);
    assert_eq!(checked_settle(&mut buy, &mut sell), None);
    assert_eq!((buy, sell), (lot(1, 0, 1_000_000), lot(2, 1_000_000, -1_000_000)));

    let mut buy = lot(1, i32::MIN, 1);
    let mut sell = lot(2, -1, -1);
    assert_eq!(checked_settle(&mut buy, &mut sell), Some((i32::MAX, 1)));

    let mut buy = lot(1, 10, 5);
    let mut sell = lot(2, 12, -7);
    assert_eq!(checked_settle(&mut buy, &mut sell), Some((10, 5)));
    assert_eq!((buy.quantity, sell.quantity), (0, -2));
}

#[test]
fn position_book_queues() {
    let uaa = stock("UAA");
    let ge = stock("GE");
    let mut book = PositionBook::new();
    assert_eq!(book.len(), 0);
    assert_eq!(book.find(&uaa), None);
    let first = book.get_or_create_queue(&uaa);
    let second = book.get_or_create_queue(&ge);
    assert_ne!(first, second);
    assert_eq!(book.get_or_create_queue(&uaa), first);
    assert_eq!(book.find(&ge), Some(second));
    assert_eq!(book.len(), 2);
    assert_eq!(book.peek_front(first), None);

    book.push_back(first, lot(1, 10, 5));
    book.push_back(first, lot(2, 11, 6));
    book.push_back(second, lot(3, 12, -1));
    assert_eq!(book.peek_front(first), Some(lot(1, 10, 5)));
    assert_eq!(book.open_lots(first), vec![lot(1, 10, 5), lot(2, 11, 6)]);

    book.set_front(first, lot(1, 10, 2));
    assert_eq!(book.open_lots(first), vec![lot(1, 10, 2), lot(2, 11, 6)]);
    book.remove_front(first);
    assert_eq!(book.open_lots(first), vec![lot(2, 11, 6)]);
    assert_eq!(book.open_lots(second), vec![lot(3, 12, -1)]);
    book.remove_front(first);
    assert_eq!(book.peek_front(first), None);
    assert_eq!(book.find(&uaa), Some(first));
}

#[test]
fn lots_grouped_by_instrument() {
    let uaa = stock("UAA");
    let ge = stock("GE");
    let book = populate_book(&vec![
        (uaa.clone(), lot(1, 100, 10)),
        (ge.clone(), lot(2, 100, -10)),
        (uaa.clone(), lot(3, 110, -10)),
        (uaa.clone(), lot(4, 120, 0)),
    ]);
    assert_eq!(
        book,
        vec![
            (uaa.clone(), vec![lot(1, 100, 10), lot(3, 110, -10), lot(4, 120, 0)]),
            (ge.clone(), vec![lot(2, 100, -10)]),
        ]
    );
    assert_eq!(populate_book(&vec![]), vec![]);
}

#[test]
fn options_parted_by_kind() {
    let uaa = stock("UAA");
    let call = Commodity::Option {
        ticker: String::from("GE"),
        contract: OptionType::Call,
        strike: 65000,
        expiration: String::from("11/06/20"),
    };
    let put = Commodity::Option {
        ticker: String::from("GE"),
        contract: OptionType::Put,
        strike: 65000,
        expiration: String::from("11/06/20"),
    };
    let (calls, puts) = option_return(vec![
        (call.clone(), lot(1, 100, -1)),
        (uaa.clone(), lot(2, 100, 10)),
        (put.clone(), lot(3, 100, 1)),
        (call.clone(), lot(4, 40, 1)),
    ]);
    assert_eq!(calls, vec![(call.clone(), lot(1, 100, -1)), (call.clone(), lot(4, 40, 1))]);
    assert_eq!(puts, vec![(put.clone(), lot(3, 100, 1))]);
    assert_eq!(option_return(vec![(uaa.clone(), lot(2, 100, 10))]), (vec![], vec![]));
}
