use flexi_tools::bagg::{Item, PriceFormat};

fn item(line: &str) -> Item {
    Item::parse(line, PriceFormat::default()).unwrap()
}

fn line(i: &Item) -> String {
    i.to_line(PriceFormat::default(), false)
}

#[test]
fn parse_bare_name() {
    let i = item("Eggs");
    assert!(!i.got);
    assert_eq!(i.priority, None);
    assert_eq!(i.price, None);
    assert_eq!(i.qty, 1);
    assert_eq!(i.name, "Eggs");
}

#[test]
fn parse_all_fields() {
    let i = item("x (A) 12.99 Widget thing x2");
    assert!(i.got);
    assert_eq!(i.priority, Some('A'));
    assert_eq!(i.price, Some(1299));
    assert_eq!(i.qty, 2);
    assert_eq!(i.name, "Widget thing");
}

#[test]
fn parse_priority_only() {
    let i = item("(B) Cheap thing, price unknown");
    assert_eq!(i.priority, Some('B'));
    assert_eq!(i.price, None);
    assert_eq!(i.name, "Cheap thing, price unknown");
}

#[test]
fn parse_price_no_qty() {
    let i = item("5.00 Coffee");
    assert_eq!(i.price, Some(500));
    assert_eq!(i.qty, 1);
    assert_eq!(i.name, "Coffee");
}

#[test]
fn parse_got_only() {
    let i = item("x Got already");
    assert!(i.got);
    assert_eq!(i.name, "Got already");
}

#[test]
fn parse_rejects_empty_name() {
    assert!(Item::parse("x (A) 12.99 x2", PriceFormat::default()).is_err());
    assert!(Item::parse("", PriceFormat::default()).is_err());
}

#[test]
fn to_line_omits_qty_when_one() {
    let i = Item { got: false, priority: None, price: None, qty: 1, name: "Eggs".to_string(), raw: String::new() };
    assert_eq!(line(&i), "Eggs");
}

#[test]
fn to_line_round_trips() {
    for l in [
        "Eggs",
        "x Got already",
        "(B) Cheap thing, price unknown",
        "5.00 Coffee",
        "x (A) 12.99 Widget thing x2",
    ] {
        assert_eq!(line(&item(l)), l);
    }
}

#[test]
fn known_edge_cases_documented_not_panicking() {
    let i = item("12.99 discount voucher");
    assert_eq!(i.price, Some(1299));
    assert_eq!(i.name, "discount voucher");

    let i = item("1.99 and the Psychology of Pricing");
    assert_eq!(i.price, Some(199));
    assert_eq!(i.name, "and the Psychology of Pricing");

    let i = item("Model x3");
    assert_eq!(i.qty, 3);
    assert_eq!(i.name, "Model");
}

#[test]
fn sort_key_orders_status_then_priority_then_price() {
    let not_got = item("Eggs");
    let got = item("x Eggs");
    assert!(not_got.sort_key() < got.sort_key());

    let high_pri = item("(A) Eggs");
    let low_pri = item("(B) Eggs");
    let no_pri = item("Eggs");
    assert!(high_pri.sort_key() < low_pri.sort_key());
    assert!(low_pri.sort_key() < no_pri.sort_key());

    let cheap = item("1.00 Eggs");
    let pricey = item("5.00 Eggs");
    let unpriced = item("Eggs");
    assert!(cheap.sort_key() < pricey.sort_key());
    assert!(pricey.sort_key() < unpriced.sort_key());
}

#[test]
fn comma_decimal_separator() {
    let fmt = PriceFormat { separator: ',', places: 2 };
    let i = Item::parse("12,99 Widget", fmt).unwrap();
    assert_eq!(i.price, Some(1299));
    assert_eq!(i.name, "Widget");
    assert_eq!(i.to_line(fmt, false), "12,99 Widget");
    assert_eq!(Item::parse("12.99 Widget", fmt).unwrap().price, None);
}

#[test]
fn zero_decimal_places() {
    let fmt = PriceFormat { separator: '.', places: 0 };
    let i = Item::parse("1500 Yen item", fmt).unwrap();
    assert_eq!(i.price, Some(1500));
    assert_eq!(i.name, "Yen item");
    assert_eq!(i.to_line(fmt, false), "1500 Yen item");
}

#[test]
fn three_decimal_places() {
    let fmt = PriceFormat { separator: '.', places: 3 };
    let i = Item::parse("12.500 Dinar item", fmt).unwrap();
    assert_eq!(i.price, Some(12500));
    assert_eq!(i.to_line(fmt, false), "12.500 Dinar item");
}

#[test]
fn unspecified_price_placeholder_parses_as_no_price() {
    let i = item("? Eggs");
    assert_eq!(i.price, None);
    assert_eq!(i.name, "Eggs");

    let fmt0 = PriceFormat { separator: '.', places: 0 };
    assert_eq!(Item::parse("? Eggs", fmt0).unwrap().price, None);
}

#[test]
fn known_edge_case_name_starting_with_placeholder_char() {
    let i = item("? Kidding, no idea what to get");
    assert_eq!(i.price, None);
    assert_eq!(i.name, "Kidding, no idea what to get");
}

#[test]
fn price_present_disambiguates_digit_leading_name() {
    let fmt = PriceFormat { separator: '.', places: 0 };
    let i = Item::parse("1500 4 slice toaster", fmt).unwrap();
    assert_eq!(i.price, Some(1500));
    assert_eq!(i.name, "4 slice toaster");
}

#[test]
fn to_line_auto_emits_placeholder_when_name_would_collide() {
    let fmt = PriceFormat { separator: '.', places: 0 };
    let i = Item { got: false, priority: None, price: None, qty: 1, name: "4 slice toaster".to_string(), raw: String::new() };
    let rendered = i.to_line(fmt, false);
    assert_eq!(rendered, "? 4 slice toaster");
    assert_eq!(Item::parse(&rendered, fmt).unwrap().name, "4 slice toaster");
}

#[test]
fn to_line_omits_placeholder_when_no_collision() {
    let i = Item { got: false, priority: None, price: None, qty: 1, name: "Eggs".to_string(), raw: String::new() };
    assert_eq!(i.to_line(PriceFormat::default(), false), "Eggs");
    let fmt0 = PriceFormat { separator: '.', places: 0 };
    assert_eq!(i.to_line(fmt0, false), "Eggs");
}

#[test]
fn always_show_unspecified_price_forces_placeholder() {
    let i = Item { got: false, priority: None, price: None, qty: 1, name: "Eggs".to_string(), raw: String::new() };
    assert_eq!(i.to_line(PriceFormat::default(), true), "? Eggs");

    let fmt0 = PriceFormat { separator: '.', places: 0 };
    assert_eq!(i.to_line(fmt0, true), "? Eggs");
}
