use flexi_tools::bagg::{format_price, parse_price, read_items, Item, ItemError, PriceFormat};
use flexi_tools::bagg_cmd::{
    all_sorted, find_item, list_rows, new_item, parse_priority_arg, resolve as resolve_bagg,
    AddError as BaggAddError, ConfigError as BaggConfigError, FindError, RawConfig as BaggRaw,
};
use flexi_tools::lines::{file_text, read_lines, remove_line, replace_line};

fn fmt() -> PriceFormat {
    PriceFormat { separator: '.', places: 2 }
}

fn words(ws: &[&str]) -> Vec<String> {
    ws.iter().map(|w| w.to_string()).collect()
}

#[test]
fn price_formats_with_separator_and_places() {
    assert_eq!(format_price(1299, fmt()), "12.99");
    assert_eq!(format_price(5, PriceFormat { separator: ',', places: 2 }), "0,05");
    assert_eq!(format_price(42, PriceFormat { separator: '.', places: 0 }), "42");
    assert_eq!(format_price(1500, PriceFormat { separator: '.', places: 3 }), "1.500");
}

#[test]
fn price_parse_rejects_non_numbers() {
    assert_eq!(parse_price("12.99", fmt()), Some(1299));
    assert_eq!(parse_price("7", fmt()), None);
    assert_eq!(parse_price("abc", fmt()), None);
    assert_eq!(parse_price("1.234", fmt()), None);
}

#[test]
fn item_line_reads_back_as_written() {
    let it = Item::parse("x (A) 3.50 Milk x2", fmt()).unwrap();
    assert!(it.got);
    assert_eq!(it.priority, Some('A'));
    assert_eq!(it.price, Some(350));
    assert_eq!(it.qty, 2);
    assert_eq!(it.name, "Milk");
    let line = it.to_line(fmt(), false);
    assert_eq!(line, "x (A) 3.50 Milk x2");
    let back = Item::parse(&line, fmt()).unwrap();
    assert_eq!(
        (back.got, back.priority, back.price, back.qty, back.name.clone()),
        (it.got, it.priority, it.price, it.qty, it.name.clone())
    );
}

#[test]
fn item_blank_line_is_refused() {
    assert!(matches!(Item::parse("   ", fmt()), Err(ItemError::EmptyLine)));
    assert!(matches!(Item::parse("x (B)", fmt()), Err(ItemError::MissingName(l)) if l == "x (B)"));
}

#[test]
fn read_items_stops_at_first_bad_line() {
    let r = read_items("Milk\n\n(C)\nEggs\n", fmt());
    assert!(matches!(r, Err(ItemError::MissingName(l)) if l == "(C)"));
    let ok = read_items("Milk\n\nEggs\n", fmt()).unwrap();
    assert_eq!(ok.len(), 2);
}

#[test]
fn bagg_config_defaults_and_errors() {
    let raw = || BaggRaw {
        path: None,
        decimal_separator: None,
        decimal_places: None,
        always_show_unspecified_price: None,
    };
    let c = resolve_bagg(raw(), Some("/data/list.txt".to_string())).unwrap();
    assert_eq!(c.path, "/data/list.txt");
    assert_eq!(c.decimal_separator, '.');
    assert_eq!(c.decimal_places, 2);
    assert!(!c.always_show_unspecified_price);
    assert_eq!(c.price_format(), fmt());
    assert_eq!(resolve_bagg(raw(), None).err(), Some(BaggConfigError::NoDataDir));
    let mut r = raw();
    r.decimal_separator = Some('a');
    assert_eq!(resolve_bagg(r, Some("p".to_string())).err(), Some(BaggConfigError::InvalidSeparator('a')));
    let mut r = raw();
    r.decimal_separator = Some('?');
    assert_eq!(resolve_bagg(r, Some("p".to_string())).err(), Some(BaggConfigError::InvalidSeparator('?')));
    let mut r = raw();
    r.decimal_places = Some(10);
    assert_eq!(resolve_bagg(r, Some("p".to_string())).err(), Some(BaggConfigError::InvalidPlaces(10)));
}

#[test]
fn sorted_list_numbers_items_by_status_priority_price() {
    let content = "x Bread\n3.00 Eggs\n(A) Milk\n1.00 Jam\n";
    let v = all_sorted(content, fmt()).unwrap();
    let names: Vec<&str> = v.iter().map(|i| i.name.as_str()).collect();
    assert_eq!(names, vec!["Milk", "Jam", "Eggs", "Bread"]);
    let it = find_item(content, fmt(), 2).unwrap();
    assert_eq!(it.name, "Jam");
    assert_eq!(it.raw, "1.00 Jam");
    assert!(matches!(find_item(content, fmt(), 5), Err(FindError::NoItem(5))));
    assert!(matches!(find_item(content, fmt(), 0), Err(FindError::NoItem(0))));
    assert!(matches!(find_item("(A)\n", fmt(), 1), Err(FindError::Read(ItemError::MissingName(_)))));
}

#[test]
fn list_rows_filter_and_keep_numbers() {
    let content = "x Bread +bakery\n(A) Milk\n1.00 Jam\n";
    let v = all_sorted(content, fmt()).unwrap();
    let rows = list_rows(&v, true, false, &[], fmt(), false);
    let shown: Vec<(usize, &str)> = rows.iter().map(|r| (r.number, r.line.as_str())).collect();
    assert_eq!(shown, vec![(1, "(A) Milk"), (2, "1.00 Jam")]);
    let rows = list_rows(&v, false, true, &[], fmt(), false);
    assert_eq!(rows.len(), 1);
    assert_eq!(rows[0].number, 3);
    assert!(rows[0].got);
    let rows = list_rows(&v, false, false, &["+bakery".to_string()], fmt(), false);
    assert_eq!(rows.len(), 1);
    assert_eq!(rows[0].line, "x Bread +bakery");
    let rows = list_rows(&v, false, false, &[], fmt(), true);
    assert_eq!(rows[0].line, "(A) ? Milk");
}

#[test]
fn new_item_joins_words_and_refuses_blank_or_broken_names() {
    let it = new_item(&words(&["Oat", "milk"]), Some(250), Some(3), Some('B')).unwrap();
    assert_eq!(it.name, "Oat milk");
    assert!(!it.got);
    assert_eq!(it.qty, 3);
    assert_eq!(it.to_line(fmt(), false), "(B) 2.50 Oat milk x3");
    let plain = new_item(&words(&["Tea"]), None, None, None).unwrap();
    assert_eq!(plain.qty, 1);
    assert_eq!(new_item(&words(&["  "]), None, None, None).err(), Some(BaggAddError::NoName));
    assert_eq!(new_item(&words(&["a\nb"]), None, None, None).err(), Some(BaggAddError::Newline));
}

#[test]
fn price_argument_accepts_unspecified_marker() {
    assert_eq!(flexi_tools::bagg_cmd::parse_price_arg("?", fmt()), Some(None));
    assert_eq!(flexi_tools::bagg_cmd::parse_price_arg("1.50", fmt()), Some(Some(150)));
    assert_eq!(flexi_tools::bagg_cmd::parse_price_arg("twelve", fmt()), None);
}

#[test]
fn priority_argument_is_one_capital_letter() {
    assert_eq!(parse_priority_arg("C"), Some('C'));
    assert_eq!(parse_priority_arg("c"), None);
    assert_eq!(parse_priority_arg("AB"), None);
}

#[test]
fn line_file_rewrites_read_back() {
    let content = "one\n\n  \ntwo\nthree\n";
    assert_eq!(read_lines(content), vec!["one", "two", "three"]);
    let removed = remove_line(content, "two");
    assert_eq!(removed, "one\nthree\n");
    assert_eq!(read_lines(&removed), vec!["one", "three"]);
    let replaced = replace_line(content, "three", "3");
    assert_eq!(replaced, "one\ntwo\n3\n");
    assert_eq!(read_lines(&replaced), vec!["one", "two", "3"]);
    assert_eq!(remove_line(content, "absent"), "one\ntwo\nthree\n");
    assert_eq!(file_text(&Vec::new()), "");
    assert_eq!(read_lines(&file_text(&words(&["a", "b"]))), vec!["a", "b"]);
}
