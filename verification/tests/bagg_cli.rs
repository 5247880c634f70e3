//! The bagg command-line scenarios, run through the library on a list file
//! held in memory.
use flexi_tools::bagg::PriceFormat;
use flexi_tools::bagg_cmd::{all_sorted, find_item, list_rows, new_item, parse_price_arg, parse_priority_arg};
use flexi_tools::lines::{remove_line, replace_line};

fn two_places() -> PriceFormat {
    PriceFormat { separator: '.', places: 2 }
}

fn bagg_add(file: &mut String, words: &[&str], price: Option<&str>, qty: Option<u32>, priority: Option<&str>) -> bool {
    let price = match price {
        Some(p) => match parse_price_arg(p, two_places()) {
            Some(v) => v,
            None => return false,
        },
        None => None,
    };
    let priority = match priority {
        Some(p) => match parse_priority_arg(p) {
            Some(c) => Some(c),
            None => return false,
        },
        None => None,
    };
    let name: Vec<String> = words.iter().map(|w| w.to_string()).collect();
    match new_item(&name, price, qty, priority) {
        Ok(it) => {
            file.push_str(&it.to_line(two_places(), false));
            file.push('\n');
            true
        }
        Err(_) => false,
    }
}

fn bagg_got(file: &mut String, index: usize) {
    let mut it = find_item(file, two_places(), index).unwrap();
    let old = it.raw.clone();
    it.got = !it.got;
    *file = replace_line(file, &old, &it.to_line(two_places(), false));
}

fn bagg_rm(file: &mut String, index: usize) {
    let it = find_item(file, two_places(), index).unwrap();
    *file = remove_line(file, &it.raw);
}

fn bagg_list(file: &str, pending: bool, got: bool, tags: &[&str]) -> String {
    let items = all_sorted(file, two_places()).unwrap();
    let width = items.len().to_string().len();
    let queries: Vec<String> = tags.iter().map(|t| t.to_string()).collect();
    list_rows(&items, pending, got, &queries, two_places(), false)
        .iter()
        .map(|r| format!("{:>width$}  {}\n", r.number, r.line, width = width))
        .collect()
}

#[test]
fn cli_add_writes_canonical_lines() {
    let mut file = String::new();
    assert!(bagg_add(&mut file, &["Eggs"], None, None, None));
    assert!(bagg_add(&mut file, &["Widget", "thing"], Some("12.99"), Some(2), Some("A")));
    assert!(file.contains("Eggs"), "{file}");
    assert!(file.contains("(A) 12.99 Widget thing x2"), "{file}");
}

#[test]
fn add_rejects_bad_price_and_priority() {
    let mut file = String::new();
    assert!(!bagg_add(&mut file, &["Eggs"], Some("twelve"), None, None));
    assert!(!bagg_add(&mut file, &["Eggs"], None, None, Some("1")));
    assert!(file.is_empty());
}

#[test]
fn list_sorts_by_status_then_priority_then_price() {
    let mut file = String::new();
    bagg_add(&mut file, &["Cheap"], Some("5.00"), None, None);
    bagg_add(&mut file, &["Priority", "item"], None, None, Some("A"));
    bagg_add(&mut file, &["Plain"], None, None, None);
    let listing = bagg_list(&file, false, false, &[]);
    let pos = |s: &str| listing.find(s).unwrap();
    assert!(pos("Priority item") < pos("Cheap"));
    assert!(pos("Cheap") < pos("Plain"));
}

#[test]
fn got_toggles_status_in_place() {
    let mut file = String::new();
    bagg_add(&mut file, &["Eggs"], None, None, None);
    bagg_got(&mut file, 1);
    assert!(file.contains("x Eggs"));
    bagg_got(&mut file, 1);
    assert_eq!(file.trim(), "Eggs");
}

#[test]
fn cli_rm_removes_by_list_index() {
    let mut file = String::new();
    bagg_add(&mut file, &["Eggs"], None, None, None);
    bagg_add(&mut file, &["Milk"], None, None, None);
    bagg_rm(&mut file, 1);
    assert!(!file.contains("Eggs"));
    assert!(file.contains("Milk"));
}

#[test]
fn list_filters_keep_original_index() {
    let file = "Eggs\nx Bread\nMilk\n";
    let pending = bagg_list(file, true, false, &[]);
    assert!(pending.contains("1  Eggs"), "{pending}");
    assert!(pending.contains("2  Milk"), "{pending}");
    assert!(!pending.contains("Bread"), "{pending}");
    let got = bagg_list(file, false, true, &[]);
    assert!(got.contains("3  x Bread"), "{got}");
}

#[test]
fn cli_list_filters_by_tag() {
    let mut file = String::new();
    bagg_add(&mut file, &["Screws", "+kitchen-reno"], None, None, None);
    bagg_add(&mut file, &["Milk"], None, None, None);
    let tagged = bagg_list(&file, false, false, &["+kitchen-reno"]);
    assert!(tagged.contains("Screws"), "{tagged}");
    assert!(!tagged.contains("Milk"), "{tagged}");
    let upper = bagg_list(&file, false, false, &["+KITCHEN-RENO"]);
    assert!(upper.contains("Screws"), "{upper}");
    let either = bagg_list(&file, false, false, &["+other", "+kitchen-reno"]);
    assert!(either.contains("Screws"), "{either}");
}

#[test]
fn tag_filter_composes_as_and_with_other_filters() {
    let file = "x Screws +kitchen-reno\nPaint +kitchen-reno\nMilk\n";
    let pending_tagged = bagg_list(file, true, false, &["+kitchen-reno"]);
    assert!(pending_tagged.contains("Paint"), "{pending_tagged}");
    assert!(!pending_tagged.contains("Screws"), "{pending_tagged}");
    assert!(!pending_tagged.contains("Milk"), "{pending_tagged}");
    let got_tagged = bagg_list(file, false, true, &["+kitchen-reno"]);
    assert!(got_tagged.contains("Screws"), "{got_tagged}");
    assert!(!got_tagged.contains("Paint"), "{got_tagged}");
}
