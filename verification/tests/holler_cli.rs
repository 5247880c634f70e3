//! The holler command-line scenarios, run through the library on a
//! contacts file held in memory.
use flexi_tools::holler_cmd::{all_sorted, contact_from_args, find_contact, list_rows, run_lookup, Field, LookupError};
use flexi_tools::lines::remove_line;

fn holler_add(file: &mut String, words: &[&str]) -> bool {
    let args: Vec<String> = words.iter().map(|w| w.to_string()).collect();
    match contact_from_args(&args) {
        Ok(c) => {
            file.push_str(&c.to_line());
            file.push('\n');
            true
        }
        Err(_) => false,
    }
}

fn holler_list(file: &str, tags: &[&str]) -> String {
    let cs = all_sorted(file).unwrap();
    if cs.is_empty() {
        return "no contacts\n".to_string();
    }
    let width = cs.len().to_string().len();
    let queries: Vec<String> = tags.iter().map(|t| t.to_string()).collect();
    list_rows(&cs, &queries).iter().map(|r| format!("{:>width$}  {}\n", r.number, r.line, width = width)).collect()
}

fn holler_lookup(file: &str, field: Field, query: &str) -> Result<String, LookupError> {
    let lines = run_lookup(&all_sorted(file).unwrap(), field, query)?;
    Ok(lines.iter().map(|l| format!("{l}\n")).collect())
}

#[test]
fn add_writes_canonical_line() {
    let mut file = String::new();
    assert!(holler_add(&mut file, &["John", "Smith", "phone:555-123-4567", "email:john@example.com"]));
    assert!(file.contains("John Smith phone:555-123-4567 email:john@example.com"), "{file}");
}

#[test]
fn add_rejects_bare_tags_with_no_name() {
    let mut file = String::new();
    assert!(!holler_add(&mut file, &["phone:555-1234"]));
}

#[test]
fn list_sorts_alphabetically_by_name() {
    let mut file = String::new();
    holler_add(&mut file, &["Zoe"]);
    holler_add(&mut file, &["Alice"]);
    holler_add(&mut file, &["Mallory"]);
    let listing = holler_list(&file, &[]);
    let pos = |s: &str| listing.find(s).unwrap();
    assert!(pos("Alice") < pos("Mallory"));
    assert!(pos("Mallory") < pos("Zoe"));
}

#[test]
fn holler_rm_removes_by_list_index() {
    let mut file = String::new();
    holler_add(&mut file, &["Alice"]);
    holler_add(&mut file, &["Bob"]);
    let cs = all_sorted(&file).unwrap();
    let target = find_contact(&cs, 1).unwrap();
    file = remove_line(&file, &target.raw);
    assert!(!file.contains("Alice"));
    assert!(file.contains("Bob"));
}

#[test]
fn holler_list_filters_by_tag() {
    let mut file = String::new();
    holler_add(&mut file, &["Jane", "Doe", "+family"]);
    holler_add(&mut file, &["John", "Smith"]);
    let tagged = holler_list(&file, &["+family"]);
    assert!(tagged.contains("Jane"), "{tagged}");
    assert!(!tagged.contains("John Smith"), "{tagged}");
}

#[test]
fn phone_lookup_single_match_prints_bare_values() {
    let file = "John Smith phone:555-987-6543 phone:555-123-4567\nJane Doe phone:555-0000\n";
    let o = holler_lookup(file, Field::Phone, "John").unwrap();
    assert_eq!(o.trim(), "555-987-6543\n555-123-4567".trim());
}

#[test]
fn phone_lookup_no_value_on_file() {
    let o = holler_lookup("John Smith\n", Field::Phone, "John").unwrap();
    assert!(o.contains("no phone on file for John Smith"), "{o}");
}

#[test]
fn email_lookup_multiple_matches_disambiguates() {
    let file = "John Smith email:john.smith@x.com\nJohn Doe email:john.doe@x.com\n";
    let o = holler_lookup(file, Field::Email, "John").unwrap();
    assert!(o.contains("John Smith: john.smith@x.com"), "{o}");
    assert!(o.contains("John Doe: john.doe@x.com"), "{o}");
}

#[test]
fn lookup_no_match_errors() {
    assert_eq!(holler_lookup("John Smith\n", Field::Phone, "Nobody"), Err(LookupError::NoMatch));
}

#[test]
fn holler_empty_states() {
    assert_eq!(holler_list("", &[]), "no contacts\n");
}
