use flexi_tools::holler::Contact;

#[test]
fn storage_parse_bare_name() {
    let c = Contact::parse("John Smith").unwrap();
    assert_eq!(c.name, "John Smith");
    assert!(c.phone.is_empty());
    assert!(c.email.is_empty());
}

#[test]
fn parse_single_phone_and_email() {
    let c = Contact::parse("John Smith phone:555-123-4567 email:john@example.com").unwrap();
    assert_eq!(c.name, "John Smith");
    assert_eq!(c.phone, vec!["555-123-4567"]);
    assert_eq!(c.email, vec!["john@example.com"]);
}

#[test]
fn parse_multiple_phones_and_emails_in_encounter_order() {
    let c = Contact::parse(
        "John Smith email:john@home.com phone:555-987-6543 +family phone:555-123-4567 email:john@work.com",
    )
    .unwrap();
    assert_eq!(c.name, "John Smith +family");
    assert_eq!(c.phone, vec!["555-987-6543", "555-123-4567"]);
    assert_eq!(c.email, vec!["john@home.com", "john@work.com"]);
}

#[test]
fn unreserved_tag_stays_embedded_in_name_untouched() {
    let c = Contact::parse("Jane +family Doe @work").unwrap();
    assert_eq!(c.name, "Jane +family Doe @work");
}

#[test]
fn reserved_key_is_case_insensitive() {
    let c = Contact::parse("John Smith PHONE:555-1234 Email:j@x.com").unwrap();
    assert_eq!(c.phone, vec!["555-1234"]);
    assert_eq!(c.email, vec!["j@x.com"]);
}

#[test]
fn other_key_value_tokens_are_not_reserved() {
    let c = Contact::parse("Dr. Lee title:Doctor").unwrap();
    assert_eq!(c.name, "Dr. Lee title:Doctor");
    assert!(c.phone.is_empty());
}

#[test]
fn storage_parse_rejects_empty_name() {
    assert!(Contact::parse("phone:555-1234").is_err());
    assert!(Contact::parse("").is_err());
}

#[test]
fn to_line_canonicalizes_phone_then_email_after_name() {
    let c = Contact::parse(
        "John Smith email:john@home.com phone:555-987-6543 +family phone:555-123-4567 email:john@work.com",
    )
    .unwrap();
    assert_eq!(
        c.to_line(),
        "John Smith +family phone:555-987-6543 phone:555-123-4567 email:john@home.com email:john@work.com"
    );
}

#[test]
fn to_line_round_trips_bare_name() {
    let c = Contact::parse("John Smith").unwrap();
    assert_eq!(c.to_line(), "John Smith");
}

#[test]
fn sort_key_is_case_insensitive_alphabetical() {
    let a = Contact::parse("alice").unwrap();
    let b = Contact::parse("Bob").unwrap();
    assert!(a.sort_key() < b.sort_key());
}

#[test]
fn parsed_contact_line_reads_back() {
    let c = Contact::parse("  Jane   PHONE:555-1234 Doe\temail:jane@x.org phone:777 ").unwrap();
    assert_eq!(c.name, "Jane Doe");
    assert_eq!(c.phone, vec!["555-1234".to_string(), "777".to_string()]);
    assert_eq!(c.email, vec!["jane@x.org".to_string()]);
    let line = c.to_line();
    assert_eq!(line, "Jane Doe phone:555-1234 phone:777 email:jane@x.org");
    let again = Contact::parse(&line).unwrap();
    assert_eq!((&again.name, &again.phone, &again.email), (&c.name, &c.phone, &c.email));
    assert_eq!(again.to_line(), line);
}
