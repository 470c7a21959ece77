use email_check::state::SeenEmails;

#[test]
fn seen_emails_starts_empty_when_file_missing() {
    let seen = SeenEmails::load(None);
    assert_eq!(seen.len(), 0);
}

#[test]
fn seen_emails_loads_from_existing_file() {
    let seen = SeenEmails::load(Some("email1\nemail2\nemail3"));
    assert_eq!(seen.len(), 3);
    assert!(seen.contains("email1"));
    assert!(seen.contains("email2"));
    assert!(seen.contains("email3"));
}

#[test]
fn seen_emails_can_add_and_save() {
    let mut seen = SeenEmails::load(Some(""));
    seen.add("new_email".to_string());
    let written = seen.save();

    let seen2 = SeenEmails::load(Some(written.as_str()));
    assert!(seen2.contains("new_email"));
}

#[test]
fn seen_emails_ignores_empty_lines() {
    let seen = SeenEmails::load(Some("email1\n\nemail2\n\n"));
    assert_eq!(seen.len(), 2);
}

#[test]
fn blank_lines_between_identifiers_do_not_count() {
    let seen = SeenEmails::load(Some("m1\n\nm2\n"));
    assert_eq!(seen.len(), 2);
    assert!(seen.contains("m1"));
    assert!(seen.contains("m2"));
}

#[test]
fn duplicate_lines_collapse_to_one() {
    let seen = SeenEmails::load(Some("a\na\na"));
    assert_eq!(seen.len(), 1);
    assert!(seen.contains("a"));
}

#[test]
fn adding_twice_is_a_no_op() {
    let mut seen = SeenEmails::load(None);
    seen.add("id1".to_string());
    seen.add("id1".to_string());
    assert_eq!(seen.len(), 1);
}

#[test]
fn carriage_returns_before_line_feeds_are_stripped() {
    let seen = SeenEmails::load(Some("m1\r\nm2"));
    assert_eq!(seen.len(), 2);
    assert!(seen.contains("m1"));
    assert!(seen.contains("m2"));
    assert!(!seen.contains("m1\r"));
}

#[test]
fn whitespace_only_lines_are_ignored() {
    let seen = SeenEmails::load(Some("m1\n \t \nm2"));
    assert_eq!(seen.len(), 2);
    assert!(!seen.contains(" \t "));
}

#[test]
fn save_then_load_round_trips_as_a_set() {
    let seen = SeenEmails::load(Some("beta\nalpha\ngamma\n\nalpha"));
    assert_eq!(seen.len(), 3);
    let written = seen.save();
    let reloaded = SeenEmails::load(Some(written.as_str()));
    assert_eq!(reloaded.len(), 3);
    assert!(reloaded.contains("alpha"));
    assert!(reloaded.contains("beta"));
    assert!(reloaded.contains("gamma"));
}

#[test]
fn saving_the_empty_set_loads_back_empty() {
    let seen = SeenEmails::load(None);
    let written = seen.save();
    let reloaded = SeenEmails::load(Some(written.as_str()));
    assert_eq!(reloaded.len(), 0);
}
