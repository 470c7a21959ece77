use email_check::notify::notification_body;
use email_check::pipeline::filter_new;
use email_check::pipeline::mark_seen;
use email_check::scan::scan_maildir;
use email_check::scan::AccountDir;
use email_check::scan::SourceFile;
use email_check::state::SeenEmails;

fn message_file(name: &str, subject: &str, from: &str) -> SourceFile {
    SourceFile {
        readable: true,
        name: name.to_string(),
        lines: vec![
            format!("Subject: {}", subject),
            format!("From: {}", from),
            String::new(),
            "Body.".to_string(),
        ],
    }
}

#[test]
fn two_accounts_one_without_inbox_report_once() {
    let accounts = vec![
        AccountDir {
            inbox: Some(vec![
                message_file("m1", "First", "one@example.com"),
                message_file("m2", "Second", "two@example.com"),
            ]),
        },
        AccountDir { inbox: None },
    ];
    let mut seen = SeenEmails::load(None);

    let records = scan_maildir(&accounts);
    assert_eq!(records.len(), 2);
    assert_eq!(records[0].id, "m1");
    assert_eq!(records[1].id, "m2");

    let new_records = filter_new(&records, &seen);
    assert_eq!(new_records.len(), 2);

    mark_seen(&mut seen, &new_records);
    assert_eq!(seen.len(), 2);
    assert!(seen.contains("m1"));
    assert!(seen.contains("m2"));

    let records_again = scan_maildir(&accounts);
    let new_again = filter_new(&records_again, &seen);
    assert_eq!(new_again.len(), 0);
}

#[test]
fn second_run_after_save_and_reload_reports_nothing() {
    let accounts = vec![AccountDir {
        inbox: Some(vec![message_file("only", "Hello", "hi@example.com")]),
    }];

    let mut seen = SeenEmails::load(None);
    let records = scan_maildir(&accounts);
    let new_records = filter_new(&records, &seen);
    assert_eq!(new_records.len(), 1);
    mark_seen(&mut seen, &new_records);
    let written = seen.save();

    let later = SeenEmails::load(Some(written.as_str()));
    let new_later = filter_new(&scan_maildir(&accounts), &later);
    assert_eq!(new_later.len(), 0);
}

#[test]
fn filtering_keeps_scan_order_of_new_records() {
    let accounts = vec![AccountDir {
        inbox: Some(vec![
            message_file("a", "A", "a@example.com"),
            message_file("b", "B", "b@example.com"),
            message_file("c", "C", "c@example.com"),
        ]),
    }];
    let mut seen = SeenEmails::load(None);
    seen.add("b".to_string());

    let new_records = filter_new(&scan_maildir(&accounts), &seen);

    assert_eq!(new_records.len(), 2);
    assert_eq!(new_records[0].id, "a");
    assert_eq!(new_records[1].id, "c");
}

#[test]
fn send_notification_formats_message_correctly() {
    let body = notification_body("Test Subject", "test@example.com");
    assert_eq!(body, "From: test@example.com\nSubject: Test Subject");
}
