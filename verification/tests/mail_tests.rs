use email_check::decode::decode_header;
use email_check::message::parse_email;
use email_check::scan::scan_inbox_new;
use email_check::scan::scan_maildir;
use email_check::scan::AccountDir;
use email_check::scan::SourceFile;

fn message_lines(subject: &str, from: &str) -> Vec<String> {
    vec![
        format!("Subject: {}", subject),
        format!("From: {}", from),
        String::new(),
        "This is the email body.".to_string(),
    ]
}

#[test]
fn parse_email_file_extracts_headers() {
    let lines = message_lines("Test Subject", "sender@example.com");
    let email = parse_email("test_email".to_string(), &lines);

    assert_eq!(email.id, "test_email");
    assert_eq!(email.subject, "Test Subject");
    assert_eq!(email.from, "sender@example.com");
}

#[test]
fn decode_rfc2047_handles_encoded_subjects() {
    assert_eq!(decode_header("Plain Subject"), "Plain Subject");

    let encoded = "=?UTF-8?B?VGVzdCBTdWJqZWN0?=";
    let decoded = decode_header(encoded);

    assert!(!decoded.is_empty());
}

#[test]
fn scan_inbox_new_handles_missing_directory() {
    let accounts = vec![AccountDir { inbox: None }];
    let emails = scan_maildir(&accounts);
    assert!(emails.is_empty());
}

#[test]
fn scan_inbox_new_finds_emails() {
    let files = vec![
        SourceFile {
            readable: true,
            name: "email1".to_string(),
            lines: message_lines("Subject 1", "from1@example.com"),
        },
        SourceFile {
            readable: true,
            name: "email2".to_string(),
            lines: message_lines("Subject 2", "from2@example.com"),
        },
    ];

    let emails = scan_inbox_new(&files);

    assert_eq!(emails.len(), 2);
    assert!(emails.iter().any(|e| e.subject == "Subject 1"));
    assert!(emails.iter().any(|e| e.subject == "Subject 2"));
}

#[test]
fn encoded_subject_is_stored_decoded() {
    let lines = vec!["Subject: =?UTF-8?B?VGVzdCBTdWJqZWN0?=".to_string()];
    let email = parse_email("msg1".to_string(), &lines);

    assert_eq!(email.subject, "Test Subject");
    assert_ne!(email.subject, "=?UTF-8?B?VGVzdCBTdWJqZWN0?=");
}

#[test]
fn empty_file_yields_empty_headers() {
    let lines: Vec<String> = Vec::new();
    let email = parse_email("empty".to_string(), &lines);

    assert_eq!(email.id, "empty");
    assert_eq!(email.subject, "");
    assert_eq!(email.from, "");
}

#[test]
fn last_header_occurrence_wins() {
    let lines = vec![
        "Subject: first".to_string(),
        "From: first@example.com".to_string(),
        "Subject: second".to_string(),
        "From: second@example.com".to_string(),
    ];
    let email = parse_email("twice".to_string(), &lines);

    assert_eq!(email.subject, "second");
    assert_eq!(email.from, "second@example.com");
}

#[test]
fn headers_after_blank_line_are_body_text() {
    let lines = vec![
        "Subject: real".to_string(),
        " \t".to_string(),
        "Subject: fake".to_string(),
        "From: fake@example.com".to_string(),
    ];
    let email = parse_email("stops".to_string(), &lines);

    assert_eq!(email.subject, "real");
    assert_eq!(email.from, "");
}

#[test]
fn unreadable_files_are_skipped() {
    let files = vec![
        SourceFile {
            readable: false,
            name: "broken".to_string(),
            lines: Vec::new(),
        },
        SourceFile {
            readable: true,
            name: "good".to_string(),
            lines: message_lines("Kept", "keeper@example.com"),
        },
    ];

    let emails = scan_inbox_new(&files);

    assert_eq!(emails.len(), 1);
    assert_eq!(emails[0].id, "good");
}

#[test]
fn accounts_are_scanned_in_order() {
    let accounts = vec![
        AccountDir {
            inbox: Some(vec![SourceFile {
                readable: true,
                name: "a1".to_string(),
                lines: Vec::new(),
            }]),
        },
        AccountDir { inbox: None },
        AccountDir {
            inbox: Some(vec![SourceFile {
                readable: true,
                name: "b1".to_string(),
                lines: Vec::new(),
            }]),
        },
    ];

    let emails = scan_maildir(&accounts);

    assert_eq!(emails.len(), 2);
    assert_eq!(emails[0].id, "a1");
    assert_eq!(emails[1].id, "b1");
}
