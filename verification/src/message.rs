//! The message reader: one on-disk message file, given as its base name and
//! the lines of its text, becomes a normalized record. Only the header
//! block — the lines before the first blank line — is ever inspected.

use vstd::prelude::*;
use vstd::string::StrSliceExecFns;
use crate::decode::decode_header;
use crate::decode::decoded_header;
use crate::text::has_prefix;
use crate::text::is_blank;
use crate::text::str_is_blank;

verus! {

/// One normalized message record: the file's base name as its identifier,
/// the decoded subject and the raw sender, each empty when absent.
#[derive(Debug, Clone, PartialEq)]
pub struct Email {
    pub id: String,
    pub subject: String,
    pub from: String,
}

/// The mathematical content of a record.
pub struct RecordView {
    pub id: Seq<char>,
    pub subject: Seq<char>,
    pub from: Seq<char>,
}

impl View for Email {
    type V = RecordView;

    open spec fn view(&self) -> RecordView {
        RecordView { id: self.id@, subject: self.subject@, from: self.from@ }
    }
}

impl DeepView for Email {
    type V = RecordView;

    open spec fn deep_view(&self) -> RecordView {
        self@
    }
}

pub open spec fn subject_label() -> Seq<char> {
    "Subject: "@
}

pub open spec fn from_label() -> Seq<char> {
    "From: "@
}

/// The header loop over `lines`, carrying the subject and sender found so
/// far: it stops at the first blank line, and for each header line before
/// that point the text after `Subject: ` (decoded) or after `From: ` (kept
/// raw) replaces what an earlier occurrence of the same label left.
pub open spec fn scan_headers(lines: Seq<Seq<char>>, subject: Seq<char>, from: Seq<char>) -> (
    Seq<char>,
    Seq<char>,
)
    decreases lines.len(),
{
    if lines.len() == 0 {
        (subject, from)
    } else if is_blank(lines[0]) {
        (subject, from)
    } else {
        let line = lines[0];
        let subject2 = if subject_label().is_prefix_of(line) {
            decoded_header(line.skip(subject_label().len() as int))
        } else {
            subject
        };
        let from2 = if from_label().is_prefix_of(line) {
            line.skip(from_label().len() as int)
        } else {
            from
        };
        scan_headers(lines.drop_first(), subject2, from2)
    }
}

/// The record that a message file with base name `name` and text lines
/// `lines` denotes: subject and sender both start out empty.
pub open spec fn parsed_record(name: Seq<char>, lines: Seq<Seq<char>>) -> RecordView {
    let (subject, from) = scan_headers(lines, Seq::empty(), Seq::empty());
    RecordView { id: name, subject: subject, from: from }
}

/// Parses one message: `id` is the file's base name, `lines` the lines of
/// its text. An empty file yields a record with empty subject and sender.
pub fn parse_email(id: String, lines: &Vec<String>) -> (r: Email)
    ensures
        r@ == parsed_record(id@, lines.deep_view()),
{
    let ghost all = lines.deep_view();
    let mut subject = String::new();
    let mut from = String::new();
    let n = lines.len();
    let mut i: usize = 0;
    proof {
        assert(all.skip(0) =~= all);
    }
    while i < n
        invariant
            n == lines.len(),
            0 <= i <= n,
            scan_headers(all.skip(i as int), subject@, from@) == scan_headers(
                all,
                Seq::empty(),
                Seq::empty(),
            ),
            all == lines.deep_view(),
        ensures
            scan_headers(all, Seq::empty(), Seq::empty()) == (subject@, from@),
        decreases n - i,
    {
        let ghost tail = all.skip(i as int);
        let ghost sub0 = subject@;
        let ghost from0 = from@;
        proof {
            assert(tail[0] == all[i as int]);
            assert(tail.drop_first() =~= all.skip(i as int + 1));
        }
        let line = &lines[i];
        if str_is_blank(line.as_str()) {
            proof {
                assert(scan_headers(tail, sub0, from0) == (sub0, from0));
            }
            break ;
        }
        proof {
            reveal_strlit("Subject: ");
            reveal_strlit("From: ");
        }
        if has_prefix(line.as_str(), "Subject: ") {
            let len = line.as_str().unicode_len();
            let raw = line.as_str().substring_char(9, len);
            proof {
                assert("Subject: "@ == subject_label());
                assert(raw@ =~= all[i as int].skip(subject_label().len() as int));
            }
            subject = decode_header(raw);
        }
        if has_prefix(line.as_str(), "From: ") {
            let len = line.as_str().unicode_len();
            let raw = line.as_str().substring_char(6, len);
            proof {
                assert("From: "@ == from_label());
                assert(raw@ =~= all[i as int].skip(from_label().len() as int));
            }
            from = raw.to_owned();
        }
        proof {
            assert(scan_headers(tail, sub0, from0) == scan_headers(
                all.skip(i as int + 1),
                subject@,
                from@,
            ));
        }
        i += 1;
    }
    proof {
        let (s, f) = scan_headers(all, Seq::<char>::empty(), Seq::<char>::empty());
        assert(s == subject@ && f == from@);
    }
    Email { id, subject, from }
}

} // verus!
