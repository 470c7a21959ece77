//! The store scanner: the mail store, handed over as plain values — one
//! entry per account directory, each with the listing of its `Inbox/new`
//! directory, each listed file with its base name and its text lines —
//! becomes the flat sequence of normalized records, in account order and
//! file order. One bad file never hides the rest.

use vstd::prelude::*;
use crate::message::parse_email;
use crate::message::parsed_record;
use crate::message::Email;
use crate::message::RecordView;

verus! {

/// One file found in an account's `Inbox/new`: its base name (the message
/// identifier) and the lines of its text. `readable` is false when the file
/// could not be opened or read, or no base name could be derived from its
/// path; such a file is skipped rather than aborting the scan.
pub struct SourceFile {
    pub readable: bool,
    pub name: String,
    pub lines: Vec<String>,
}

/// The mathematical content of one listed file.
pub struct SourceFileView {
    pub readable: bool,
    pub name: Seq<char>,
    pub lines: Seq<Seq<char>>,
}

impl View for SourceFile {
    type V = SourceFileView;

    open spec fn view(&self) -> SourceFileView {
        SourceFileView { readable: self.readable, name: self.name@, lines: self.lines.deep_view() }
    }
}

impl DeepView for SourceFile {
    type V = SourceFileView;

    open spec fn deep_view(&self) -> SourceFileView {
        self@
    }
}

/// One account directory under the store root. `inbox` is `None` when the
/// account has no `Inbox/new` directory, or that directory could not be
/// enumerated: such an account contributes no records, which is not an
/// error.
pub struct AccountDir {
    pub inbox: Option<Vec<SourceFile>>,
}

impl View for AccountDir {
    type V = Option<Seq<SourceFileView>>;

    open spec fn view(&self) -> Option<Seq<SourceFileView>> {
        match self.inbox {
            Option::Some(ref files) => Option::Some(files.deep_view()),
            Option::None => Option::None,
        }
    }
}

impl DeepView for AccountDir {
    type V = Option<Seq<SourceFileView>>;

    open spec fn deep_view(&self) -> Option<Seq<SourceFileView>> {
        self@
    }
}

/// The records of one account's `Inbox/new` listing, in file order:
/// every readable file yields its parsed record, the rest are skipped.
pub open spec fn inbox_records(files: Seq<SourceFileView>) -> Seq<RecordView>
    decreases files.len(),
{
    if files.len() == 0 {
        Seq::empty()
    } else {
        let head = if files[0].readable {
            seq![parsed_record(files[0].name, files[0].lines)]
        } else {
            Seq::<RecordView>::empty()
        };
        head + inbox_records(files.drop_first())
    }
}

/// The records of the whole store, account by account: an account without
/// a listable `Inbox/new` contributes nothing.
pub open spec fn store_records(accounts: Seq<Option<Seq<SourceFileView>>>) -> Seq<RecordView>
    decreases accounts.len(),
{
    if accounts.len() == 0 {
        Seq::empty()
    } else {
        let head = match accounts[0] {
            Option::Some(files) => inbox_records(files),
            Option::None => Seq::<RecordView>::empty(),
        };
        head + store_records(accounts.drop_first())
    }
}

proof fn lemma_inbox_records_push(files: Seq<SourceFileView>, f: SourceFileView)
    ensures
        inbox_records(files.push(f)) == inbox_records(files) + (if f.readable {
            seq![parsed_record(f.name, f.lines)]
        } else {
            Seq::<RecordView>::empty()
        }),
    decreases files.len(),
{
    let tail = if f.readable {
        seq![parsed_record(f.name, f.lines)]
    } else {
        Seq::<RecordView>::empty()
    };
    if files.len() == 0 {
        assert(files.push(f)[0] == f);
        assert(files.push(f).drop_first() =~= Seq::<SourceFileView>::empty());
        assert(tail + Seq::<RecordView>::empty() =~= tail);
        assert(inbox_records(Seq::<SourceFileView>::empty()) =~= Seq::<RecordView>::empty());
        assert(inbox_records(files.push(f)) =~= tail);
        assert(inbox_records(files) + tail =~= tail);
    } else {
        assert(files.push(f)[0] == files[0]);
        assert(files.push(f).drop_first() =~= files.drop_first().push(f));
        lemma_inbox_records_push(files.drop_first(), f);
        let head = if files[0].readable {
            seq![parsed_record(files[0].name, files[0].lines)]
        } else {
            Seq::<RecordView>::empty()
        };
        assert(head + (inbox_records(files.drop_first()) + tail) =~= (head + inbox_records(
            files.drop_first(),
        )) + tail);
    }
}

proof fn lemma_store_records_push(
    accounts: Seq<Option<Seq<SourceFileView>>>,
    a: Option<Seq<SourceFileView>>,
)
    ensures
        store_records(accounts.push(a)) == store_records(accounts) + (match a {
            Option::Some(files) => inbox_records(files),
            Option::None => Seq::<RecordView>::empty(),
        }),
    decreases accounts.len(),
{
    let tail = match a {
        Option::Some(files) => inbox_records(files),
        Option::None => Seq::<RecordView>::empty(),
    };
    if accounts.len() == 0 {
        assert(accounts.push(a)[0] == a);
        assert(accounts.push(a).drop_first() =~= Seq::<Option<Seq<SourceFileView>>>::empty());
        assert(tail + Seq::<RecordView>::empty() =~= tail);
        assert(store_records(Seq::<Option<Seq<SourceFileView>>>::empty()) =~= Seq::<RecordView>::empty());
        assert(store_records(accounts.push(a)) =~= tail);
        assert(store_records(accounts) + tail =~= tail);
    } else {
        assert(accounts.push(a)[0] == accounts[0]);
        assert(accounts.push(a).drop_first() =~= accounts.drop_first().push(a));
        lemma_store_records_push(accounts.drop_first(), a);
        let head = match accounts[0] {
            Option::Some(files) => inbox_records(files),
            Option::None => Seq::<RecordView>::empty(),
        };
        assert(head + (store_records(accounts.drop_first()) + tail) =~= (head + store_records(
            accounts.drop_first(),
        )) + tail);
    }
}

/// Law: partial-store resilience. An account without a listable `Inbox/new`
/// contributes no records and leaves the records of the accounts around it
/// exactly as they were.
pub proof fn lemma_missing_inbox_contributes_nothing(
    pre: Seq<Option<Seq<SourceFileView>>>,
    post: Seq<Option<Seq<SourceFileView>>>,
)
    ensures
        store_records(pre + seq![Option::<Seq<SourceFileView>>::None] + post) == store_records(
            pre + post,
        ),
    decreases pre.len(),
{
    let hole = seq![Option::<Seq<SourceFileView>>::None];
    if pre.len() == 0 {
        assert(pre + hole + post =~= hole + post);
        assert((hole + post)[0] == Option::<Seq<SourceFileView>>::None);
        assert((hole + post).drop_first() =~= post);
        assert(Seq::<RecordView>::empty() + store_records(post) =~= store_records(post));
        assert(pre + post =~= post);
    } else {
        assert((pre + hole + post)[0] == pre[0]);
        assert((pre + post)[0] == pre[0]);
        assert((pre + hole + post).drop_first() =~= pre.drop_first() + hole + post);
        assert((pre + post).drop_first() =~= pre.drop_first() + post);
        lemma_missing_inbox_contributes_nothing(pre.drop_first(), post);
    }
}

/// Scans one account's `Inbox/new` listing: every readable file is parsed,
/// the rest are skipped, and file order is kept.
pub fn scan_inbox_new(files: &Vec<SourceFile>) -> (r: Vec<Email>)
    ensures
        r.deep_view() == inbox_records(files.deep_view()),
{
    let mut out: Vec<Email> = Vec::new();
    let n = files.len();
    let mut i: usize = 0;
    proof {
        assert(out.deep_view() =~= Seq::<RecordView>::empty());
        assert(files.deep_view().take(0) =~= Seq::<SourceFileView>::empty());
        assert(inbox_records(files.deep_view().take(0)) =~= Seq::<RecordView>::empty());
    }
    while i < n
        invariant
            n == files.len(),
            0 <= i <= n,
            out.deep_view() == inbox_records(files.deep_view().take(i as int)),
        decreases n - i,
    {
        let ghost prefix = files.deep_view().take(i as int);
        let file = &files[i];
        if file.readable {
            let record = parse_email(file.name.clone(), &file.lines);
            out.push(record);
        }
        proof {
            assert(files.deep_view().take(i as int + 1) =~= prefix.push(
                files.deep_view()[i as int],
            ));
            lemma_inbox_records_push(prefix, files.deep_view()[i as int]);
            if file.readable {
                assert(out.deep_view() =~= inbox_records(prefix) + seq![
                    parsed_record(files.deep_view()[i as int].name, files.deep_view()[i as int].lines),
                ]);
            } else {
                assert(out.deep_view() =~= inbox_records(prefix)
                    + Seq::<RecordView>::empty());
            }
        }
        i += 1;
    }
    proof {
        assert(files.deep_view().take(n as int) =~= files.deep_view());
    }
    out
}

/// Scans the whole store: the accounts' records are concatenated in account
/// order, and an account whose `Inbox/new` is missing contributes nothing
/// without disturbing its siblings.
pub fn scan_maildir(accounts: &Vec<AccountDir>) -> (r: Vec<Email>)
    ensures
        r.deep_view() == store_records(accounts.deep_view()),
{
    let mut out: Vec<Email> = Vec::new();
    let n = accounts.len();
    let mut i: usize = 0;
    proof {
        assert(out.deep_view() =~= Seq::<RecordView>::empty());
        assert(accounts.deep_view().take(0) =~= Seq::<Option<Seq<SourceFileView>>>::empty());
        assert(store_records(accounts.deep_view().take(0)) =~= Seq::<RecordView>::empty());
    }
    while i < n
        invariant
            n == accounts.len(),
            0 <= i <= n,
            out.deep_view() == store_records(accounts.deep_view().take(i as int)),
        decreases n - i,
    {
        let ghost prefix = accounts.deep_view().take(i as int);
        let ghost before = out.deep_view();
        match &accounts[i].inbox {
            Option::Some(files) => {
                let mut records = scan_inbox_new(files);
                let ghost recs = records.deep_view();
                let ghost old_out = out@;
                let ghost old_records = records@;
                out.append(&mut records);
                proof {
                    assert forall|j: int| 0 <= j < out.deep_view().len() implies out.deep_view()[j]
                        == (before + recs)[j] by {
                        if j < old_out.len() {
                            assert(out@[j] == old_out[j]);
                        } else {
                            assert(out@[j] == old_records[j - old_out.len()]);
                        }
                    }
                    assert(out.deep_view() =~= before + recs);
                }
            },
            Option::None => {},
        }
        proof {
            assert(accounts.deep_view().take(i as int + 1) =~= prefix.push(
                accounts.deep_view()[i as int],
            ));
            lemma_store_records_push(prefix, accounts.deep_view()[i as int]);
        }
        i += 1;
    }
    proof {
        assert(accounts.deep_view().take(n as int) =~= accounts.deep_view());
    }
    out
}

} // verus!
