//! The orchestrator's decisions: which scanned records are new, and how the
//! seen-set grows once they have been reported. The run itself is linear —
//! load, scan, filter, notify, mark, save — and these two steps are the only
//! ones that decide anything.

use vstd::prelude::*;
use crate::message::Email;
use crate::message::RecordView;
use crate::state::SeenEmails;

verus! {

/// The set of identifiers of a batch of records.
pub open spec fn ids_of(records: Seq<RecordView>) -> Set<Seq<char>> {
    records.map_values(|r: RecordView| r.id).to_set()
}

/// The subsequence of `records` whose identifiers `seen` does not hold, in
/// their original order.
pub open spec fn new_records(records: Seq<RecordView>, seen: Set<Seq<char>>) -> Seq<RecordView>
    decreases records.len(),
{
    if records.len() == 0 {
        Seq::empty()
    } else {
        let rest = new_records(records.drop_last(), seen);
        if !seen.contains(records.last().id) {
            rest.push(records.last())
        } else {
            rest
        }
    }
}

proof fn lemma_ids_of_push(records: Seq<RecordView>, r: RecordView)
    ensures
        ids_of(records.push(r)) == ids_of(records).insert(r.id),
{
    let f = |x: RecordView| x.id;
    assert(records.push(r).map_values(f) =~= records.map_values(f).push(r.id));
    let m = records.map_values(f);
    assert forall|x: Seq<char>| ids_of(records.push(r)).contains(x) implies ids_of(
        records,
    ).insert(r.id).contains(x) by {
        let i = choose|i: int| 0 <= i < m.push(r.id).len() && m.push(r.id)[i] == x;
        if i < m.len() {
            assert(m[i] == x);
            assert(m.contains(x));
        }
    }
    assert forall|x: Seq<char>| ids_of(records).insert(r.id).contains(x) implies ids_of(
        records.push(r),
    ).contains(x) by {
        if x == r.id {
            assert(m.push(r.id)[m.len() as int] == x);
            assert(m.push(r.id).contains(x));
        } else {
            let i = choose|i: int| 0 <= i < m.len() && m[i] == x;
            assert(m.push(r.id)[i] == x);
            assert(m.push(r.id).contains(x));
        }
    }
    assert(ids_of(records.push(r)) =~= ids_of(records).insert(r.id));
}

/// Every scanned record's identifier ends up covered: it was either seen
/// before the run, or it belongs to the batch the run reports.
proof fn lemma_all_ids_covered(records: Seq<RecordView>, seen: Set<Seq<char>>)
    ensures
        forall|i: int|
            0 <= i < records.len() ==> seen.contains(#[trigger] records[i].id) || ids_of(
                new_records(records, seen),
            ).contains(records[i].id),
    decreases records.len(),
{
    if records.len() > 0 {
        let prefix = records.drop_last();
        let rest = new_records(prefix, seen);
        lemma_all_ids_covered(prefix, seen);
        if !seen.contains(records.last().id) {
            lemma_ids_of_push(rest, records.last());
        }
        assert forall|i: int|
            0 <= i < records.len() && !seen.contains(#[trigger] records[i].id) implies ids_of(
            new_records(records, seen),
        ).contains(records[i].id) by {
            if i < records.len() - 1 {
                assert(prefix[i] == records[i]);
                assert(ids_of(rest).contains(records[i].id));
                if !seen.contains(records.last().id) {
                    assert(ids_of(new_records(records, seen)) == ids_of(rest).insert(
                        records.last().id,
                    ));
                }
            } else {
                assert(ids_of(new_records(records, seen)) == ids_of(rest).insert(
                    records.last().id,
                ));
            }
        }
    }
}

/// A run over records whose identifiers are all in the seen-set reports
/// nothing.
proof fn lemma_none_new(records: Seq<RecordView>, seen: Set<Seq<char>>)
    requires
        forall|i: int| 0 <= i < records.len() ==> seen.contains(#[trigger] records[i].id),
    ensures
        new_records(records, seen) == Seq::<RecordView>::empty(),
    decreases records.len(),
{
    if records.len() > 0 {
        let prefix = records.drop_last();
        assert forall|i: int| 0 <= i < prefix.len() implies seen.contains(
            #[trigger] prefix[i].id,
        ) by {
            assert(prefix[i] == records[i]);
        }
        lemma_none_new(prefix, seen);
    }
}

/// Law: the pipeline is idempotent. One run reports the batch
/// `new_records(records, seen)` and leaves the seen-set at
/// `seen + ids_of(that batch)`; a second run over the unchanged store then
/// reports nothing at all.
pub proof fn lemma_second_run_reports_nothing(records: Seq<RecordView>, seen: Set<Seq<char>>)
    ensures
        new_records(records, seen.union(ids_of(new_records(records, seen))))
            == Seq::<RecordView>::empty(),
{
    lemma_all_ids_covered(records, seen);
    lemma_none_new(records, seen.union(ids_of(new_records(records, seen))));
}

/// Law: no duplicate reporting. Once an identifier stands in the seen-set —
/// and `add` and `mark_seen` only ever grow it — no later run's batch of new
/// records holds that identifier, whatever the store then contains.
pub proof fn lemma_no_duplicate_reporting(
    id: Seq<char>,
    later: Set<Seq<char>>,
    records: Seq<RecordView>,
)
    requires
        later.contains(id),
    ensures
        !ids_of(new_records(records, later)).contains(id),
    decreases records.len(),
{
    if records.len() == 0 {
        assert(!ids_of(Seq::<RecordView>::empty()).contains(id)) by {
            let m = Seq::<RecordView>::empty().map_values(|x: RecordView| x.id);
            if m.contains(id) {
                let i = choose|i: int| 0 <= i < m.len() && m[i] == id;
            }
        }
    } else {
        lemma_no_duplicate_reporting(id, later, records.drop_last());
        if !later.contains(records.last().id) {
            lemma_ids_of_push(new_records(records.drop_last(), later), records.last());
        }
    }
}

/// Partition step of a run: the records whose identifiers the seen-set does
/// not hold, in scan order. The rest of the batch is already reported and
/// is discarded.
pub fn filter_new(records: &Vec<Email>, seen: &SeenEmails) -> (r: Vec<Email>)
    ensures
        r.deep_view() == new_records(records.deep_view(), seen@),
{
    let ghost all = records.deep_view();
    let mut out: Vec<Email> = Vec::new();
    let n = records.len();
    let mut i: usize = 0;
    proof {
        assert(out.deep_view() =~= Seq::<RecordView>::empty());
        assert(all.take(0) =~= Seq::<RecordView>::empty());
    }
    while i < n
        invariant
            n == records.len(),
            0 <= i <= n,
            all == records.deep_view(),
            out.deep_view() == new_records(all.take(i as int), seen@),
        decreases n - i,
    {
        let ghost prefix = all.take(i as int);
        let ghost before = out.deep_view();
        if !seen.contains(records[i].id.as_str()) {
            let record = Email {
                id: records[i].id.clone(),
                subject: records[i].subject.clone(),
                from: records[i].from.clone(),
            };
            proof {
                assert(record@ == all[i as int]);
            }
            out.push(record);
        }
        proof {
            assert(all.take(i as int + 1).drop_last() =~= prefix);
            assert(all.take(i as int + 1).last() == all[i as int]);
            if !seen@.contains(all[i as int].id) {
                assert(out.deep_view() =~= before.push(all[i as int]));
            }
        }
        i += 1;
    }
    proof {
        assert(all.take(n as int) =~= all);
    }
    out
}

/// Marking step of a run: after the notification attempts — whatever their
/// individual outcomes — every reported record's identifier goes into the
/// seen-set, which therefore only ever grows.
pub fn mark_seen(seen: &mut SeenEmails, reported: &Vec<Email>)
    requires
        old(seen).wf(),
    ensures
        final(seen).wf(),
        final(seen)@ == old(seen)@.union(ids_of(reported.deep_view())),
{
    let ghost all = reported.deep_view();
    let n = reported.len();
    let mut i: usize = 0;
    proof {
        assert(all.take(0) =~= Seq::<RecordView>::empty());
        assert(ids_of(Seq::<RecordView>::empty()) =~= Set::<Seq<char>>::empty()) by {
            let m = Seq::<RecordView>::empty().map_values(|x: RecordView| x.id);
            assert forall|x: Seq<char>| !m.contains(x) by {
                if m.contains(x) {
                    let j = choose|j: int| 0 <= j < m.len() && m[j] == x;
                }
            }
        }
        assert(seen@.union(ids_of(all.take(0))) =~= seen@);
    }
    while i < n
        invariant
            n == reported.len(),
            0 <= i <= n,
            all == reported.deep_view(),
            seen.wf(),
            seen@ == old(seen)@.union(ids_of(all.take(i as int))),
        decreases n - i,
    {
        let ghost prefix = all.take(i as int);
        seen.add(reported[i].id.clone());
        proof {
            assert(all.take(i as int + 1) =~= prefix.push(all[i as int]));
            lemma_ids_of_push(prefix, all[i as int]);
            assert(seen@ =~= old(seen)@.union(ids_of(all.take(i as int + 1))));
        }
        i += 1;
    }
    proof {
        assert(all.take(n as int) =~= all);
    }
}

} // verus!
