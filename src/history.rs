use vstd::prelude::*;

use crate::ledger::{find, ids_unique, lemma_find, lemma_scan_well_formed, scan, well_formed, EntryView};
use crate::report::{lemma_most_recent_first, most_recent_first, report_text};

verus! {

/// One scan as handed to the ledger: an identifier, a quantity delta and the time of the scan.
pub struct ScanEvent {
    pub identifier: Seq<char>,
    pub quantity_delta: int,
    pub now: nat,
}

/// The ledger after applying `scans`, in order, to an empty ledger.
pub open spec fn replay(scans: Seq<ScanEvent>) -> Seq<EntryView>
    decreases scans.len(),
{
    if scans.len() == 0 {
        Seq::empty()
    } else {
        let l = scans.last();
        scan(replay(scans.drop_last()), l.identifier, l.quantity_delta, l.now)
    }
}

/// Sum of the deltas of all scans of `id`.
pub open spec fn delta_sum(scans: Seq<ScanEvent>, id: Seq<char>) -> int
    decreases scans.len(),
{
    if scans.len() == 0 {
        0
    } else {
        delta_sum(scans.drop_last(), id) + if scans.last().identifier == id {
            scans.last().quantity_delta
        } else {
            0
        }
    }
}

/// The distinct non-blank identifiers among `scans`.
pub open spec fn scanned_ids(scans: Seq<ScanEvent>) -> Set<Seq<char>> {
    Set::new(
        |id: Seq<char>|
            id.len() > 0 && exists|k: int| 0 <= k < scans.len() && scans[k].identifier == id,
    )
}

/// Identifiers of the report's lines, in order.
pub open spec fn report_ids(s: Seq<EntryView>) -> Seq<Seq<char>> {
    most_recent_first(s).map_values(|e: EntryView| e.identifier)
}

/// Every running total of the deltas for `id` fits in an `i64`, so no quantity saturates.
pub open spec fn sums_in_range(scans: Seq<ScanEvent>, id: Seq<char>) -> bool {
    forall|k: int|
        0 <= k <= scans.len() ==> i64::MIN <= #[trigger] delta_sum(scans.take(k), id) <= i64::MAX
}

/// Quantity held for `id`, zero when there is no entry for it.
pub open spec fn tally(s: Seq<EntryView>, id: Seq<char>) -> int {
    if find(s, id) >= 0 {
        s[find(s, id)].quantity
    } else {
        0
    }
}

/// A scan with a blank identifier changes neither the ledger nor its report.
pub proof fn lemma_blank_scan_is_no_op(s: Seq<EntryView>, delta: int, now: nat)
    ensures
        scan(s, Seq::empty(), delta, now) == s,
        report_text(scan(s, Seq::empty(), delta, now)) == report_text(s),
{
}

/// The report lists entries from the most recently scanned to the least recently scanned.
pub proof fn lemma_report_most_recent_first(s: Seq<EntryView>)
    ensures
        forall|i: int, j: int|
            0 <= i < j < s.len() ==> #[trigger] most_recent_first(s)[i].last_touched
                >= #[trigger] most_recent_first(s)[j].last_touched,
{
    lemma_most_recent_first(s);
}

/// A replayed ledger is well formed and holds an entry exactly for each scanned identifier.
pub proof fn lemma_replay_ids(scans: Seq<ScanEvent>)
    ensures
        well_formed(replay(scans)),
        forall|id: Seq<char>|
            (exists|i: int| 0 <= i < replay(scans).len() && replay(scans)[i].identifier == id)
                <==> #[trigger] scanned_ids(scans).contains(id),
    decreases scans.len(),
{
    if scans.len() > 0 {
        let t = scans.drop_last();
        let l = scans.last();
        let s = replay(t);
        lemma_replay_ids(t);
        lemma_scan_well_formed(s, l.identifier, l.quantity_delta, l.now);
        lemma_find(s, l.identifier);
        let r = replay(scans);
        assert forall|id: Seq<char>|
            (exists|i: int| 0 <= i < r.len() && r[i].identifier == id)
                <==> #[trigger] scanned_ids(scans).contains(id) by {
            if exists|i: int| 0 <= i < r.len() && r[i].identifier == id {
                let i = choose|i: int| 0 <= i < r.len() && r[i].identifier == id;
                if i < s.len() && r[i].identifier == s[i].identifier {
                    assert(scanned_ids(t).contains(id));
                    let k = choose|k: int| 0 <= k < t.len() && t[k].identifier == id;
                    assert(scans[k] == t[k]);
                } else {
                    assert(scans[scans.len() - 1] == l);
                }
            }
            if scanned_ids(scans).contains(id) {
                let k = choose|k: int| 0 <= k < scans.len() && scans[k].identifier == id;
                if k < t.len() {
                    assert(t[k] == scans[k]);
                    assert(scanned_ids(t).contains(id));
                    let i = choose|i: int| 0 <= i < s.len() && s[i].identifier == id;
                    assert(r[i].identifier == id);
                } else {
                    if find(s, id) >= 0 {
                        assert(r[find(s, id)].identifier == id);
                    } else {
                        assert(r[s.len() as int].identifier == id);
                    }
                }
            }
        }
    }
}

/// Without saturation, the quantity held for an identifier is the sum of its deltas.
pub proof fn lemma_tally_is_delta_sum(scans: Seq<ScanEvent>, id: Seq<char>)
    requires
        id.len() > 0,
        sums_in_range(scans, id),
    ensures
        tally(replay(scans), id) == delta_sum(scans, id),
    decreases scans.len(),
{
    if scans.len() > 0 {
        let t = scans.drop_last();
        let l = scans.last();
        let s = replay(t);
        let r = replay(scans);
        assert forall|k: int| 0 <= k <= t.len() implies i64::MIN <= #[trigger] delta_sum(
            t.take(k),
            id,
        ) <= i64::MAX by {
            assert(t.take(k) =~= scans.take(k));
        }
        lemma_tally_is_delta_sum(t, id);
        assert(scans.take(scans.len() as int) =~= scans);
        assert(i64::MIN <= delta_sum(scans.take(scans.len() as int), id) <= i64::MAX);
        lemma_replay_ids(t);
        lemma_replay_ids(scans);
        lemma_find(s, id);
        lemma_find(s, l.identifier);
        lemma_find(r, id);
        if l.identifier == id {
            if find(s, id) >= 0 {
                assert(r[find(s, id)].identifier == id);
            } else {
                assert(r[s.len() as int].identifier == id);
            }
        } else if l.identifier.len() > 0 {
            if find(s, id) >= 0 {
                assert(r[find(s, id)] == s[find(s, id)]);
            } else {
                assert forall|i: int| 0 <= i < r.len() implies r[i].identifier != id by {
                    if i < s.len() && r[i] != s[i] {
                        assert(r[i].identifier == l.identifier);
                    }
                }
            }
        }
    }
}

/// The quantity that the report shows for an identifier is the sum of all deltas scanned for
/// it, as long as no running total leaves the range of `i64`.
pub proof fn lemma_reported_quantity_is_delta_sum(scans: Seq<ScanEvent>, id: Seq<char>)
    requires
        id.len() > 0,
        sums_in_range(scans, id),
    ensures
        forall|j: int|
            0 <= j < most_recent_first(replay(scans)).len()
                && #[trigger] most_recent_first(replay(scans))[j].identifier == id
                ==> most_recent_first(replay(scans))[j].quantity == delta_sum(scans, id),
{
    let s = replay(scans);
    let r = most_recent_first(s);
    lemma_tally_is_delta_sum(scans, id);
    lemma_replay_ids(scans);
    lemma_most_recent_first(s);
    lemma_find(s, id);
    assert forall|j: int| 0 <= j < r.len() && #[trigger] r[j].identifier == id implies r[j].quantity
        == delta_sum(scans, id) by {
        assert(r.contains(r[j]));
        let i = choose|i: int| 0 <= i < s.len() && s[i] == r[j];
        assert(find(s, id) == i);
    }
}

/// The report names each distinct non-blank scanned identifier exactly once, and no other.
pub proof fn lemma_report_ids_are_scanned_ids(scans: Seq<ScanEvent>)
    ensures
        report_ids(replay(scans)).no_duplicates(),
        report_ids(replay(scans)).to_set() == scanned_ids(scans),
{
    let s = replay(scans);
    let r = most_recent_first(s);
    let ids = report_ids(s);
    lemma_replay_ids(scans);
    lemma_most_recent_first(s);
    assert forall|i: int, j: int| 0 <= i < ids.len() && 0 <= j < ids.len() && i != j implies ids[i]
        != ids[j] by {
        assert(ids[i] == r[i].identifier);
        assert(ids[j] == r[j].identifier);
    }
    assert forall|id: Seq<char>| #[trigger] ids.to_set().contains(id) <==> scanned_ids(
        scans,
    ).contains(id) by {
        if ids.to_set().contains(id) {
            assert(ids.contains(id));
            let k = choose|k: int| 0 <= k < ids.len() && ids[k] == id;
            assert(r.contains(r[k]));
            let i = choose|i: int| 0 <= i < s.len() && s[i] == r[k];
            assert(s[i].identifier == id);
        }
        if scanned_ids(scans).contains(id) {
            let i = choose|i: int| 0 <= i < s.len() && s[i].identifier == id;
            assert(s.contains(s[i]));
            assert(r.contains(s[i]));
            let k = choose|k: int| 0 <= k < r.len() && r[k] == s[i];
            assert(ids[k] == r[k].identifier);
            assert(ids[k] == id);
            assert(ids.contains(id));
        }
    }
    assert(ids.to_set() =~= scanned_ids(scans));
}

} // verus!
