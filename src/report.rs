use vstd::prelude::*;

use crate::decimal::{int_text, push_int_text};
use crate::ledger::{entries_view, find, ids_unique, lemma_find, EntryView, LedgerEntry};
use vstd::seq_lib::lemma_seq_contains_after_push;

verus! {

/// Places `e` into `s` after every entry touched no later than `e`.
pub open spec fn insert_by_time(s: Seq<EntryView>, e: EntryView) -> Seq<EntryView>
    decreases s.len(),
{
    if s.len() == 0 || s.last().last_touched <= e.last_touched {
        s.push(e)
    } else {
        insert_by_time(s.drop_last(), e).push(s.last())
    }
}

/// Stable sort by ascending time of last scan: entries touched at the same time keep their
/// relative order.
pub open spec fn by_time(s: Seq<EntryView>) -> Seq<EntryView>
    decreases s.len(),
{
    if s.len() == 0 {
        s
    } else {
        insert_by_time(by_time(s.drop_last()), s.last())
    }
}

/// Order of the report: the stable ascending sort by time, reversed.
pub open spec fn most_recent_first(s: Seq<EntryView>) -> Seq<EntryView> {
    let a = by_time(s);
    Seq::new(a.len(), |k: int| a[a.len() - 1 - k])
}

/// One report line: identifier, a tab, the quantity in decimal, a newline.
pub open spec fn line(e: EntryView) -> Seq<char> {
    e.identifier + seq!['\t'] + int_text(e.quantity) + seq!['\n']
}

/// The lines of the entries of `s`, in order.
pub open spec fn lines(s: Seq<EntryView>) -> Seq<char>
    decreases s.len(),
{
    if s.len() == 0 {
        Seq::empty()
    } else {
        lines(s.drop_last()) + line(s.last())
    }
}

/// Text of the report on a ledger.
pub open spec fn report_text(s: Seq<EntryView>) -> Seq<char> {
    lines(most_recent_first(s))
}

/// Insertion adds one entry.
pub proof fn lemma_insert_by_time_len(s: Seq<EntryView>, e: EntryView)
    ensures
        insert_by_time(s, e).len() == s.len() + 1,
    decreases s.len(),
{
    if s.len() > 0 {
        lemma_insert_by_time_len(s.drop_last(), e);
    }
}

/// Sorting keeps the number of entries.
pub proof fn lemma_by_time_len(s: Seq<EntryView>)
    ensures
        by_time(s).len() == s.len(),
    decreases s.len(),
{
    if s.len() > 0 {
        lemma_by_time_len(s.drop_last());
        lemma_insert_by_time_len(by_time(s.drop_last()), s.last());
    }
}

/// Entries in ascending order of last scan.
pub open spec fn ascending_by_time(s: Seq<EntryView>) -> bool {
    forall|i: int, j: int| 0 <= i < j < s.len() ==> s[i].last_touched <= s[j].last_touched
}

/// Insertion keeps the entries it was given and adds `e`.
pub proof fn lemma_insert_by_time_contents(s: Seq<EntryView>, e: EntryView)
    ensures
        forall|x: EntryView| #[trigger] insert_by_time(s, e).contains(x) <==> (s.contains(x) || x == e),
    decreases s.len(),
{
    broadcast use lemma_seq_contains_after_push;

    if s.len() > 0 && s.last().last_touched > e.last_touched {
        let t = s.drop_last();
        lemma_insert_by_time_contents(t, e);
        assert(s =~= t.push(s.last()));
        assert forall|x: EntryView| #[trigger]
            insert_by_time(s, e).contains(x) <==> (s.contains(x) || x == e) by {
            assert(insert_by_time(s, e) == insert_by_time(t, e).push(s.last()));
        }
    } else {
        assert forall|x: EntryView| #[trigger]
            insert_by_time(s, e).contains(x) <==> (s.contains(x) || x == e) by {
            assert(insert_by_time(s, e) == s.push(e));
        }
    }
}

/// Sorting keeps exactly the entries it was given.
pub proof fn lemma_by_time_contents(s: Seq<EntryView>)
    ensures
        forall|x: EntryView| #[trigger] by_time(s).contains(x) <==> s.contains(x),
    decreases s.len(),
{
    broadcast use lemma_seq_contains_after_push;

    if s.len() > 0 {
        lemma_by_time_contents(s.drop_last());
        lemma_insert_by_time_contents(by_time(s.drop_last()), s.last());
        assert(s =~= s.drop_last().push(s.last()));
    }
}

/// Inserting an entry with a new identifier keeps identifiers unique.
proof fn lemma_insert_by_time_unique(s: Seq<EntryView>, e: EntryView)
    requires
        ids_unique(s),
        forall|i: int| 0 <= i < s.len() ==> s[i].identifier != e.identifier,
    ensures
        ids_unique(insert_by_time(s, e)),
    decreases s.len(),
{
    lemma_insert_by_time_len(s, e);
    if s.len() > 0 && s.last().last_touched > e.last_touched {
        let t = s.drop_last();
        let l = s.last();
        lemma_insert_by_time_unique(t, e);
        lemma_insert_by_time_contents(t, e);
        lemma_insert_by_time_len(t, e);
        let r = insert_by_time(t, e);
        assert forall|k: int| 0 <= k < r.len() implies r[k].identifier != l.identifier by {
            assert(r.contains(r[k]));
            if t.contains(r[k]) {
                let j = choose|j: int| 0 <= j < t.len() && t[j] == r[k];
                assert(s[j] == t[j]);
            }
        }
        assert(insert_by_time(s, e) == r.push(l));
    }
}

/// Sorting keeps identifiers unique.
pub proof fn lemma_by_time_unique(s: Seq<EntryView>)
    requires
        ids_unique(s),
    ensures
        ids_unique(by_time(s)),
    decreases s.len(),
{
    if s.len() > 0 {
        let t = s.drop_last();
        assert(ids_unique(t)) by {
            assert(forall|i: int| 0 <= i < t.len() ==> t[i] == s[i]);
        }
        lemma_by_time_unique(t);
        lemma_by_time_contents(t);
        let b = by_time(t);
        assert forall|k: int| 0 <= k < b.len() implies b[k].identifier != s.last().identifier by {
            assert(b.contains(b[k]));
            let j = choose|j: int| 0 <= j < t.len() && t[j] == b[k];
            assert(s[j] == t[j]);
        }
        lemma_insert_by_time_unique(b, s.last());
    }
}

/// Insertion into an ascending sequence keeps it ascending.
proof fn lemma_insert_by_time_ascending(s: Seq<EntryView>, e: EntryView)
    requires
        ascending_by_time(s),
    ensures
        ascending_by_time(insert_by_time(s, e)),
    decreases s.len(),
{
    lemma_insert_by_time_len(s, e);
    if s.len() > 0 && s.last().last_touched > e.last_touched {
        let t = s.drop_last();
        let l = s.last();
        lemma_insert_by_time_ascending(t, e);
        lemma_insert_by_time_contents(t, e);
        lemma_insert_by_time_len(t, e);
        let r = insert_by_time(t, e);
        assert forall|k: int| 0 <= k < r.len() implies r[k].last_touched <= l.last_touched by {
            assert(r.contains(r[k]));
            if t.contains(r[k]) {
                let j = choose|j: int| 0 <= j < t.len() && t[j] == r[k];
                assert(s[j] == t[j]);
            }
        }
        assert(insert_by_time(s, e) == r.push(l));
    }
}

/// The stable sort orders entries by ascending time of last scan.
pub proof fn lemma_by_time_ascending(s: Seq<EntryView>)
    ensures
        ascending_by_time(by_time(s)),
    decreases s.len(),
{
    if s.len() > 0 {
        lemma_by_time_ascending(s.drop_last());
        lemma_insert_by_time_ascending(by_time(s.drop_last()), s.last());
    }
}

/// Entries with equal times of last scan are in ascending order of `f`.
pub open spec fn ties_ordered_by(s: Seq<EntryView>, f: spec_fn(EntryView) -> int) -> bool {
    forall|i: int, j: int|
        0 <= i < j < s.len() && s[i].last_touched == s[j].last_touched ==> f(s[i]) < f(s[j])
}

/// Insertion of an entry that ranks above all others keeps ties in order.
proof fn lemma_insert_by_time_ties(s: Seq<EntryView>, e: EntryView, f: spec_fn(EntryView) -> int)
    requires
        ties_ordered_by(s, f),
        forall|i: int| 0 <= i < s.len() ==> f(s[i]) < f(e),
    ensures
        ties_ordered_by(insert_by_time(s, e), f),
    decreases s.len(),
{
    lemma_insert_by_time_len(s, e);
    if s.len() > 0 && s.last().last_touched > e.last_touched {
        let t = s.drop_last();
        let l = s.last();
        lemma_insert_by_time_ties(t, e, f);
        lemma_insert_by_time_contents(t, e);
        lemma_insert_by_time_len(t, e);
        let r = insert_by_time(t, e);
        assert forall|k: int|
            0 <= k < r.len() && r[k].last_touched == l.last_touched implies f(r[k]) < f(l) by {
            assert(r.contains(r[k]));
            let j = choose|j: int| 0 <= j < t.len() && t[j] == r[k];
            assert(s[j] == t[j]);
        }
        assert(insert_by_time(s, e) == r.push(l));
    }
}

/// The sort is stable: entries scanned at the same time keep their order in the ledger.
pub proof fn lemma_by_time_stable(s: Seq<EntryView>)
    requires
        ids_unique(s),
    ensures
        forall|i: int, j: int|
            0 <= i < j < by_time(s).len() && by_time(s)[i].last_touched == by_time(
                s,
            )[j].last_touched ==> find(s, #[trigger] by_time(s)[i].identifier) < find(
                s,
                #[trigger] by_time(s)[j].identifier,
            ),
{
    let f = |x: EntryView| find(s, x.identifier);
    assert forall|i: int, j: int| 0 <= i < j < s.len() implies f(s[i]) < f(s[j]) by {
        lemma_find(s, s[i].identifier);
        lemma_find(s, s[j].identifier);
    }
    lemma_by_time_ties(s, f);
}

proof fn lemma_by_time_ties(s: Seq<EntryView>, f: spec_fn(EntryView) -> int)
    requires
        forall|i: int, j: int| 0 <= i < j < s.len() ==> f(s[i]) < f(s[j]),
    ensures
        ties_ordered_by(by_time(s), f),
    decreases s.len(),
{
    if s.len() > 0 {
        let t = s.drop_last();
        assert forall|i: int, j: int| 0 <= i < j < t.len() implies f(t[i]) < f(t[j]) by {
            assert(t[i] == s[i] && t[j] == s[j]);
        }
        lemma_by_time_ties(t, f);
        lemma_by_time_contents(t);
        let b = by_time(t);
        assert forall|k: int| 0 <= k < b.len() implies f(b[k]) < f(s.last()) by {
            assert(b.contains(b[k]));
            let j = choose|j: int| 0 <= j < t.len() && t[j] == b[k];
            assert(s[j] == t[j]);
        }
        lemma_insert_by_time_ties(b, s.last(), f);
    }
}

/// The report lists exactly the entries of the ledger, each identifier once, with the most
/// recently scanned entries first.
pub proof fn lemma_most_recent_first(s: Seq<EntryView>)
    ensures
        most_recent_first(s).len() == s.len(),
        forall|x: EntryView| #[trigger] most_recent_first(s).contains(x) <==> s.contains(x),
        ids_unique(s) ==> ids_unique(most_recent_first(s)),
        forall|i: int, j: int|
            0 <= i < j < s.len() ==> #[trigger] most_recent_first(s)[i].last_touched
                >= #[trigger] most_recent_first(s)[j].last_touched,
{
    let a = by_time(s);
    let r = most_recent_first(s);
    lemma_by_time_len(s);
    lemma_by_time_contents(s);
    lemma_by_time_ascending(s);
    let n = a.len();
    assert forall|x: EntryView| #[trigger] r.contains(x) <==> s.contains(x) by {
        if r.contains(x) {
            let k = choose|k: int| 0 <= k < r.len() && r[k] == x;
            assert(a[n - 1 - k] == x);
            assert(a.contains(x));
        }
        if s.contains(x) {
            assert(a.contains(x));
            let k = choose|k: int| 0 <= k < a.len() && a[k] == x;
            assert(r[n - 1 - k] == x);
        }
    }
    if ids_unique(s) {
        lemma_by_time_unique(s);
        assert forall|i: int, j: int|
            0 <= i < r.len() && 0 <= j < r.len() && i != j implies r[i].identifier
            != r[j].identifier by {
            assert(r[i] == a[n - 1 - i]);
            assert(r[j] == a[n - 1 - j]);
        }
    }
    assert forall|i: int, j: int| 0 <= i < j < s.len() implies #[trigger] r[i].last_touched
        >= #[trigger] r[j].last_touched by {
        assert(r[i] == a[n - 1 - i]);
        assert(r[j] == a[n - 1 - j]);
    }
}

/// Inserting into a prefix that ends with a later entry moves that entry behind `e`.
proof fn lemma_insert_step(v: Seq<EntryView>, e: EntryView, p: int)
    requires
        0 < p <= v.len(),
        v[p - 1].last_touched > e.last_touched,
    ensures
        insert_by_time(v.take(p), e) + v.skip(p) == insert_by_time(v.take(p - 1), e) + v.skip(
            p - 1,
        ),
{
    assert(v.take(p).drop_last() =~= v.take(p - 1));
    assert(insert_by_time(v.take(p), e) == insert_by_time(v.take(p - 1), e).push(v[p - 1]));
    assert(insert_by_time(v.take(p - 1), e).push(v[p - 1]) + v.skip(p) =~= insert_by_time(
        v.take(p - 1),
        e,
    ) + v.skip(p - 1));
}

/// Indices of `input`, stably sorted by ascending time of last scan.
fn order_by_time(input: &Vec<LedgerEntry>) -> (r: Vec<usize>)
    ensures
        r@.len() == input@.len(),
        forall|k: int| 0 <= k < r@.len() ==> r@[k] < input@.len(),
        r@.map_values(|i: usize| input@[i as int]@) == by_time(entries_view(input@)),
{
    let ghost view = entries_view(input@);
    let mut sorted: Vec<usize> = Vec::new();
    let n = input.len();
    let mut i: usize = 0;
    assert(view.take(0) =~= Seq::<EntryView>::empty());
    assert(sorted@.map_values(|i: usize| input@[i as int]@) =~= Seq::<EntryView>::empty());
    while i < n
        invariant
            n == input@.len(),
            view == entries_view(input@),
            i <= n,
            sorted@.len() == i,
            forall|k: int| 0 <= k < sorted@.len() ==> sorted@[k] < n,
            sorted@.map_values(|i: usize| input@[i as int]@) == by_time(view.take(i as int)),
        decreases n - i,
    {
        let t = input[i].last_touched;
        let ghost e = view[i as int];
        let ghost v = sorted@.map_values(|i: usize| input@[i as int]@);
        let mut p = sorted.len();
        assert(v.take(p as int) =~= v);
        assert(insert_by_time(v, e) =~= insert_by_time(v.take(p as int), e) + v.skip(p as int));
        while p > 0 && input[sorted[p - 1]].last_touched > t
            invariant
                n == input@.len(),
                view == entries_view(input@),
                i < n,
                e == view[i as int],
                t == e.last_touched,
                p <= sorted@.len(),
                forall|k: int| 0 <= k < sorted@.len() ==> sorted@[k] < n,
                v == sorted@.map_values(|i: usize| input@[i as int]@),
                insert_by_time(v, e) == insert_by_time(v.take(p as int), e) + v.skip(p as int),
            decreases p,
        {
            proof {
                lemma_insert_step(v, e, p as int);
            }
            p = p - 1;
        }
        assert(insert_by_time(v.take(p as int), e) == v.take(p as int).push(e));
        sorted.insert(p, i);
        proof {
            let w = view.take(i as int + 1);
            assert(w.drop_last() =~= view.take(i as int));
            assert(sorted@.map_values(|i: usize| input@[i as int]@) =~= v.take(p as int).push(e)
                + v.skip(p as int));
        }
        i = i + 1;
    }
    assert(view.take(n as int) =~= view);
    sorted
}

/// Renders entries as report lines, most recently scanned first: a stable sort by ascending
/// time, then reversed. Each line holds the identifier, a tab, the quantity and a newline.
pub fn make_display_string(input: &Vec<LedgerEntry>) -> (r: String)
    ensures
        r@ == report_text(entries_view(input@)),
{
    let ghost view = entries_view(input@);
    let order = order_by_time(input);
    let ghost target = most_recent_first(view);
    proof {
        lemma_by_time_len(view);
    }
    let n = order.len();
    let mut out = String::new();
    let mut k: usize = 0;
    assert(target.take(0) =~= Seq::<EntryView>::empty());
    while k < n
        invariant
            n == order@.len(),
            n == input@.len(),
            target.len() == n,
            view == entries_view(input@),
            target == most_recent_first(view),
            forall|j: int| 0 <= j < order@.len() ==> order@[j] < input@.len(),
            order@.map_values(|i: usize| input@[i as int]@) == by_time(view),
            k <= n,
            out@ == lines(target.take(k as int)),
        decreases n - k,
    {
        let idx = order[n - 1 - k];
        let entry = &input[idx];
        proof {
            assert(by_time(view)[n - 1 - k] == input@[idx as int]@);
            assert(target[k as int] == entry@);
            reveal_strlit("\t");
            reveal_strlit("\n");
        }
        out.append(entry.identifier.as_str());
        out.append("\t");
        push_int_text(&mut out, entry.quantity);
        out.append("\n");
        proof {
            assert(target.take(k as int + 1).drop_last() =~= target.take(k as int));
            assert(out@ =~= lines(target.take(k as int + 1)));
        }
        k = k + 1;
    }
    assert(target.take(n as int) =~= target);
    out
}

} // verus!
