use vstd::prelude::*;

use crate::report::{make_display_string, report_text};

verus! {

/// One tallied item: its identifier, running quantity and time of last scan.
pub struct LedgerEntry {
    pub identifier: String,
    pub quantity: i64,
    pub last_touched: u64,
}

/// Mathematical model of a ledger entry.
pub struct EntryView {
    pub identifier: Seq<char>,
    pub quantity: int,
    pub last_touched: nat,
}

impl View for LedgerEntry {
    type V = EntryView;

    open spec fn view(&self) -> EntryView {
        EntryView {
            identifier: self.identifier@,
            quantity: self.quantity as int,
            last_touched: self.last_touched as nat,
        }
    }
}

/// The models of a sequence of entries.
pub open spec fn entries_view(v: Seq<LedgerEntry>) -> Seq<EntryView> {
    v.map_values(|e: LedgerEntry| e@)
}

/// Clamps an integer into the range of `i64`: the quantity saturates instead of wrapping.
pub open spec fn saturate(x: int) -> int {
    if x > i64::MAX {
        i64::MAX as int
    } else if x < i64::MIN {
        i64::MIN as int
    } else {
        x
    }
}

/// Index of the last entry with identifier `id`, or -1 when there is none.
pub open spec fn find(s: Seq<EntryView>, id: Seq<char>) -> int
    decreases s.len(),
{
    if s.len() == 0 {
        -1
    } else if s.last().identifier == id {
        s.len() - 1
    } else {
        find(s.drop_last(), id)
    }
}

/// No identifier occurs twice.
pub open spec fn ids_unique(s: Seq<EntryView>) -> bool {
    forall|i: int, j: int|
        0 <= i < s.len() && 0 <= j < s.len() && i != j ==> s[i].identifier != s[j].identifier
}

/// Identifiers are unique and never empty.
pub open spec fn well_formed(s: Seq<EntryView>) -> bool {
    &&& ids_unique(s)
    &&& forall|i: int| 0 <= i < s.len() ==> s[i].identifier.len() > 0
}

/// The ledger after one scan of `id` with `delta` at time `now`. A blank identifier changes
/// nothing; a known identifier accumulates its quantity; a new one is appended.
pub open spec fn scan(s: Seq<EntryView>, id: Seq<char>, delta: int, now: nat) -> Seq<EntryView> {
    if id.len() == 0 {
        s
    } else if find(s, id) >= 0 {
        let i = find(s, id);
        s.update(
            i,
            EntryView { identifier: id, quantity: saturate(s[i].quantity + delta), last_touched: now },
        )
    } else {
        s.push(EntryView { identifier: id, quantity: saturate(delta), last_touched: now })
    }
}

/// `find` yields the index of an entry with the identifier, or -1 exactly when none has it;
/// with unique identifiers that index is the only one.
pub proof fn lemma_find(s: Seq<EntryView>, id: Seq<char>)
    ensures
        -1 <= find(s, id) < s.len(),
        find(s, id) >= 0 ==> s[find(s, id)].identifier == id,
        find(s, id) == -1 <==> forall|i: int| 0 <= i < s.len() ==> s[i].identifier != id,
        ids_unique(s) ==> forall|i: int|
            0 <= i < s.len() && s[i].identifier == id ==> find(s, id) == i,
    decreases s.len(),
{
    if s.len() > 0 {
        let t = s.drop_last();
        lemma_find(t, id);
        assert(forall|i: int| 0 <= i < t.len() ==> t[i] == s[i]);
    }
}

/// A scan keeps identifiers unique and non-empty.
pub proof fn lemma_scan_well_formed(s: Seq<EntryView>, id: Seq<char>, delta: int, now: nat)
    requires
        well_formed(s),
    ensures
        well_formed(scan(s, id, delta, now)),
{
    lemma_find(s, id);
}

/// The inventory ledger: one entry per distinct scanned identifier.
pub struct Ledger {
    entries: Vec<LedgerEntry>,
}

impl View for Ledger {
    type V = Seq<EntryView>;

    closed spec fn view(&self) -> Seq<EntryView> {
        entries_view(self.entries@)
    }
}

impl Ledger {
    /// Identifiers are unique and never empty: established by `new`, kept by `record_scan`.
    pub open spec fn wf(&self) -> bool {
        well_formed(self@)
    }

    /// An empty ledger.
    pub fn new() -> (r: Ledger)
        ensures
            r.wf(),
            r@ == Seq::<EntryView>::empty(),
    {
        let r = Ledger { entries: Vec::new() };
        assert(r@ =~= Seq::<EntryView>::empty());
        r
    }

    /// Position of the entry for `id`, if any.
    fn position(&self, id: &String) -> (r: Option<usize>)
        requires
            self.wf(),
        ensures
            match r {
                Some(i) => i == find(self@, id@) && i < self@.len(),
                None => find(self@, id@) == -1,
            },
    {
        let mut i: usize = 0;
        while i < self.entries.len()
            invariant
                i <= self.entries.len(),
                well_formed(self@),
                self@.len() == self.entries.len(),
                forall|k: int| 0 <= k < i ==> self@[k].identifier != id@,
            decreases self.entries.len() - i,
        {
            assert(self@[i as int] == self.entries@[i as int]@);
            if self.entries[i].identifier == *id {
                proof {
                    lemma_find(self@, id@);
                }
                return Some(i);
            }
            i = i + 1;
        }
        proof {
            lemma_find(self@, id@);
        }
        None
    }

    /// Looks up the entry for `identifier`.
    pub fn get(&self, identifier: &str) -> (r: Option<&LedgerEntry>)
        requires
            self.wf(),
        ensures
            match r {
                Some(e) => find(self@, identifier@) >= 0 && e@ == self@[find(self@, identifier@)],
                None => find(self@, identifier@) == -1,
            },
    {
        let id = identifier.to_owned();
        match self.position(&id) {
            Some(i) => Some(&self.entries[i]),
            None => None,
        }
    }

    /// Records one scan of `identifier` with `quantity_delta` at time `now`. A blank
    /// identifier is ignored. The quantity saturates at the bounds of `i64`.
    pub fn record_scan(&mut self, identifier: &str, quantity_delta: i64, now: u64)
        requires
            old(self).wf(),
        ensures
            final(self).wf(),
            final(self)@ == scan(old(self)@, identifier@, quantity_delta as int, now as nat),
    {
        proof {
            lemma_scan_well_formed(self@, identifier@, quantity_delta as int, now as nat);
            lemma_find(self@, identifier@);
        }
        if identifier.is_empty() {
            return;
        }
        let id = identifier.to_owned();
        match self.position(&id) {
            Some(i) => {
                let sum: i128 = self.entries[i].quantity as i128 + quantity_delta as i128;
                let quantity: i64 = if sum > i64::MAX as i128 {
                    i64::MAX
                } else if sum < i64::MIN as i128 {
                    i64::MIN
                } else {
                    sum as i64
                };
                self.entries.set(i, LedgerEntry { identifier: id, quantity, last_touched: now });
            },
            None => {
                let quantity: i64 = quantity_delta;
                self.entries.push(LedgerEntry { identifier: id, quantity, last_touched: now });
            },
        }
        assert(self@ =~= scan(old(self)@, identifier@, quantity_delta as int, now as nat));
    }

    /// The report of the ledger: one line per entry, most recently scanned first.
    pub fn render(&self) -> (r: String)
        ensures
            r@ == report_text(self@),
    {
        make_display_string(&self.entries)
    }
}

} // verus!
