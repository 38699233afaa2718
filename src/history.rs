//! Usage history: how often each command was launched, forgiven over time.
use vstd::prelude::*;
use crate::selection::Element;

verus! {

/// One launched command and how often it was launched.
#[derive(Debug, Clone, PartialEq, Eq)]
pub struct HistoryEntry {
    pub name: String,
    pub value: String,
    pub num_used: usize,
}

/// The model of a `HistoryEntry`.
pub struct UsageRecord {
    pub name: Seq<char>,
    pub value: Seq<char>,
    pub num_used: nat,
}

impl View for HistoryEntry {
    type V = UsageRecord;

    open spec fn view(&self) -> UsageRecord {
        UsageRecord { name: self.name@, value: self.value@, num_used: self.num_used as nat }
    }
}

pub open spec fn records_of(entries: Seq<HistoryEntry>) -> Seq<UsageRecord> {
    entries.map_values(|e: HistoryEntry| e@)
}

/// The usage history, bound to the path of the store it was read from and is
/// written to. No record has a count of zero.
#[derive(Debug)]
pub struct History {
    entries: Vec<HistoryEntry>,
    path: String,
}

impl View for History {
    type V = Seq<UsageRecord>;

    closed spec fn view(&self) -> Seq<UsageRecord> {
        records_of(self.entries@)
    }
}

/// No record has a count of zero.
pub open spec fn counts_positive(rs: Seq<UsageRecord>) -> bool {
    forall|i: int| 0 <= i < rs.len() ==> #[trigger] rs[i].num_used > 0
}

/// The records left after `d` decay windows: each count lowered by `d`, and the
/// records whose count reaches zero dropped.
pub open spec fn decayed(rs: Seq<UsageRecord>, d: nat) -> Seq<UsageRecord> {
    rs.filter_map(|r: UsageRecord| decay_record(r, d))
}

/// One record after `d` decay windows, or none where its count reaches zero.
pub open spec fn decay_record(r: UsageRecord, d: nat) -> Option<UsageRecord> {
    if r.num_used > d {
        Some(UsageRecord { num_used: (r.num_used - d) as nat, ..r })
    } else {
        None
    }
}

/// The number of whole decay windows of `decrease_interval` hours between the
/// moments `modified` and `now`, in seconds since the epoch; zero where the
/// interval is zero or `now` does not come later.
pub open spec fn decay_windows_spec(now: nat, modified: nat, decrease_interval: nat) -> nat {
    if decrease_interval == 0 {
        0
    } else {
        let w = 3600 * decrease_interval;
        if now / w >= modified / w {
            (now / w - modified / w) as nat
        } else {
            0
        }
    }
}

/// The number of whole decay windows elapsed between `modified` and `now`.
pub fn decay_windows(now: u64, modified: u64, decrease_interval: u64) -> (r: u64)
    ensures
        r == decay_windows_spec(now as nat, modified as nat, decrease_interval as nat),
{
    if decrease_interval == 0 {
        return 0;
    }
    let w: u128 = 3600 * decrease_interval as u128;
    let a = now as u128 / w;
    let b = modified as u128 / w;
    assert(a <= now) by (nonlinear_arith)
        requires
            a == now as u128 / w,
            w >= 1,
    ;
    if a >= b {
        (a - b) as u64
    } else {
        0
    }
}

/// The first position in `rs` of a record named `name`, or the length of `rs`
/// where there is none.
pub open spec fn record_index(rs: Seq<UsageRecord>, name: Seq<char>) -> int
    decreases rs.len(),
{
    if rs.len() == 0 {
        0
    } else if rs[0].name == name {
        0
    } else {
        1 + record_index(rs.drop_first(), name)
    }
}

/// The records after one launch of `name` with `value`: the first record of that
/// name counts one more and takes the new value; where there is none, a record
/// with a count of one is added.
pub open spec fn incremented(rs: Seq<UsageRecord>, name: Seq<char>, value: Seq<char>) -> Seq<
    UsageRecord,
> {
    let i = record_index(rs, name);
    if i < rs.len() {
        rs.update(i, UsageRecord { name: rs[i].name, value, num_used: rs[i].num_used + 1 })
    } else {
        rs.push(UsageRecord { name, value, num_used: 1 })
    }
}

/// How often `name` was launched: the count of its first record, or zero.
pub open spec fn count_of(rs: Seq<UsageRecord>, name: Seq<char>) -> nat {
    let i = record_index(rs, name);
    if i < rs.len() {
        rs[i].num_used
    } else {
        0
    }
}

proof fn lemma_record_index(rs: Seq<UsageRecord>, name: Seq<char>, i: int)
    requires
        0 <= i <= rs.len(),
        forall|k: int| 0 <= k < i ==> (#[trigger] rs[k]).name != name,
        i == rs.len() || rs[i].name == name,
    ensures
        record_index(rs, name) == i,
    decreases i,
{
    if i > 0 {
        let t = rs.drop_first();
        assert forall|k: int| 0 <= k < i - 1 implies (#[trigger] t[k]).name != name by {
            assert(t[k] == rs[k + 1]);
        }
        lemma_record_index(t, name, i - 1);
    }
}

proof fn lemma_record_index_facts(rs: Seq<UsageRecord>, name: Seq<char>)
    ensures
        0 <= record_index(rs, name) <= rs.len(),
        forall|k: int| 0 <= k < record_index(rs, name) ==> (#[trigger] rs[k]).name != name,
        record_index(rs, name) < rs.len() ==> rs[record_index(rs, name)].name == name,
    decreases rs.len(),
{
    if rs.len() > 0 && rs[0].name != name {
        let t = rs.drop_first();
        lemma_record_index_facts(t, name);
        assert forall|k: int| 0 <= k < record_index(rs, name) implies (#[trigger] rs[k]).name
            != name by {
            if k > 0 {
                assert(rs[k] == t[k - 1]);
            }
        }
    }
}

proof fn lemma_count_incremented(rs: Seq<UsageRecord>, name: Seq<char>, value: Seq<char>)
    ensures
        count_of(incremented(rs, name, value), name) == count_of(rs, name) + 1,
        counts_positive(rs) ==> counts_positive(incremented(rs, name, value)),
{
    lemma_record_index_facts(rs, name);
    let i = record_index(rs, name);
    let t = incremented(rs, name, value);
    if i < rs.len() {
        assert forall|k: int| 0 <= k < i implies (#[trigger] t[k]).name != name by {
            assert(t[k] == rs[k]);
        }
        lemma_record_index(t, name, i);
    } else {
        assert forall|k: int| 0 <= k < i implies (#[trigger] t[k]).name != name by {
            assert(t[k] == rs[k]);
        }
        lemma_record_index(t, name, i);
    }
}

proof fn lemma_decay_zero(rs: Seq<UsageRecord>)
    requires
        counts_positive(rs),
    ensures
        decayed(rs, 0) == rs,
    decreases rs.len(),
{
    if rs.len() > 0 {
        let t = rs.drop_last();
        assert forall|i: int| 0 <= i < t.len() implies #[trigger] t[i].num_used > 0 by {
            assert(t[i] == rs[i]);
        }
        lemma_decay_zero(t);
        assert(decay_record(rs.last(), 0) == Some(rs.last()));
        assert(rs =~= t + seq![rs.last()]);
    }
}

/// The records after `k` launches of `name` with `value`.
pub open spec fn incremented_times(rs: Seq<UsageRecord>, name: Seq<char>, value: Seq<char>, k: nat)
    -> Seq<UsageRecord>
    decreases k,
{
    if k == 0 {
        rs
    } else {
        incremented(incremented_times(rs, name, value, (k - 1) as nat), name, value)
    }
}

/// Launching `name` `k` times, then writing the records and loading them back
/// without decay, leaves `name` with `k` more launches than it had.
pub proof fn lemma_increment_round_trip(
    rs: Seq<UsageRecord>,
    name: Seq<char>,
    value: Seq<char>,
    k: nat,
)
    requires
        counts_positive(rs),
    ensures
        count_of(decayed(incremented_times(rs, name, value, k), 0), name) == count_of(rs, name) + k,
    decreases k,
{
    if k > 0 {
        lemma_increment_round_trip(rs, name, value, (k - 1) as nat);
        lemma_increments_keep_counts_positive(rs, name, value, (k - 1) as nat);
        let prev = incremented_times(rs, name, value, (k - 1) as nat);
        lemma_decay_zero(prev);
        lemma_count_incremented(prev, name, value);
    }
    lemma_increments_keep_counts_positive(rs, name, value, k);
    lemma_decay_zero(incremented_times(rs, name, value, k));
}

proof fn lemma_increments_keep_counts_positive(
    rs: Seq<UsageRecord>,
    name: Seq<char>,
    value: Seq<char>,
    k: nat,
)
    requires
        counts_positive(rs),
    ensures
        counts_positive(incremented_times(rs, name, value, k)),
    decreases k,
{
    if k > 0 {
        lemma_increments_keep_counts_positive(rs, name, value, (k - 1) as nat);
        lemma_count_incremented(incremented_times(rs, name, value, (k - 1) as nat), name, value);
    }
}

/// After `d` decay windows no record is left with a count of zero: each record
/// keeps its count less `d` where that is positive (see `decay_record`), and is
/// dropped otherwise.
pub proof fn lemma_decay_law(rs: Seq<UsageRecord>, d: nat)
    ensures
        counts_positive(decayed(rs, d)),
    decreases rs.len(),
{
    if rs.len() > 0 {
        let t = rs.drop_last();
        lemma_decay_law(t, d);
        assert(rs.drop_last() == t);
    }
}

impl History {
    #[verifier::type_invariant]
    spec fn inv(&self) -> bool {
        counts_positive(records_of(self.entries@))
    }

    /// The records, in their order.
    pub fn as_vec(&self) -> (r: &Vec<HistoryEntry>)
        ensures
            records_of(r@) == self@,
    {
        &self.entries
    }

    /// The path of the backing store.
    pub closed spec fn store_path(&self) -> Seq<char> {
        self.path@
    }

    /// The path of the backing store.
    pub fn path(&self) -> (r: &String)
        ensures
            r@ == self.store_path(),
    {
        &self.path
    }

    /// The history that loading a store holding `records` gives, when it was last
    /// written `elapsed` decay windows ago: every count lowered by `elapsed`, and
    /// the records that reach zero dropped.
    pub fn restore(path: String, records: Vec<HistoryEntry>, elapsed: u64) -> (r: History)
        ensures
            r@ == decayed(records_of(records@), elapsed as nat),
            counts_positive(r@),
            r.store_path() == path@,
    {
        let mut entries: Vec<HistoryEntry> = Vec::new();
        let ghost rs = records_of(records@);
        for e in it: records
            invariant
                rs == records_of(it.seq()),
                records_of(entries@) == decayed(rs.take(it.index() as int), elapsed as nat),
                counts_positive(records_of(entries@)),
        {
            let ghost before = entries@;
            let ghost ev = e@;
            proof {
                let t = rs.take(it.index() + 1);
                assert(t.drop_last() =~= rs.take(it.index() as int));
                assert(t.last() == e@);
            }
            if e.num_used as u128 > elapsed as u128 {
                let kept = HistoryEntry {
                    name: e.name,
                    value: e.value,
                    num_used: e.num_used - elapsed as usize,
                };
                assert(decay_record(ev, elapsed as nat) == Some(kept@));
                entries.push(kept);
                proof {
                    assert(entries@ == before.push(kept));
                    assert(records_of(entries@) =~= records_of(before) + seq![kept@]);
                }
            }
            assert(records_of(entries@) =~= decayed(rs.take(it.index() + 1), elapsed as nat));
        }
        assert(rs.take(rs.len() as int) =~= rs);
        History { entries, path }
    }

    /// Records one launch of `element`: the first record of its name counts one
    /// more and takes its value; where there is none, a record with a count of one
    /// is added.
    pub fn inc(&mut self, element: &Element)
        requires
            count_of(old(self)@, element.name@) < usize::MAX,
        ensures
            final(self)@ == incremented(old(self)@, element.name@, element.value@),
            final(self).store_path() == old(self).store_path(),
    {
        proof {
            use_type_invariant(&*self);
        }
        let ghost rs = self@;
        let mut entries: Vec<HistoryEntry> = Vec::new();
        core::mem::swap(&mut entries, &mut self.entries);
        let n = entries.len();
        let mut i: usize = 0;
        while i < n && entries[i].name != element.name
            invariant
                i <= n == entries.len(),
                forall|k: int| 0 <= k < i ==> (#[trigger] entries@[k]).name@ != element.name@,
            decreases n - i,
        {
            i = i + 1;
        }
        proof {
            assert forall|k: int| 0 <= k < i implies (#[trigger] rs[k]).name != element.name@ by {
                assert(rs[k] == entries@[k]@);
            }
            lemma_record_index(rs, element.name@, i as int);
        }
        if i < n {
            let updated = HistoryEntry {
                name: entries[i].name.clone(),
                value: element.value.clone(),
                num_used: entries[i].num_used + 1,
            };
            entries.set(i, updated);
        } else {
            let added = HistoryEntry {
                name: element.name.clone(),
                value: element.value.clone(),
                num_used: 1,
            };
            entries.push(added);
        }
        assert(records_of(entries@) =~= incremented(rs, element.name@, element.value@));
        core::mem::swap(&mut entries, &mut self.entries);
    }
}

} // verus!
