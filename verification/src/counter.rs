//! The counter store: the single source of truth mapping each caller address
//! (in canonical string form) to the number of recorded requests that carried
//! it. The store's mathematical value is the sequence of addresses recorded so
//! far, oldest first; the table it holds is proved to be exactly the table
//! that this history determines.

use vstd::prelude::*;

verus! {

/// One table entry: a caller address and its occurrence count.
pub struct CounterEntry {
    pub ip: String,
    pub count: u64,
}

/// How many records of `history` carry the address `ip`.
pub open spec fn count_of(history: Seq<Seq<char>>, ip: Seq<char>) -> nat
    decreases history.len(),
{
    if history.len() == 0 {
        0
    } else {
        count_of(history.drop_last(), ip) + (if history.last() == ip {
            1nat
        } else {
            0nat
        })
    }
}

/// The distinct addresses of `history`, in order of first occurrence.
pub open spec fn distinct_ips(history: Seq<Seq<char>>) -> Seq<Seq<char>>
    decreases history.len(),
{
    if history.len() == 0 {
        Seq::empty()
    } else {
        let rest = distinct_ips(history.drop_last());
        if rest.contains(history.last()) {
            rest
        } else {
            rest.push(history.last())
        }
    }
}

/// `snap` is exactly the counter table that the record history `history`
/// determines: one entry per distinct address, in order of first occurrence,
/// each entry counting the records that carry its address.
pub open spec fn is_table_of(snap: Seq<CounterEntry>, history: Seq<Seq<char>>) -> bool {
    &&& snap.len() == distinct_ips(history).len()
    &&& forall|i: int|
        0 <= i < snap.len() ==> (#[trigger] snap[i]).ip@ == distinct_ips(history)[i]
            && snap[i].count as nat == count_of(history, distinct_ips(history)[i])
}

/// Total of the counts of a table.
pub open spec fn sum_counts(snap: Seq<CounterEntry>) -> nat
    decreases snap.len(),
{
    if snap.len() == 0 {
        0
    } else {
        sum_counts(snap.drop_last()) + snap.last().count as nat
    }
}

/// No address occurs twice.
pub open spec fn no_dup(ips: Seq<Seq<char>>) -> bool {
    forall|i: int, j: int| 0 <= i < j < ips.len() ==> ips[i] != ips[j]
}

proof fn lemma_contains_push<A>(s: Seq<A>, x: A, y: A)
    ensures
        s.push(x).contains(y) <==> (s.contains(y) || y == x),
{
    if s.contains(y) {
        let i = choose|i: int| 0 <= i < s.len() && s[i] == y;
        assert(s.push(x)[i] == y);
    }
    assert(s.push(x)[s.len() as int] == x);
    if s.push(x).contains(y) && y != x {
        let i = choose|i: int| 0 <= i < s.push(x).len() && s.push(x)[i] == y;
        assert(s[i] == y);
    }
}

proof fn lemma_count_of_push(history: Seq<Seq<char>>, x: Seq<char>, ip: Seq<char>)
    ensures
        count_of(history.push(x), ip) == count_of(history, ip) + (if ip == x {
            1nat
        } else {
            0nat
        }),
{
    assert(history.push(x).drop_last() =~= history);
}

proof fn lemma_count_of_le_len(history: Seq<Seq<char>>, ip: Seq<char>)
    ensures
        count_of(history, ip) <= history.len(),
    decreases history.len(),
{
    if history.len() > 0 {
        lemma_count_of_le_len(history.drop_last(), ip);
    }
}

proof fn lemma_distinct_push(history: Seq<Seq<char>>, x: Seq<char>)
    ensures
        distinct_ips(history.push(x)) == (if distinct_ips(history).contains(x) {
            distinct_ips(history)
        } else {
            distinct_ips(history).push(x)
        }),
{
    assert(history.push(x).drop_last() =~= history);
}

proof fn lemma_distinct_contains(history: Seq<Seq<char>>, ip: Seq<char>)
    ensures
        distinct_ips(history).contains(ip) <==> count_of(history, ip) > 0,
    decreases history.len(),
{
    if history.len() > 0 {
        let h0 = history.drop_last();
        let x = history.last();
        assert(history =~= h0.push(x));
        lemma_distinct_contains(h0, ip);
        lemma_distinct_push(h0, x);
        lemma_count_of_push(h0, x, ip);
        if !distinct_ips(h0).contains(x) {
            lemma_contains_push(distinct_ips(h0), x, ip);
        }
    }
}

proof fn lemma_distinct_no_dup(history: Seq<Seq<char>>)
    ensures
        no_dup(distinct_ips(history)),
    decreases history.len(),
{
    if history.len() > 0 {
        let h0 = history.drop_last();
        let x = history.last();
        assert(history =~= h0.push(x));
        lemma_distinct_no_dup(h0);
        lemma_distinct_push(h0, x);
        let d0 = distinct_ips(h0);
        if !d0.contains(x) {
            assert forall|i: int, j: int|
                0 <= i < j < d0.push(x).len() implies d0.push(x)[i] != d0.push(x)[j] by {
                if j == d0.len() {
                    assert(d0[i] != x) by {
                        if d0[i] == x {
                            assert(d0.contains(x));
                        }
                    }
                }
            }
        }
    }
}

spec fn sum_count_of(history: Seq<Seq<char>>, ips: Seq<Seq<char>>) -> nat
    decreases ips.len(),
{
    if ips.len() == 0 {
        0
    } else {
        sum_count_of(history, ips.drop_last()) + count_of(history, ips.last())
    }
}

proof fn lemma_sum_count_of_push(history: Seq<Seq<char>>, x: Seq<char>, ips: Seq<Seq<char>>)
    requires
        no_dup(ips),
    ensures
        sum_count_of(history.push(x), ips) == sum_count_of(history, ips) + (if ips.contains(x) {
            1nat
        } else {
            0nat
        }),
    decreases ips.len(),
{
    if ips.len() == 0 {
    } else {
        let dl = ips.drop_last();
        let last = ips.last();
        assert(no_dup(dl));
        lemma_sum_count_of_push(history, x, dl);
        lemma_count_of_push(history, x, last);
        assert(ips =~= dl.push(last));
        lemma_contains_push(dl, last, x);
        if last == x {
            assert(!dl.contains(x)) by {
                if dl.contains(x) {
                    let i = choose|i: int| 0 <= i < dl.len() && dl[i] == x;
                    assert(ips[i] == x);
                    assert(ips[ips.len() - 1] == x);
                }
            }
        }
    }
}

proof fn lemma_sum_distinct(history: Seq<Seq<char>>)
    ensures
        sum_count_of(history, distinct_ips(history)) == history.len(),
    decreases history.len(),
{
    if history.len() > 0 {
        let h0 = history.drop_last();
        let x = history.last();
        assert(history =~= h0.push(x));
        lemma_sum_distinct(h0);
        lemma_distinct_no_dup(h0);
        lemma_distinct_push(h0, x);
        lemma_distinct_contains(h0, x);
        lemma_sum_count_of_push(h0, x, distinct_ips(h0));
        let d0 = distinct_ips(h0);
        if !d0.contains(x) {
            assert(d0.push(x).drop_last() =~= d0);
            assert(count_of(h0, x) == 0);
            lemma_count_of_push(h0, x, x);
        }
    }
}

proof fn lemma_sum_counts_pointwise(snap: Seq<CounterEntry>, history: Seq<Seq<char>>, ips: Seq<Seq<char>>)
    requires
        snap.len() == ips.len(),
        forall|i: int|
            0 <= i < snap.len() ==> (#[trigger] snap[i]).count as nat == count_of(history, ips[i]),
    ensures
        sum_counts(snap) == sum_count_of(history, ips),
    decreases snap.len(),
{
    if snap.len() > 0 {
        lemma_sum_counts_pointwise(snap.drop_last(), history, ips.drop_last());
    }
}

/// Law: no record is lost and none is double counted. The counts of the table
/// of any record history sum to exactly the number of records in the history,
/// and (by `is_table_of` itself) each address's count is exactly the number of
/// records that carry it.
pub proof fn lemma_table_sum(snap: Seq<CounterEntry>, history: Seq<Seq<char>>)
    requires
        is_table_of(snap, history),
    ensures
        sum_counts(snap) == history.len(),
{
    lemma_sum_distinct(history);
    lemma_sum_counts_pointwise(snap, history, distinct_ips(history));
}

/// The counter store. It exclusively owns the table; callers reach it only
/// through `record`, `apply_events` and `snapshot`. Its view is the sequence
/// of addresses recorded so far, oldest first.
pub struct CounterStore {
    entries: Vec<CounterEntry>,
    total: u64,
    history: Ghost<Seq<Seq<char>>>,
}

impl View for CounterStore {
    type V = Seq<Seq<char>>;

    closed spec fn view(&self) -> Seq<Seq<char>> {
        self.history@
    }
}

fn find_ip(entries: &Vec<CounterEntry>, ip: &String) -> (r: Option<usize>)
    ensures
        match r {
            Some(i) => i < entries@.len() && entries@[i as int].ip@ == ip@,
            None => forall|j: int| 0 <= j < entries@.len() ==> (#[trigger] entries@[j]).ip@ != ip@,
        },
{
    let mut i: usize = 0;
    while i < entries.len()
        invariant
            i <= entries@.len(),
            forall|j: int| 0 <= j < i ==> (#[trigger] entries@[j]).ip@ != ip@,
        decreases entries@.len() - i,
    {
        if entries[i].ip == *ip {
            return Some(i);
        }
        i = i + 1;
    }
    None
}

impl CounterStore {
    /// The held table is exactly the table of the recorded history, and the
    /// running total equals the history's length.
    pub closed spec fn wf(&self) -> bool {
        &&& is_table_of(self.entries@, self.history@)
        &&& self.total as nat == self.history@.len()
    }

    /// An empty store: nothing recorded yet.
    pub fn new() -> (store: CounterStore)
        ensures
            store.wf(),
            store@ == Seq::<Seq<char>>::empty(),
    {
        CounterStore { entries: Vec::new(), total: 0, history: Ghost(Seq::empty()) }
    }

    /// How many occurrences have been recorded in all.
    pub fn total_recorded(&self) -> (n: u64)
        requires
            self.wf(),
        ensures
            n as nat == self@.len(),
    {
        self.total
    }

    /// Record one occurrence of `ip`: increment its entry, inserting it at 1
    /// if absent.
    pub fn record(&mut self, ip: String)
        requires
            old(self).wf(),
            old(self)@.len() < u64::MAX,
        ensures
            final(self).wf(),
            final(self)@ == old(self)@.push(ip@),
    {
        let ghost h0 = self.history@;
        let ghost e0 = self.entries@;
        let ghost d0 = distinct_ips(h0);
        let ghost h1 = h0.push(ip@);
        proof {
            lemma_distinct_push(h0, ip@);
            lemma_distinct_no_dup(h0);
            lemma_distinct_contains(h0, ip@);
            lemma_count_of_push(h0, ip@, ip@);
        }
        let idx = find_ip(&self.entries, &ip);
        self.history = Ghost(h1);
        self.total = self.total + 1;
        match idx {
            Some(i) => {
                proof {
                    assert(e0[i as int].ip@ == d0[i as int]);
                    assert(d0.contains(ip@));
                    lemma_count_of_le_len(h0, ip@);
                }
                let c = self.entries[i].count;
                self.entries[i].count = c + 1;
                proof {
                    assert(distinct_ips(h1) == d0);
                    assert forall|j: int|
                        0 <= j < self.entries@.len() implies (#[trigger] self.entries@[j]).ip@
                        == distinct_ips(h1)[j] && self.entries@[j].count as nat == count_of(
                        h1,
                        distinct_ips(h1)[j],
                    ) by {
                        lemma_count_of_push(h0, ip@, d0[j]);
                        if j != i {
                            assert(d0[j] != d0[i as int]);
                        }
                    }
                }
            },
            None => {
                self.entries.push(CounterEntry { ip, count: 1 });
                proof {
                    assert(!d0.contains(ip@)) by {
                        if d0.contains(ip@) {
                            let j = choose|j: int| 0 <= j < d0.len() && d0[j] == ip@;
                            assert(e0[j].ip@ == d0[j]);
                        }
                    }
                    assert(count_of(h0, ip@) == 0);
                    assert(distinct_ips(h1) == d0.push(ip@));
                    assert forall|j: int|
                        0 <= j < self.entries@.len() implies (#[trigger] self.entries@[j]).ip@
                        == distinct_ips(h1)[j] && self.entries@[j].count as nat == count_of(
                        h1,
                        distinct_ips(h1)[j],
                    ) by {
                        if j < e0.len() {
                            lemma_count_of_push(h0, ip@, d0[j]);
                        }
                    }
                }
            },
        }
    }

    /// A point-in-time copy of the whole table: exactly the table that the
    /// history recorded so far determines.
    pub fn snapshot(&self) -> (snap: Vec<CounterEntry>)
        requires
            self.wf(),
        ensures
            is_table_of(snap@, self@),
    {
        let mut snap: Vec<CounterEntry> = Vec::new();
        let mut i: usize = 0;
        while i < self.entries.len()
            invariant
                self.wf(),
                i <= self.entries@.len(),
                snap@.len() == i,
                forall|j: int|
                    0 <= j < i ==> (#[trigger] snap@[j]).ip@ == self.entries@[j].ip@
                        && snap@[j].count == self.entries@[j].count,
            decreases self.entries@.len() - i,
        {
            let e = &self.entries[i];
            snap.push(CounterEntry { ip: e.ip.clone(), count: e.count });
            i = i + 1;
        }
        proof {
            assert forall|j: int|
                0 <= j < snap@.len() implies (#[trigger] snap@[j]).ip@ == distinct_ips(self@)[j]
                && snap@[j].count as nat == count_of(self@, distinct_ips(self@)[j]) by {
                assert(self.entries@[j].ip@ == distinct_ips(self@)[j]);
            }
        }
        snap
    }

    /// Apply a batch of recorded addresses in order, as the single consuming
    /// task of the event-queue strategy does before each report.
    pub fn apply_events(&mut self, events: Vec<String>)
        requires
            old(self).wf(),
            old(self)@.len() + events@.len() <= u64::MAX,
        ensures
            final(self).wf(),
            final(self)@ == old(self)@ + views_of(events@),
    {
        let mut i: usize = 0;
        while i < events.len()
            invariant
                self.wf(),
                i <= events@.len(),
                self@ == old(self)@ + views_of(events@).take(i as int),
                old(self)@.len() + events@.len() <= u64::MAX,
            decreases events@.len() - i,
        {
            proof {
                assert(self@.len() == old(self)@.len() + i);
            }
            let ev = events[i].clone();
            self.record(ev);
            proof {
                assert(views_of(events@).take(i as int + 1) =~= views_of(events@).take(
                    i as int,
                ).push(events@[i as int]@));
                assert(self@ =~= old(self)@ + views_of(events@).take(i as int + 1));
            }
            i = i + 1;
        }
        proof {
            assert(views_of(events@).take(events@.len() as int) =~= views_of(events@));
            assert(final(self)@ =~= old(self)@ + views_of(events@));
        }
    }
}

/// The views of a batch of address strings, in order.
pub open spec fn views_of(events: Seq<String>) -> Seq<Seq<char>> {
    events.map_values(|s: String| s@)
}

} // verus!
