//! The reporter: sorts a snapshot of the counter table by descending count
//! and renders it as one text block — a header line `IPs:` followed by one
//! line per entry, `\t<ip>: <count>\n`. The rendered text is proved to be a
//! pure function of the snapshot's addresses and counts.

use vstd::prelude::*;
use vstd::string::StringExecFns;
use crate::counter::CounterEntry;
use crate::counter::is_table_of;

verus! {

/// The decimal digit character for `d` (for `d < 10`).
pub open spec fn digit_char(d: nat) -> char {
    if d == 0 {
        '0'
    } else if d == 1 {
        '1'
    } else if d == 2 {
        '2'
    } else if d == 3 {
        '3'
    } else if d == 4 {
        '4'
    } else if d == 5 {
        '5'
    } else if d == 6 {
        '6'
    } else if d == 7 {
        '7'
    } else if d == 8 {
        '8'
    } else {
        '9'
    }
}

/// The decimal rendering of `n`, most significant digit first, no leading
/// zeros (a single `'0'` for zero).
pub open spec fn dec_digits(n: nat) -> Seq<char>
    decreases n,
{
    if n < 10 {
        seq![digit_char(n)]
    } else {
        dec_digits(n / 10).push(digit_char(n % 10))
    }
}

/// One report line: tab, address, colon and space, decimal count, newline.
pub open spec fn line_of(ip: Seq<char>, count: nat) -> Seq<char> {
    "\t"@ + ip + ": "@ + dec_digits(count) + "\n"@
}

/// The body of a report: the entries' lines in order.
pub open spec fn lines_of(entries: Seq<CounterEntry>) -> Seq<char>
    decreases entries.len(),
{
    if entries.len() == 0 {
        Seq::empty()
    } else {
        lines_of(entries.drop_last()) + line_of(
            entries.last().ip@,
            entries.last().count as nat,
        )
    }
}

/// A whole rendered report: the header line, then one line per entry.
pub open spec fn render_spec(entries: Seq<CounterEntry>) -> Seq<char> {
    "IPs:\n"@ + lines_of(entries)
}

/// Counts never increase along the sequence.
pub open spec fn sorted_desc(entries: Seq<CounterEntry>) -> bool {
    forall|i: int, j: int|
        0 <= i <= j < entries.len() ==> (#[trigger] entries[i]).count >= (
        #[trigger] entries[j]).count
}

/// Stable insertion of `e` into `entries`: `e` goes after every entry whose
/// count is at least `e.count`.
pub open spec fn insert_desc(entries: Seq<CounterEntry>, e: CounterEntry) -> Seq<CounterEntry>
    decreases entries.len(),
{
    if entries.len() == 0 {
        seq![e]
    } else if entries[0].count >= e.count {
        seq![entries[0]] + insert_desc(entries.drop_first(), e)
    } else {
        seq![e] + entries
    }
}

/// Stable sort of a table by descending count: ties keep their snapshot
/// order.
pub open spec fn sort_desc(entries: Seq<CounterEntry>) -> Seq<CounterEntry>
    decreases entries.len(),
{
    if entries.len() == 0 {
        Seq::empty()
    } else {
        insert_desc(sort_desc(entries.drop_last()), entries.last())
    }
}

/// The text of one reporting cycle for a snapshot.
pub open spec fn report_spec(snap: Seq<CounterEntry>) -> Seq<char> {
    render_spec(sort_desc(snap))
}

/// Two tables carry the same data: same length, and pointwise the same
/// address text and the same count.
pub open spec fn entries_like(a: Seq<CounterEntry>, b: Seq<CounterEntry>) -> bool {
    &&& a.len() == b.len()
    &&& forall|i: int|
        0 <= i < a.len() ==> (#[trigger] a[i]).ip@ == b[i].ip@ && a[i].count == b[i].count
}

/// The first position whose count is below `e.count` (the sequence's length
/// if there is none).
proof fn first_lt(entries: Seq<CounterEntry>, e: CounterEntry) -> (i: int)
    ensures
        0 <= i <= entries.len(),
        forall|k: int| 0 <= k < i ==> (#[trigger] entries[k]).count >= e.count,
        i < entries.len() ==> entries[i].count < e.count,
    decreases entries.len(),
{
    if entries.len() == 0 {
        0
    } else if entries[0].count < e.count {
        0
    } else {
        let j = first_lt(entries.drop_first(), e);
        assert forall|k: int| 0 <= k < j + 1 implies (#[trigger] entries[k]).count >= e.count by {
            if k > 0 {
                assert(entries.drop_first()[k - 1] == entries[k]);
            }
        }
        if j + 1 < entries.len() {
            assert(entries.drop_first()[j] == entries[j + 1]);
        }
        j + 1
    }
}

proof fn lemma_insert_desc_at(entries: Seq<CounterEntry>, e: CounterEntry, i: int)
    requires
        0 <= i <= entries.len(),
        forall|k: int| 0 <= k < i ==> (#[trigger] entries[k]).count >= e.count,
        i < entries.len() ==> entries[i].count < e.count,
    ensures
        insert_desc(entries, e) == entries.insert(i, e),
    decreases i,
{
    if i == 0 {
        if entries.len() == 0 {
            assert(insert_desc(entries, e) =~= entries.insert(0, e));
        } else {
            assert(entries[0].count < e.count);
            assert(seq![e] + entries =~= entries.insert(0, e));
        }
    } else {
        assert(entries[0].count >= e.count);
        let rest = entries.drop_first();
        assert forall|k: int| 0 <= k < i - 1 implies (#[trigger] rest[k]).count >= e.count by {
            assert(rest[k] == entries[k + 1]);
        }
        if i - 1 < rest.len() {
            assert(rest[i - 1] == entries[i]);
        }
        lemma_insert_desc_at(rest, e, i - 1);
        entries.insert_ensures(i, e);
        rest.insert_ensures(i - 1, e);
        assert(insert_desc(entries, e) =~= entries.insert(i, e)) by {
            assert forall|m: int|
                0 <= m < (seq![entries[0]] + rest.insert(i - 1, e)).len() implies (seq![
                entries[0],
            ] + rest.insert(i - 1, e))[m] == entries.insert(i, e)[m] by {
                if m == 0 {
                } else if m < i {
                    assert(rest.insert(i - 1, e)[m - 1] == rest[m - 1]);
                    assert(rest[m - 1] == entries[m]);
                } else if m == i {
                    assert(rest.insert(i - 1, e)[i - 1] == e);
                } else {
                    assert(rest.insert(i - 1, e)[m - 1] == rest[m - 2]);
                    assert(rest[m - 2] == entries[m - 1]);
                }
            }
        }
    }
}

proof fn lemma_insert_desc_sorted(entries: Seq<CounterEntry>, e: CounterEntry)
    requires
        sorted_desc(entries),
    ensures
        sorted_desc(insert_desc(entries, e)),
{
    let i = first_lt(entries, e);
    lemma_insert_desc_at(entries, e, i);
    entries.insert_ensures(i, e);
    let r = entries.insert(i, e);
    assert forall|m: int, m2: int|
        0 <= m <= m2 < r.len() implies (#[trigger] r[m]).count >= (#[trigger] r[m2]).count by {
        if m < i {
            if m2 < i {
                assert(r[m] == entries[m] && r[m2] == entries[m2]);
            } else if m2 == i {
                assert(r[m] == entries[m] && r[m2] == e);
            } else {
                assert(r[m] == entries[m] && r[m2] == entries[m2 - 1]);
            }
        } else if m == i {
            if m2 > i {
                assert(r[m] == e && r[m2] == entries[m2 - 1]);
                assert(entries[i].count >= entries[m2 - 1].count);
            }
        } else {
            assert(r[m] == entries[m - 1] && r[m2] == entries[m2 - 1]);
        }
    }
}

/// Law: sorting a snapshot by descending count yields entries in
/// non-increasing count order — so the report's lines appear in that order —
/// and neither adds, drops nor alters an entry: the multiset of entries is
/// exactly that of the snapshot.
pub proof fn lemma_sort_desc_props(entries: Seq<CounterEntry>)
    ensures
        sorted_desc(sort_desc(entries)),
        sort_desc(entries).to_multiset() == entries.to_multiset(),
    decreases entries.len(),
{
    broadcast use vstd::seq_lib::group_to_multiset_ensures;

    if entries.len() == 0 {
        assert(entries =~= Seq::<CounterEntry>::empty());
    } else {
        let front = entries.drop_last();
        let x = entries.last();
        lemma_sort_desc_props(front);
        let sorted_front = sort_desc(front);
        lemma_insert_desc_sorted(sorted_front, x);
        let i = first_lt(sorted_front, x);
        lemma_insert_desc_at(sorted_front, x, i);
        assert(sorted_front.insert(i, x).to_multiset() =~= sorted_front.to_multiset().insert(x));
        assert(entries =~= front.push(x));
        assert(front.push(x).to_multiset() =~= front.to_multiset().insert(x));
    }
}

proof fn lemma_insert_desc_like(
    a: Seq<CounterEntry>,
    b: Seq<CounterEntry>,
    x: CounterEntry,
    y: CounterEntry,
)
    requires
        entries_like(a, b),
        x.ip@ == y.ip@,
        x.count == y.count,
    ensures
        entries_like(insert_desc(a, x), insert_desc(b, y)),
    decreases a.len(),
{
    if a.len() == 0 {
        assert(entries_like(seq![x], seq![y]));
    } else if a[0].count >= x.count {
        let ar = a.drop_first();
        let br = b.drop_first();
        assert forall|k: int|
            0 <= k < ar.len() implies (#[trigger] ar[k]).ip@ == br[k].ip@ && ar[k].count
            == br[k].count by {
            assert(ar[k] == a[k + 1] && br[k] == b[k + 1]);
            assert(a[k + 1].ip@ == b[k + 1].ip@ && a[k + 1].count == b[k + 1].count);
        }
        lemma_insert_desc_like(ar, br, x, y);
        let ra = seq![a[0]] + insert_desc(ar, x);
        let rb = seq![b[0]] + insert_desc(br, y);
        assert forall|m: int|
            0 <= m < ra.len() implies (#[trigger] ra[m]).ip@ == rb[m].ip@ && ra[m].count
            == rb[m].count by {
            if m > 0 {
                assert(ra[m] == insert_desc(ar, x)[m - 1]);
                assert(rb[m] == insert_desc(br, y)[m - 1]);
            }
        }
    } else {
        let ra = seq![x] + a;
        let rb = seq![y] + b;
        assert forall|m: int|
            0 <= m < ra.len() implies (#[trigger] ra[m]).ip@ == rb[m].ip@ && ra[m].count
            == rb[m].count by {
            if m > 0 {
                assert(ra[m] == a[m - 1] && rb[m] == b[m - 1]);
                assert(a[m - 1].ip@ == b[m - 1].ip@ && a[m - 1].count == b[m - 1].count);
            }
        }
    }
}

proof fn lemma_sort_desc_like(a: Seq<CounterEntry>, b: Seq<CounterEntry>)
    requires
        entries_like(a, b),
    ensures
        entries_like(sort_desc(a), sort_desc(b)),
    decreases a.len(),
{
    if a.len() > 0 {
        let af = a.drop_last();
        let bf = b.drop_last();
        assert forall|k: int|
            0 <= k < af.len() implies (#[trigger] af[k]).ip@ == bf[k].ip@ && af[k].count
            == bf[k].count by {
            assert(af[k] == a[k] && bf[k] == b[k]);
        }
        lemma_sort_desc_like(af, bf);
        assert(a.last().ip@ == b.last().ip@ && a.last().count == b.last().count);
        lemma_insert_desc_like(sort_desc(af), sort_desc(bf), a.last(), b.last());
    }
}

proof fn lemma_lines_of_like(a: Seq<CounterEntry>, b: Seq<CounterEntry>)
    requires
        entries_like(a, b),
    ensures
        lines_of(a) == lines_of(b),
    decreases a.len(),
{
    if a.len() > 0 {
        let af = a.drop_last();
        let bf = b.drop_last();
        assert forall|k: int|
            0 <= k < af.len() implies (#[trigger] af[k]).ip@ == bf[k].ip@ && af[k].count
            == bf[k].count by {
            assert(af[k] == a[k] && bf[k] == b[k]);
        }
        lemma_lines_of_like(af, bf);
        assert(a.last().ip@ == b.last().ip@ && a.last().count == b.last().count);
    }
}

/// Law: the reporter carries no hidden state. The rendered report is a pure
/// function of the snapshot's addresses and counts, so two reporting cycles
/// over tables carrying the same data produce identical text.
pub proof fn lemma_report_stateless(a: Seq<CounterEntry>, b: Seq<CounterEntry>)
    requires
        entries_like(a, b),
    ensures
        report_spec(a) == report_spec(b),
{
    lemma_sort_desc_like(a, b);
    lemma_lines_of_like(sort_desc(a), sort_desc(b));
}

/// Law: a record history determines its table's data completely, so any two
/// snapshots of an unchanged store carry the same data (and hence, by
/// `lemma_report_stateless`, render identically).
pub proof fn lemma_tables_like(
    a: Seq<CounterEntry>,
    b: Seq<CounterEntry>,
    history: Seq<Seq<char>>,
)
    requires
        is_table_of(a, history),
        is_table_of(b, history),
    ensures
        entries_like(a, b),
{
}

/// Law: two reporting cycles over an unchanged store produce identical
/// rendered output — any two snapshots of the same record history render to
/// the very same text.
pub proof fn lemma_same_history_same_report(
    a: Seq<CounterEntry>,
    b: Seq<CounterEntry>,
    history: Seq<Seq<char>>,
)
    requires
        is_table_of(a, history),
        is_table_of(b, history),
    ensures
        report_spec(a) == report_spec(b),
{
    lemma_tables_like(a, b, history);
    lemma_report_stateless(a, b);
}

fn digit_str(d: u64) -> (r: &'static str)
    requires
        d < 10,
    ensures
        r@ == seq![digit_char(d as nat)],
{
    proof {
        reveal_strlit("0");
        reveal_strlit("1");
        reveal_strlit("2");
        reveal_strlit("3");
        reveal_strlit("4");
        reveal_strlit("5");
        reveal_strlit("6");
        reveal_strlit("7");
        reveal_strlit("8");
        reveal_strlit("9");
    }
    let r: &'static str = if d == 0 {
        "0"
    } else if d == 1 {
        "1"
    } else if d == 2 {
        "2"
    } else if d == 3 {
        "3"
    } else if d == 4 {
        "4"
    } else if d == 5 {
        "5"
    } else if d == 6 {
        "6"
    } else if d == 7 {
        "7"
    } else if d == 8 {
        "8"
    } else {
        "9"
    };
    proof {
        assert(r@ =~= seq![digit_char(d as nat)]);
    }
    r
}

/// Render `n` in decimal.
pub fn u64_to_string(n: u64) -> (r: String)
    ensures
        r@ == dec_digits(n as nat),
    decreases n,
{
    if n < 10 {
        String::from_str(digit_str(n))
    } else {
        assert(n / 10 < n);
        let mut s = u64_to_string(n / 10);
        let d = digit_str(n % 10);
        s.append(d);
        proof {
            assert(s@ =~= dec_digits(n as nat));
        }
        s
    }
}

/// Render a (already sorted) table as the report text.
pub fn render_report(entries: &Vec<CounterEntry>) -> (r: String)
    ensures
        r@ == render_spec(entries@),
{
    let mut out = String::from_str("IPs:\n");
    let mut i: usize = 0;
    while i < entries.len()
        invariant
            i <= entries@.len(),
            out@ == "IPs:\n"@ + lines_of(entries@.take(i as int)),
        decreases entries@.len() - i,
    {
        let e = &entries[i];
        out.append("\t");
        out.append(e.ip.as_str());
        out.append(": ");
        let num = u64_to_string(e.count);
        out.append(num.as_str());
        out.append("\n");
        proof {
            assert(entries@.take(i as int + 1).drop_last() =~= entries@.take(i as int));
            assert(entries@.take(i as int + 1).last() == entries@[i as int]);
            assert(out@ =~= "IPs:\n"@ + lines_of(entries@.take(i as int + 1)));
        }
        i = i + 1;
    }
    proof {
        assert(entries@.take(entries@.len() as int) =~= entries@);
    }
    out
}

fn insert_sorted(v: &mut Vec<CounterEntry>, e: CounterEntry)
    ensures
        final(v)@ == insert_desc(old(v)@, e),
{
    let mut i: usize = 0;
    while i < v.len() && v[i].count >= e.count
        invariant
            i <= v@.len(),
            v@ == old(v)@,
            forall|k: int| 0 <= k < i ==> (#[trigger] v@[k]).count >= e.count,
        decreases v@.len() - i,
    {
        i = i + 1;
    }
    proof {
        lemma_insert_desc_at(v@, e, i as int);
    }
    v.insert(i, e);
}

/// Sort a snapshot by descending count; equal counts keep their snapshot
/// order.
pub fn sort_by_count_desc(entries: Vec<CounterEntry>) -> (r: Vec<CounterEntry>)
    ensures
        r@ == sort_desc(entries@),
{
    let mut out: Vec<CounterEntry> = Vec::new();
    let mut i: usize = 0;
    while i < entries.len()
        invariant
            i <= entries@.len(),
            out@ == sort_desc(entries@.take(i as int)),
        decreases entries@.len() - i,
    {
        let e = &entries[i];
        let dup = CounterEntry { ip: e.ip.clone(), count: e.count };
        proof {
            assert(dup == entries@[i as int]);
        }
        insert_sorted(&mut out, dup);
        proof {
            assert(entries@.take(i as int + 1).drop_last() =~= entries@.take(i as int));
            assert(entries@.take(i as int + 1).last() == entries@[i as int]);
        }
        i = i + 1;
    }
    proof {
        assert(entries@.take(entries@.len() as int) =~= entries@);
    }
    out
}

/// One reporting cycle's text for a snapshot: the entries sorted by
/// descending count, rendered one line per entry under the header line.
pub fn report_of(snapshot: Vec<CounterEntry>) -> (r: String)
    ensures
        r@ == report_spec(snapshot@),
{
    let sorted = sort_by_count_desc(snapshot);
    render_report(&sorted)
}

} // verus!
