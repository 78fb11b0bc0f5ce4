//! Building a table from key–value records, as the JSON, YAML and TOML
//! readers produce them.

use vstd::prelude::*;
use crate::model::TableData;

verus! {

/// A record: its keys and value texts, in document order.
pub type RecordView = Seq<(Seq<char>, Seq<char>)>;

/// `acc` extended with the keys of `pairs` not yet in it, in order.
pub open spec fn add_keys(acc: Seq<Seq<char>>, pairs: RecordView) -> Seq<Seq<char>>
    decreases pairs.len(),
{
    if pairs.len() == 0 {
        acc
    } else {
        let a = add_keys(acc, pairs.drop_last());
        if a.contains(pairs.last().0) {
            a
        } else {
            a.push(pairs.last().0)
        }
    }
}

/// The distinct keys of all records, in the order they first appear.
pub open spec fn keys_in_order(recs: Seq<RecordView>) -> Seq<Seq<char>>
    decreases recs.len(),
{
    if recs.len() == 0 {
        Seq::empty()
    } else {
        add_keys(keys_in_order(recs.drop_last()), recs.last())
    }
}

/// The value of the last pair with key `k`, or the empty text.
pub open spec fn lookup(pairs: RecordView, k: Seq<char>) -> Seq<char>
    decreases pairs.len(),
{
    if pairs.len() == 0 {
        Seq::empty()
    } else if pairs.last().0 == k {
        pairs.last().1
    } else {
        lookup(pairs.drop_last(), k)
    }
}

/// The table of a list of records: one column per distinct key in order of
/// first appearance, one row per record, a missing key giving an empty cell.
pub open spec fn records_table(recs: Seq<RecordView>) -> (Seq<Seq<char>>, Seq<Seq<Seq<char>>>) {
    let h = keys_in_order(recs);
    (h, recs.map_values(|r: RecordView| h.map_values(|k: Seq<char>| lookup(r, k))))
}

/// Whether `keys` holds `k`.
fn has_key(keys: &Vec<String>, k: &String) -> (r: bool)
    ensures
        r == keys.deep_view().contains(k@),
{
    let mut i: usize = 0;
    while i < keys.len()
        invariant
            i <= keys@.len(),
            forall|j: int| 0 <= j < i ==> #[trigger] keys@[j]@ != k@,
        decreases keys.len() - i,
    {
        if keys[i] == *k {
            assert(keys.deep_view()[i as int] == k@);
            return true;
        }
        i = i + 1;
    }
    assert forall|j: int| 0 <= j < keys.deep_view().len() implies #[trigger] keys.deep_view()[j]
        != k@ by {
        assert(keys.deep_view()[j] == keys@[j]@);
    }
    false
}

/// The value of the last pair with key `k` in `pairs`, or an empty string.
fn lookup_exec(pairs: &Vec<(String, String)>, k: &String) -> (v: String)
    ensures
        v@ == lookup(pairs.deep_view(), k@),
{
    let ghost ps = pairs.deep_view();
    let mut i = pairs.len();
    assert(ps.take(i as int) =~= ps);
    while i > 0
        invariant
            i <= pairs@.len(),
            ps == pairs.deep_view(),
            lookup(ps, k@) == lookup(ps.take(i as int), k@),
        decreases i,
    {
        assert(ps.take(i as int).drop_last() =~= ps.take(i - 1));
        assert(ps.take(i as int).last() == (pairs@[i - 1].0@, pairs@[i - 1].1@));
        if pairs[i - 1].0 == *k {
            return pairs[i - 1].1.clone();
        }
        i = i - 1;
    }
    String::new()
}

/// Builds the table of a list of records.
pub fn records_to_table(records: &Vec<Vec<(String, String)>>) -> (t: TableData)
    ensures
        t.header_view() == records_table(records.deep_view()).0,
        t.row_view() == records_table(records.deep_view()).1,
        t.column_meta@ == crate::model::default_meta(t.headers@.len()),
        t.well_formed(),
{
    let ghost recs = records.deep_view();
    let mut headers: Vec<String> = Vec::new();
    let mut r: usize = 0;
    while r < records.len()
        invariant
            r <= records@.len(),
            recs == records.deep_view(),
            headers.deep_view() == keys_in_order(recs.take(r as int)),
        decreases records.len() - r,
    {
        assert(recs.take(r + 1).drop_last() =~= recs.take(r as int));
        let rec = &records[r];
        let ghost pv = rec.deep_view();
        assert(recs.take(r + 1).last() == pv);
        let ghost start = headers.deep_view();
        let mut p: usize = 0;
        while p < rec.len()
            invariant
                p <= rec@.len(),
                pv == rec.deep_view(),
                headers.deep_view() == add_keys(start, pv.take(p as int)),
            decreases rec.len() - p,
        {
            assert(pv.take(p + 1).drop_last() =~= pv.take(p as int));
            assert(pv.take(p + 1).last().0 == rec@[p as int].0@);
            if !has_key(&headers, &rec[p].0) {
                headers.push(rec[p].0.clone());
                assert(headers.deep_view() =~= add_keys(start, pv.take(p + 1)));
            }
            p = p + 1;
        }
        assert(pv.take(rec@.len() as int) =~= pv);
        r = r + 1;
    }
    assert(recs.take(records@.len() as int) =~= recs);
    let ghost h = headers.deep_view();
    let mut rows: Vec<Vec<String>> = Vec::new();
    let mut r: usize = 0;
    while r < records.len()
        invariant
            r <= records@.len(),
            recs == records.deep_view(),
            h == headers.deep_view(),
            rows@.len() == r,
            forall|j: int|
                0 <= j < r ==> #[trigger] rows@[j].deep_view() == h.map_values(
                    |k: Seq<char>| lookup(recs[j], k),
                ),
        decreases records.len() - r,
    {
        let mut row: Vec<String> = Vec::new();
        let mut c: usize = 0;
        while c < headers.len()
            invariant
                c <= headers@.len(),
                r < records@.len(),
                recs == records.deep_view(),
                h == headers.deep_view(),
                row@.len() == c,
                forall|j: int| 0 <= j < c ==> #[trigger] row@[j]@ == lookup(recs[r as int], h[j]),
            decreases headers.len() - c,
        {
            let v = lookup_exec(&records[r], &headers[c]);
            row.push(v);
            c = c + 1;
        }
        assert(row.deep_view() =~= h.map_values(|k: Seq<char>| lookup(recs[r as int], k)));
        rows.push(row);
        r = r + 1;
    }
    assert(rows.deep_view() =~= recs.map_values(
        |rv: RecordView| h.map_values(|k: Seq<char>| lookup(rv, k)),
    ));
    TableData::new(headers, rows)
}

} // verus!
