//! Attribute filtering: narrowing the stored records to the candidates
//! whose metadata matches every required key/value pair.

use vstd::prelude::*;

use crate::types::{meta_get, passes, Record};

verus! {

/// The indices below `n` of the records that pass the filter, in
/// ascending order.
pub open spec fn filtered_up_to(
    records: Seq<Record>,
    filters: Seq<(String, String)>,
    n: int,
) -> Seq<usize>
    decreases n,
{
    if n <= 0 {
        Seq::<usize>::empty()
    } else if passes(records[n - 1], filters) {
        filtered_up_to(records, filters, n - 1).push((n - 1) as usize)
    } else {
        filtered_up_to(records, filters, n - 1)
    }
}

/// The indices of the records that pass the filter, in ascending order.
pub open spec fn filtered_indices(records: Seq<Record>, filters: Seq<(String, String)>) -> Seq<
    usize,
> {
    filtered_up_to(records, filters, records.len() as int)
}

/// Every index listed is in range and names a passing record; every
/// passing record in range is listed; the listing is strictly ascending.
pub proof fn lemma_filtered_up_to_properties(
    records: Seq<Record>,
    filters: Seq<(String, String)>,
    n: int,
)
    requires
        n <= records.len() <= usize::MAX,
    ensures
        forall|p: int|
            0 <= p < filtered_up_to(records, filters, n).len() ==> 0 <= #[trigger] filtered_up_to(
                records,
                filters,
                n,
            )[p] < n && passes(records[filtered_up_to(records, filters, n)[p] as int], filters),
        forall|i: usize|
            0 <= i < n && passes(records[i as int], filters) ==> filtered_up_to(
                records,
                filters,
                n,
            ).contains(i),
        forall|p: int, q: int|
            0 <= p < q < filtered_up_to(records, filters, n).len() ==> filtered_up_to(
                records,
                filters,
                n,
            )[p] < filtered_up_to(records, filters, n)[q],
    decreases n,
{
    if n > 0 {
        lemma_filtered_up_to_properties(records, filters, n - 1);
        let prev = filtered_up_to(records, filters, n - 1);
        let cur = filtered_up_to(records, filters, n);
        if passes(records[n - 1], filters) {
            assert(cur == prev.push((n - 1) as usize));
            assert(cur.len() == prev.len() + 1);
            assert forall|p: int|
                0 <= p < cur.len() implies 0 <= #[trigger] cur[p] < n && passes(
                records[cur[p] as int],
                filters,
            ) by {
                if p < prev.len() {
                    assert(cur[p] == prev[p]);
                } else {
                    assert(cur[p] == (n - 1) as usize);
                }
            }
            assert forall|p: int, q: int| 0 <= p < q < cur.len() implies cur[p] < cur[q] by {
                if q < prev.len() {
                    assert(cur[p] == prev[p] && cur[q] == prev[q]);
                } else {
                    assert(cur[p] == prev[p] && cur[q] == (n - 1) as usize);
                    assert(prev[p] < n - 1);
                }
            }
            assert forall|i: usize|
                0 <= i < n && passes(records[i as int], filters) implies cur.contains(i) by {
                if i < n - 1 {
                    assert(prev.contains(i));
                    let w = choose|w: int| 0 <= w < prev.len() && prev[w] == i;
                    assert(cur[w] == i);
                } else {
                    assert(cur[cur.len() - 1] == i);
                }
            }
        } else {
            assert(cur == prev);
            assert forall|i: usize|
                0 <= i < n && passes(records[i as int], filters) implies cur.contains(i) by {
                assert(i < n - 1 || i == n - 1);
                assert(i != n - 1);
                assert(prev.contains(i));
                let w = choose|w: int| 0 <= w < prev.len() && prev[w] == i;
                assert(cur[w] == i);
            }
        }
    }
}

/// As `lemma_filtered_up_to_properties`, for the whole record sequence:
/// an index is listed if and only if it names a stored record that passes
/// the filter, and the listing is strictly ascending.
pub proof fn lemma_filtered_indices_properties(records: Seq<Record>, filters: Seq<(String, String)>)
    requires
        records.len() <= usize::MAX,
    ensures
        forall|p: int|
            0 <= p < filtered_indices(records, filters).len() ==> 0
                <= #[trigger] filtered_indices(records, filters)[p] < records.len() && passes(
                records[filtered_indices(records, filters)[p] as int],
                filters,
            ),
        forall|i: usize|
            0 <= i < records.len() && passes(records[i as int], filters) ==> filtered_indices(
                records,
                filters,
            ).contains(i),
        forall|p: int, q: int|
            0 <= p < q < filtered_indices(records, filters).len() ==> filtered_indices(
                records,
                filters,
            )[p] < filtered_indices(records, filters)[q],
{
    lemma_filtered_up_to_properties(records, filters, records.len() as int);
}

/// Whether the metadata list associates `key` with exactly `value`.
fn meta_matches(metadata: &Vec<(String, String)>, key: &String, value: &String) -> (r: bool)
    ensures
        r == (meta_get(metadata@, key@) == Some(value@)),
{
    let n = metadata.len();
    let mut i: usize = 0;
    assert(metadata@.skip(0) =~= metadata@);
    while i < n
        invariant
            0 <= i <= n,
            n == metadata@.len(),
            meta_get(metadata@, key@) == meta_get(metadata@.skip(i as int), key@),
        decreases n - i,
    {
        let ghost tail = metadata@.skip(i as int);
        assert(tail[0] == metadata@[i as int]);
        if metadata[i].0 == *key {
            return metadata[i].1 == *value;
        }
        assert(tail.drop_first() =~= metadata@.skip(i as int + 1));
        i = i + 1;
    }
    assert(metadata@.skip(n as int) =~= Seq::<(String, String)>::empty());
    false
}

/// Whether the record passes the filter: every required pair must be
/// present in its metadata.
pub fn record_passes(record: &Record, filters: &Vec<(String, String)>) -> (r: bool)
    ensures
        r == passes(*record, filters@),
{
    let n = filters.len();
    let mut j: usize = 0;
    while j < n
        invariant
            0 <= j <= n,
            n == filters@.len(),
            forall|t: int|
                0 <= t < j ==> meta_get(record.metadata@, filters@[t].0@) == Some(filters@[t].1@),
        decreases n - j,
    {
        if !meta_matches(&record.metadata, &filters[j].0, &filters[j].1) {
            return false;
        }
        j = j + 1;
    }
    true
}

/// The positions of the records that pass the filter, in their original
/// (insertion) order. An empty filter passes every record.
pub fn apply_filters(records: &Vec<Record>, filters: &Vec<(String, String)>) -> (out: Vec<usize>)
    ensures
        out@ == filtered_indices(records@, filters@),
{
    let n = records.len();
    let mut out: Vec<usize> = Vec::new();
    let mut i: usize = 0;
    while i < n
        invariant
            0 <= i <= n,
            n == records@.len(),
            out@ == filtered_up_to(records@, filters@, i as int),
        decreases n - i,
    {
        if record_passes(&records[i], filters) {
            out.push(i);
        }
        i = i + 1;
    }
    out
}

} // verus!
