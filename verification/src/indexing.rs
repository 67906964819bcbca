//! The index itself: construction, insertion, and search.

use vstd::prelude::*;

use crate::filter::{apply_filters, filtered_indices, lemma_filtered_indices_properties};
use crate::ranking::{
    entry_le, entry_lt, lemma_sort_entries_contents, lemma_sort_entries_distinct,
    lemma_sort_entries_sorted, sort_entries, sort_entries_spec, Entry,
};
use crate::types::{passes, IndexError, Metric, Record};

verus! {

/// Each passing record as a scored entry: the score key at its position,
/// the position itself (the tie-break), and the record's identifier.
pub open spec fn tagged_candidates(
    records: Seq<Record>,
    filters: Seq<(String, String)>,
    scores: Seq<u32>,
) -> Seq<Entry> {
    filtered_indices(records, filters).map(
        |p: int, i: usize| Entry { score: scores[i as int], pos: i, id: records[i as int].id },
    )
}

/// The scored candidates, ascending by score and, for equal scores, by
/// insertion order.
pub open spec fn ranked_candidates(
    records: Seq<Record>,
    filters: Seq<(String, String)>,
    scores: Seq<u32>,
) -> Seq<Entry> {
    sort_entries_spec(tagged_candidates(records, filters, scores))
}

/// What a well-dimensioned search returns: the ranked candidates,
/// truncated to the first `top_k`, as `(id, score)` pairs.
pub open spec fn search_result(
    records: Seq<Record>,
    filters: Seq<(String, String)>,
    scores: Seq<u32>,
    top_k: int,
) -> Seq<(u64, u32)> {
    let ranked = ranked_candidates(records, filters, scores);
    let n = if top_k < ranked.len() {
        top_k
    } else {
        ranked.len() as int
    };
    ranked.take(n).map(|p: int, e: Entry| (e.id, e.score))
}

/// An in-memory similarity-search index: a dimension, a metric, and the
/// stored records in insertion order.
pub struct VectorIndex {
    pub dim: usize,
    pub metric: Metric,
    pub records: Vec<Record>,
}

impl View for VectorIndex {
    type V = Seq<Record>;

    /// The stored records, in insertion order.
    open spec fn view(&self) -> Seq<Record> {
        self.records@
    }
}

impl VectorIndex {
    /// A fresh, empty index. The dimension must be positive and the
    /// metric tag one of `"l2"` and `"cosine"`; anything else is a
    /// configuration error.
    pub fn new(dim: usize, metric: String) -> (r: Result<VectorIndex, IndexError>)
        ensures
            (dim > 0 && metric@ == "l2"@) ==> (r matches Ok(ix) && ix.dim == dim && ix.metric
                == Metric::L2 && ix@ == Seq::<Record>::empty()),
            (dim > 0 && metric@ == "cosine"@) ==> (r matches Ok(ix) && ix.dim == dim && ix.metric
                == Metric::Cosine && ix@ == Seq::<Record>::empty()),
            (dim == 0 || (metric@ != "l2"@ && metric@ != "cosine"@)) ==> r == Err::<
                VectorIndex,
                IndexError,
            >(IndexError::ConfigurationError),
    {
        proof {
            broadcast use vstd::string::group_string_axioms;

            reveal_strlit("l2");
            reveal_strlit("cosine");
            // The two tags differ: their revealed views have different
            // lengths.
            assert("l2"@.len() == 2);
            assert("cosine"@.len() == 6);
        }
        if dim == 0 {
            return Err(IndexError::ConfigurationError);
        }
        let l2_tag: String = "l2".to_owned();
        let cosine_tag: String = "cosine".to_owned();
        let records: Vec<Record> = Vec::new();
        assert(records@ =~= Seq::<Record>::empty());
        if metric == l2_tag {
            Ok(VectorIndex { dim, metric: Metric::L2, records })
        } else if metric == cosine_tag {
            Ok(VectorIndex { dim, metric: Metric::Cosine, records })
        } else {
            Err(IndexError::ConfigurationError)
        }
    }

    /// How many records the index holds.
    pub fn len(&self) -> (n: usize)
        ensures
            n == self@.len(),
    {
        self.records.len()
    }

    /// Appends a record. The record's vector must have exactly `dim`
    /// elements; otherwise the call fails and the index is unchanged.
    pub fn add(&mut self, record: Record) -> (r: Result<(), IndexError>)
        ensures
            final(self).dim == old(self).dim,
            final(self).metric == old(self).metric,
            record.vector@.len() == old(self).dim ==> (r matches Ok(u) && final(self)@ == old(
                self,
            )@.push(record)),
            record.vector@.len() != old(self).dim ==> (r == Err::<(), IndexError>(
                IndexError::DimensionMismatch,
            ) && final(self)@ == old(self)@),
    {
        if record.vector.len() != self.dim {
            return Err(IndexError::DimensionMismatch);
        }
        self.records.push(record);
        Ok(())
    }

    /// The k most similar stored records: every record whose metadata
    /// matches `filters` is scored, the candidates are ordered ascending
    /// by score (ties go to the earlier-inserted record), and the first
    /// `top_k` are returned as `(id, score)` pairs.
    ///
    /// `scores[i]` is the score key of the record at position `i`
    /// against the query, one key per stored record; keys at positions
    /// the filter rejects are ignored. The query must have exactly `dim`
    /// elements, or the call fails and nothing is scored.
    pub fn search(
        &self,
        query: &Vec<u32>,
        top_k: usize,
        filters: &Vec<(String, String)>,
        scores: &Vec<u32>,
    ) -> (r: Result<Vec<(u64, u32)>, IndexError>)
        requires
            scores@.len() == self@.len(),
        ensures
            query@.len() == self.dim ==> (r matches Ok(out) && out@ == search_result(
                self@,
                filters@,
                scores@,
                top_k as int,
            )),
            query@.len() != self.dim ==> r == Err::<Vec<(u64, u32)>, IndexError>(
                IndexError::DimensionMismatch,
            ),
    {
        if query.len() != self.dim {
            return Err(IndexError::DimensionMismatch);
        }
        let num_records = self.records.len();
        proof {
            lemma_filtered_indices_properties(self.records@, filters@);
        }
        let ghost fidx = filtered_indices(self.records@, filters@);
        let cand = apply_filters(&self.records, filters);
        let m = cand.len();
        let mut entries: Vec<Entry> = Vec::new();
        let mut j: usize = 0;
        while j < m
            invariant
                0 <= j <= m,
                m == fidx.len(),
                cand@ == fidx,
                scores@.len() == self.records@.len(),
                num_records == self.records@.len(),
                forall|p: int|
                    0 <= p < fidx.len() ==> 0 <= #[trigger] fidx[p] < self.records@.len(),
                entries@.len() == j,
                forall|p: int|
                    0 <= p < j ==> #[trigger] entries@[p] == (Entry {
                        score: scores@[fidx[p] as int],
                        pos: fidx[p],
                        id: self.records@[fidx[p] as int].id,
                    }),
            decreases m - j,
        {
            let i = cand[j];
            entries.push(Entry { score: scores[i], pos: i, id: self.records[i].id });
            j = j + 1;
        }
        let ghost tagged = tagged_candidates(self.records@, filters@, scores@);
        proof {
            assert forall|p: int| 0 <= p < m implies entries@[p] == tagged[p] by {
                assert(entries@[p] == (Entry {
                    score: scores@[fidx[p] as int],
                    pos: fidx[p],
                    id: self.records@[fidx[p] as int].id,
                }));
            }
            assert(entries@ =~= tagged);
        }
        let sorted = sort_entries(entries);
        let ghost ranked = ranked_candidates(self.records@, filters@, scores@);
        assert(sorted@ == ranked);
        let count = sorted.len();
        let n = if top_k < count {
            top_k
        } else {
            count
        };
        let mut out: Vec<(u64, u32)> = Vec::new();
        let mut j: usize = 0;
        while j < n
            invariant
                0 <= j <= n,
                n <= count,
                count == ranked.len(),
                sorted@ == ranked,
                out@.len() == j,
                forall|p: int|
                    0 <= p < j ==> #[trigger] out@[p] == (ranked[p].id, ranked[p].score),
            decreases n - j,
        {
            out.push((sorted[j].id, sorted[j].score));
            j = j + 1;
        }
        proof {
            let result = search_result(self@, filters@, scores@, top_k as int);
            assert forall|p: int| 0 <= p < n implies out@[p] == result[p] by {
                assert(result[p] == (ranked[p].id, ranked[p].score));
            }
            assert(out@ =~= result);
        }
        Ok(out)
    }
}

/// A search returns exactly `top_k` pairs, capped at the number of
/// candidates that passed the filter: never padded, never an error for
/// a `top_k` beyond the candidate count.
pub proof fn lemma_search_result_len(
    records: Seq<Record>,
    filters: Seq<(String, String)>,
    scores: Seq<u32>,
    top_k: int,
)
    requires
        0 <= top_k,
    ensures
        search_result(records, filters, scores, top_k).len() == if top_k < filtered_indices(
            records,
            filters,
        ).len() {
            top_k
        } else {
            filtered_indices(records, filters).len() as int
        },
{
    lemma_sort_entries_contents(tagged_candidates(records, filters, scores));
}

/// Every pair a search returns corresponds to a stored record that
/// passed the filter: its identifier and score key are that record's.
pub proof fn lemma_search_result_sound(
    records: Seq<Record>,
    filters: Seq<(String, String)>,
    scores: Seq<u32>,
    top_k: int,
    p: int,
)
    requires
        records.len() <= usize::MAX,
        0 <= top_k,
        0 <= p < search_result(records, filters, scores, top_k).len(),
    ensures
        exists|i: int|
            0 <= i < records.len() && passes(#[trigger] records[i], filters) && records[i].id
                == search_result(records, filters, scores, top_k)[p].0 && scores[i]
                == search_result(records, filters, scores, top_k)[p].1,
{
    let fidx = filtered_indices(records, filters);
    let tagged = tagged_candidates(records, filters, scores);
    let ranked = ranked_candidates(records, filters, scores);
    let result = search_result(records, filters, scores, top_k);
    lemma_sort_entries_contents(tagged);
    lemma_filtered_indices_properties(records, filters);
    assert(result[p] == (ranked[p].id, ranked[p].score));
    assert(ranked.contains(ranked[p]));
    assert(tagged.contains(ranked[p]));
    let q = choose|q: int| 0 <= q < tagged.len() && tagged[q] == ranked[p];
    let i = fidx[q] as int;
    assert(tagged[q] == (Entry { score: scores[i], pos: fidx[q], id: records[i].id }));
    assert(0 <= i < records.len() && passes(records[i], filters));
    assert(records[i].id == result[p].0 && scores[i] == result[p].1);
}

/// Results come ascending by score, and candidates with equal scores
/// keep their insertion order: the ranked candidate sequence is strictly
/// ordered by score first and position second.
pub proof fn lemma_search_result_ordered(
    records: Seq<Record>,
    filters: Seq<(String, String)>,
    scores: Seq<u32>,
    top_k: int,
)
    requires
        records.len() <= usize::MAX,
        0 <= top_k,
    ensures
        forall|p: int, q: int|
            0 <= p < q < search_result(records, filters, scores, top_k).len()
                ==> #[trigger] search_result(records, filters, scores, top_k)[p].1
                <= #[trigger] search_result(records, filters, scores, top_k)[q].1,
        forall|p: int, q: int|
            0 <= p < q < ranked_candidates(records, filters, scores).len() ==> entry_lt(
                #[trigger] ranked_candidates(records, filters, scores)[p],
                #[trigger] ranked_candidates(records, filters, scores)[q],
            ),
{
    let fidx = filtered_indices(records, filters);
    let tagged = tagged_candidates(records, filters, scores);
    let ranked = ranked_candidates(records, filters, scores);
    let result = search_result(records, filters, scores, top_k);
    lemma_filtered_indices_properties(records, filters);
    lemma_sort_entries_sorted(tagged);
    assert forall|p: int, q: int|
        0 <= p < q < tagged.len() implies #[trigger] tagged[p].pos != #[trigger] tagged[q].pos by {
        assert(tagged[p].pos == fidx[p] && tagged[q].pos == fidx[q]);
        assert(fidx[p] < fidx[q]);
    }
    lemma_sort_entries_distinct(tagged);
    assert forall|p: int, q: int|
        0 <= p < q < ranked.len() implies entry_lt(#[trigger] ranked[p], #[trigger] ranked[q]) by {
        assert(entry_le(ranked[p], ranked[q]));
        assert(ranked[p].pos != ranked[q].pos);
    }
    assert forall|p: int, q: int|
        0 <= p < q < result.len() implies #[trigger] result[p].1 <= #[trigger] result[q].1 by {
        assert(result[p] == (ranked[p].id, ranked[p].score));
        assert(result[q] == (ranked[q].id, ranked[q].score));
        assert(entry_lt(ranked[p], ranked[q]));
    }
}

/// Searching twice with identical arguments on an unchanged index gives
/// identical output: the result is a function of the records, the
/// filter, the scores and `top_k` alone.
pub proof fn lemma_search_deterministic(
    records: Seq<Record>,
    filters: Seq<(String, String)>,
    scores: Seq<u32>,
    top_k: int,
    r1: Seq<(u64, u32)>,
    r2: Seq<(u64, u32)>,
)
    requires
        r1 == search_result(records, filters, scores, top_k),
        r2 == search_result(records, filters, scores, top_k),
    ensures
        r1 == r2,
{
}

/// When one candidate scores strictly below every other — or ties only
/// with later-inserted candidates — it comes first in the result.
pub proof fn lemma_search_result_first(
    records: Seq<Record>,
    filters: Seq<(String, String)>,
    scores: Seq<u32>,
    top_k: int,
    i: usize,
)
    requires
        records.len() <= usize::MAX,
        top_k > 0,
        i < records.len(),
        passes(records[i as int], filters),
        forall|j: usize|
            j < records.len() && passes(#[trigger] records[j as int], filters) && j != i ==> (
            scores[i as int] < scores[j as int] || (scores[i as int] == scores[j as int] && i
                < j)),
    ensures
        search_result(records, filters, scores, top_k).len() > 0,
        search_result(records, filters, scores, top_k)[0] == (
            records[i as int].id,
            scores[i as int],
        ),
{
    let fidx = filtered_indices(records, filters);
    let tagged = tagged_candidates(records, filters, scores);
    let ranked = ranked_candidates(records, filters, scores);
    let result = search_result(records, filters, scores, top_k);
    lemma_filtered_indices_properties(records, filters);
    lemma_sort_entries_contents(tagged);
    lemma_sort_entries_sorted(tagged);
    assert(fidx.contains(i));
    let q = choose|q: int| 0 <= q < fidx.len() && fidx[q] == i;
    let e = Entry { score: scores[i as int], pos: i, id: records[i as int].id };
    assert(tagged[q] == e);
    assert(tagged.contains(e));
    assert(ranked.contains(e));
    let w = choose|w: int| 0 <= w < ranked.len() && ranked[w] == e;
    assert(ranked.len() > 0);
    assert(ranked.contains(ranked[0]));
    assert(tagged.contains(ranked[0]));
    let q0 = choose|q0: int| 0 <= q0 < tagged.len() && tagged[q0] == ranked[0];
    let j = fidx[q0];
    assert(ranked[0] == (Entry { score: scores[j as int], pos: j, id: records[j as int].id }));
    assert(j < records.len() && passes(records[j as int], filters));
    if j != i {
        assert(ranked[0].pos == j && e.pos == i);
        assert(ranked[0] != e);
        assert(w != 0);
        assert(entry_le(ranked[0], ranked[w]));
        assert(scores[i as int] < scores[j as int] || (scores[i as int] == scores[j as int] && i
            < j));
        assert(entry_lt(e, ranked[0]));
        assert(false);
    }
    assert(ranked[0] == e);
    assert(result.len() > 0);
    assert(result[0] == (ranked[0].id, ranked[0].score));
}

} // verus!
