//! Ranking: stable ascending ordering of scored candidates.
//!
//! A candidate is carried as an [`Entry`]: its score key, its position in
//! the index (which breaks ties), and its identifier. Positions are
//! distinct, so ordering by `(score, pos)` is strict and total, and the
//! sorted sequence is unique: a stable sort ascending by score.

use vstd::prelude::*;

verus! {

/// One scored candidate: the score key, the record's position in the
/// index, and the record's identifier.
///
/// The score key is an unsigned integer whose natural order agrees with
/// the order of the scores it stands for; the embedding layer derives it
/// from the 32-bit floating-point score by an order-preserving map.
#[derive(Clone, Copy, Debug, PartialEq, Eq, Structural)]
pub struct Entry {
    pub score: u32,
    pub pos: usize,
    pub id: u64,
}

/// Strict ordering: by score, then by position.
pub open spec fn entry_lt(a: Entry, b: Entry) -> bool {
    a.score < b.score || (a.score == b.score && a.pos < b.pos)
}

/// Non-strict ordering: by score, then by position.
pub open spec fn entry_le(a: Entry, b: Entry) -> bool {
    a.score < b.score || (a.score == b.score && a.pos <= b.pos)
}

/// `e` placed into the (sorted) sequence `s`, before the first element
/// greater than `e`.
pub open spec fn insert_sorted(e: Entry, s: Seq<Entry>) -> Seq<Entry>
    decreases s.len(),
{
    if s.len() == 0 {
        seq![e]
    } else if entry_lt(e, s[0]) {
        seq![e] + s
    } else {
        seq![s[0]] + insert_sorted(e, s.drop_first())
    }
}

/// The sequence reordered ascending by `(score, pos)`: insertion sort.
pub open spec fn sort_entries_spec(s: Seq<Entry>) -> Seq<Entry>
    decreases s.len(),
{
    if s.len() == 0 {
        Seq::<Entry>::empty()
    } else {
        insert_sorted(s[0], sort_entries_spec(s.drop_first()))
    }
}

/// Ascending by `(score, pos)` throughout.
pub open spec fn sorted_entries(s: Seq<Entry>) -> bool {
    forall|i: int, j: int| 0 <= i < j < s.len() ==> entry_le(s[i], s[j])
}

/// Inserting adds exactly one element and keeps the others.
pub proof fn lemma_insert_sorted_contents(e: Entry, s: Seq<Entry>)
    ensures
        insert_sorted(e, s).len() == s.len() + 1,
        insert_sorted(e, s).contains(e),
        forall|x: Entry| insert_sorted(e, s).contains(x) <==> (x == e || s.contains(x)),
    decreases s.len(),
{
    if s.len() == 0 {
        assert forall|x: Entry| insert_sorted(e, s).contains(x) implies (x == e || s.contains(x)) by {
            let w = choose|w: int| 0 <= w < insert_sorted(e, s).len() && insert_sorted(e, s)[w] == x;
            assert(w == 0);
        }
        assert(insert_sorted(e, s)[0] == e);
        assert(insert_sorted(e, s).contains(e));
    } else if entry_lt(e, s[0]) {
        let r = insert_sorted(e, s);
        assert(r == seq![e] + s);
        assert(r[0] == e);
        assert(r.contains(e));
        assert forall|x: Entry| r.contains(x) implies (x == e || s.contains(x)) by {
            let w = choose|w: int| 0 <= w < r.len() && r[w] == x;
            if w > 0 {
                assert(s[w - 1] == x);
            }
        }
        assert forall|x: Entry| (x == e || s.contains(x)) implies r.contains(x) by {
            if x == e {
                assert(r[0] == x);
            } else {
                let w = choose|w: int| 0 <= w < s.len() && s[w] == x;
                assert(r[w + 1] == x);
            }
        }
    } else {
        lemma_insert_sorted_contents(e, s.drop_first());
        let rest = insert_sorted(e, s.drop_first());
        let r = insert_sorted(e, s);
        assert(r == seq![s[0]] + rest);
        assert forall|x: Entry| r.contains(x) implies (x == e || s.contains(x)) by {
            let w = choose|w: int| 0 <= w < r.len() && r[w] == x;
            if w == 0 {
                assert(s[0] == x);
                assert(s.contains(x));
            } else {
                assert(rest[w - 1] == x);
                assert(rest.contains(x));
                if x != e {
                    assert(s.drop_first().contains(x));
                    let v = choose|v: int|
                        0 <= v < s.drop_first().len() && s.drop_first()[v] == x;
                    assert(s[v + 1] == x);
                    assert(s.contains(x));
                }
            }
        }
        assert(rest.contains(e));
        let we = choose|we: int| 0 <= we < rest.len() && rest[we] == e;
        assert(r[we + 1] == e);
        assert(r.contains(e));
        assert forall|x: Entry| (x == e || s.contains(x)) implies r.contains(x) by {
            if x == e {
                assert(r.contains(e));
            } else {
                let w = choose|w: int| 0 <= w < s.len() && s[w] == x;
                if w == 0 {
                    assert(r[0] == x);
                    assert(r.contains(x));
                } else {
                    assert(s.drop_first()[w - 1] == x);
                    assert(s.drop_first().contains(x));
                    assert(rest.contains(x));
                    let v = choose|v: int| 0 <= v < rest.len() && rest[v] == x;
                    assert(r[v + 1] == x);
                    assert(r.contains(x));
                }
            }
        }
    }
}

/// Sorting keeps the length and the elements.
pub proof fn lemma_sort_entries_contents(s: Seq<Entry>)
    ensures
        sort_entries_spec(s).len() == s.len(),
        forall|x: Entry| sort_entries_spec(s).contains(x) <==> s.contains(x),
    decreases s.len(),
{
    if s.len() > 0 {
        lemma_sort_entries_contents(s.drop_first());
        lemma_insert_sorted_contents(s[0], sort_entries_spec(s.drop_first()));
        let r = sort_entries_spec(s);
        assert forall|x: Entry| r.contains(x) implies s.contains(x) by {
            if x == s[0] {
                assert(s[0] == x);
                assert(s.contains(x));
            } else {
                assert(sort_entries_spec(s.drop_first()).contains(x));
                assert(s.drop_first().contains(x));
                let w = choose|w: int| 0 <= w < s.drop_first().len() && s.drop_first()[w] == x;
                assert(s[w + 1] == x);
                assert(s.contains(x));
            }
        }
        assert forall|x: Entry| s.contains(x) implies r.contains(x) by {
            let w = choose|w: int| 0 <= w < s.len() && s[w] == x;
            if w > 0 {
                assert(s.drop_first()[w - 1] == x);
                assert(s.drop_first().contains(x));
                assert(sort_entries_spec(s.drop_first()).contains(x));
                assert(r.contains(x));
            } else {
                assert(x == s[0]);
                assert(r.contains(x));
            }
        }
    }
}

/// Inserting into a sorted sequence keeps it sorted.
pub proof fn lemma_insert_sorted_sorted(e: Entry, s: Seq<Entry>)
    requires
        sorted_entries(s),
    ensures
        sorted_entries(insert_sorted(e, s)),
    decreases s.len(),
{
    if s.len() == 0 {
    } else if entry_lt(e, s[0]) {
        let r = insert_sorted(e, s);
        assert(r == seq![e] + s);
        assert forall|i: int, j: int| 0 <= i < j < r.len() implies entry_le(r[i], r[j]) by {
            if i == 0 {
                assert(r[j] == s[j - 1]);
                if j - 1 > 0 {
                    assert(entry_le(s[0], s[j - 1]));
                }
            } else {
                assert(r[i] == s[i - 1] && r[j] == s[j - 1]);
            }
        }
    } else {
        lemma_insert_sorted_sorted(e, s.drop_first());
        lemma_insert_sorted_contents(e, s.drop_first());
        let rest = insert_sorted(e, s.drop_first());
        let r = insert_sorted(e, s);
        assert(r == seq![s[0]] + rest);
        assert forall|i: int, j: int| 0 <= i < j < r.len() implies entry_le(r[i], r[j]) by {
            if i == 0 {
                assert(r[j] == rest[j - 1]);
                assert(rest.contains(rest[j - 1]));
                if rest[j - 1] == e {
                    assert(entry_le(s[0], e));
                } else {
                    assert(s.drop_first().contains(rest[j - 1]));
                    let w = choose|w: int|
                        0 <= w < s.drop_first().len() && s.drop_first()[w] == rest[j - 1];
                    assert(s[w + 1] == rest[j - 1]);
                    assert(entry_le(s[0], s[w + 1]));
                }
            } else {
                assert(r[i] == rest[i - 1] && r[j] == rest[j - 1]);
            }
        }
    }
}

/// The sorted form of any sequence is sorted.
pub proof fn lemma_sort_entries_sorted(s: Seq<Entry>)
    ensures
        sorted_entries(sort_entries_spec(s)),
    decreases s.len(),
{
    if s.len() > 0 {
        lemma_sort_entries_sorted(s.drop_first());
        lemma_insert_sorted_sorted(s[0], sort_entries_spec(s.drop_first()));
    }
}

/// No two entries share a position.
pub open spec fn distinct_positions(s: Seq<Entry>) -> bool {
    forall|p: int, q: int| 0 <= p < q < s.len() ==> s[p].pos != s[q].pos
}

/// Inserting an entry with a fresh position keeps positions distinct.
pub proof fn lemma_insert_sorted_distinct(e: Entry, s: Seq<Entry>)
    requires
        distinct_positions(s),
        forall|p: int| 0 <= p < s.len() ==> #[trigger] s[p].pos != e.pos,
    ensures
        distinct_positions(insert_sorted(e, s)),
    decreases s.len(),
{
    if s.len() == 0 {
    } else if entry_lt(e, s[0]) {
        let r = insert_sorted(e, s);
        assert(r == seq![e] + s);
        assert forall|p: int, q: int| 0 <= p < q < r.len() implies r[p].pos != r[q].pos by {
            if p == 0 {
                assert(r[q] == s[q - 1]);
            } else {
                assert(r[p] == s[p - 1] && r[q] == s[q - 1]);
            }
        }
    } else {
        assert forall|p: int|
            0 <= p < s.drop_first().len() implies #[trigger] s.drop_first()[p].pos != e.pos by {
            assert(s.drop_first()[p] == s[p + 1]);
        }
        lemma_insert_sorted_distinct(e, s.drop_first());
        lemma_insert_sorted_contents(e, s.drop_first());
        let rest = insert_sorted(e, s.drop_first());
        let r = insert_sorted(e, s);
        assert(r == seq![s[0]] + rest);
        assert forall|p: int, q: int| 0 <= p < q < r.len() implies r[p].pos != r[q].pos by {
            if p == 0 {
                assert(r[q] == rest[q - 1]);
                assert(rest.contains(rest[q - 1]));
                if rest[q - 1] == e {
                    assert(s[0].pos != e.pos);
                } else {
                    assert(s.drop_first().contains(rest[q - 1]));
                    let v = choose|v: int|
                        0 <= v < s.drop_first().len() && s.drop_first()[v] == rest[q - 1];
                    assert(s[v + 1] == rest[q - 1]);
                    assert(s[0].pos != s[v + 1].pos);
                }
            } else {
                assert(r[p] == rest[p - 1] && r[q] == rest[q - 1]);
            }
        }
    }
}

/// Sorting keeps positions distinct.
pub proof fn lemma_sort_entries_distinct(s: Seq<Entry>)
    requires
        distinct_positions(s),
    ensures
        distinct_positions(sort_entries_spec(s)),
    decreases s.len(),
{
    if s.len() > 0 {
        let tail = s.drop_first();
        assert forall|p: int, q: int|
            0 <= p < q < tail.len() implies #[trigger] tail[p].pos != #[trigger] tail[q].pos by {
            assert(tail[p] == s[p + 1] && tail[q] == s[q + 1]);
        }
        lemma_sort_entries_distinct(s.drop_first());
        lemma_sort_entries_contents(s.drop_first());
        let sorted_rest = sort_entries_spec(s.drop_first());
        assert forall|p: int|
            0 <= p < sorted_rest.len() implies #[trigger] sorted_rest[p].pos != s[0].pos by {
            assert(sorted_rest.contains(sorted_rest[p]));
            assert(s.drop_first().contains(sorted_rest[p]));
            let v = choose|v: int|
                0 <= v < s.drop_first().len() && s.drop_first()[v] == sorted_rest[p];
            assert(s[v + 1] == sorted_rest[p]);
        }
        lemma_insert_sorted_distinct(s[0], sorted_rest);
    }
}

/// Whether `a` comes strictly before `b`: by score, then by position.
fn entry_lt_exec(a: &Entry, b: &Entry) -> (r: bool)
    ensures
        r == entry_lt(*a, *b),
{
    a.score < b.score || (a.score == b.score && a.pos < b.pos)
}

/// `e` placed into the sorted vector `v` before the first greater element.
fn insert_entry(e: Entry, v: Vec<Entry>) -> (r: Vec<Entry>)
    ensures
        r@ == insert_sorted(e, v@),
    decreases v@.len(),
{
    let mut v = v;
    if v.len() == 0 {
        v.push(e);
        assert(v@ =~= seq![e]);
        v
    } else if entry_lt_exec(&e, &v[0]) {
        let ghost pre = v@;
        v.insert(0, e);
        assert(v@ =~= seq![e] + pre);
        v
    } else {
        let ghost pre = v@;
        let head = v.remove(0);
        assert(v@ =~= pre.drop_first());
        let mut r = insert_entry(e, v);
        let ghost mid = r@;
        r.insert(0, head);
        assert(r@ =~= seq![pre[0]] + mid);
        r
    }
}

/// The entries reordered ascending by `(score, pos)`: since positions are
/// distinct within one index, this is the stable ascending sort by score.
pub fn sort_entries(v: Vec<Entry>) -> (r: Vec<Entry>)
    ensures
        r@ == sort_entries_spec(v@),
    decreases v@.len(),
{
    let mut v = v;
    if v.len() == 0 {
        v
    } else {
        let ghost pre = v@;
        let head = v.remove(0);
        assert(v@ =~= pre.drop_first());
        let rest = sort_entries(v);
        insert_entry(head, rest)
    }
}

} // verus!
