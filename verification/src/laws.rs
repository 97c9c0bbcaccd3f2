//! The engine's guarantees, stated and proved over the pipeline's
//! mathematical model: every result element is one record's evaluation
//! (filtering), its positions spell the query inside its key (soundness),
//! results are cut-off prefixes of the untruncated ranking (truncation),
//! and equal scores keep catalog order (stability).
use vstd::multiset::Multiset;
use vstd::prelude::*;

use crate::item::ItemView;
use crate::matcher::fuzzy_spec;
use crate::matcher::subseq_match_at;
use crate::pipeline::insert_desc;
use crate::pipeline::rank_spec;
use crate::pipeline::score_val;
use crate::pipeline::scored_of;
use crate::pipeline::sort_desc;
use crate::pipeline::with_match;
use crate::text::pattern_sensitive;

verus! {

/// Whether every record of `s` carries a distinct identity.
pub open spec fn unique_ids(s: Seq<ItemView>) -> bool {
    forall|i: int, j: int| 0 <= i < j < s.len() ==> s[i].id != s[j].id
}

/// The position in `s` of the record with identity `id` (meaningful when
/// exactly one record carries it).
pub open spec fn idx_of_id(s: Seq<ItemView>, id: usize) -> int {
    choose|i: int| 0 <= i < s.len() && s[i].id == id
}

/// Whether `out` is what one query evaluation makes of the record `orig`:
/// the matcher accepts `orig.key`, and `out` carries its score and
/// positions on top of `orig`'s identity, key and flag.
pub open spec fn is_evaluation_of(out: ItemView, orig: ItemView, query: Seq<char>) -> bool {
    match fuzzy_spec(orig.key, query) {
        Some(sp) => out == with_match(orig, sp.0, sp.1),
        None => false,
    }
}

/// With distinct identities, `idx_of_id` recovers each record's position.
pub proof fn lemma_idx_of_id(s: Seq<ItemView>, k: int)
    requires
        unique_ids(s),
        0 <= k < s.len(),
    ensures
        idx_of_id(s, s[k].id) == k,
{
    assert(0 <= k < s.len() && s[k].id == s[k].id);
    let i = idx_of_id(s, s[k].id);
    assert(0 <= i < s.len() && s[i].id == s[k].id);
    if i < k {
        assert(s[i].id != s[k].id);
    } else if k < i {
        assert(s[k].id != s[i].id);
    }
}

/// Insertion only adds the inserted record: the result holds the records of
/// `s` and `x`, nothing else.
pub proof fn lemma_insert_desc_multiset(x: ItemView, s: Seq<ItemView>)
    ensures
        insert_desc(x, s).to_multiset() == s.to_multiset().insert(x),
    decreases s.len(),
{
    broadcast use vstd::seq_lib::group_to_multiset_ensures;
    broadcast use vstd::multiset::group_multiset_axioms;

    if s.len() == 0 {
        assert(seq![x] =~= Seq::<ItemView>::empty().push(x));
        assert(insert_desc(x, s).to_multiset() =~= s.to_multiset().insert(x));
    } else if score_val(x) >= score_val(s[0]) {
        vstd::seq_lib::lemma_multiset_commutative(seq![x], s);
        assert(seq![x].to_multiset() =~= Multiset::<ItemView>::empty().insert(x));
        assert(insert_desc(x, s).to_multiset() =~= s.to_multiset().insert(x));
    } else {
        lemma_insert_desc_multiset(x, s.drop_first());
        vstd::seq_lib::lemma_multiset_commutative(seq![s[0]], insert_desc(x, s.drop_first()));
        assert(s =~= seq![s[0]] + s.drop_first());
        vstd::seq_lib::lemma_multiset_commutative(seq![s[0]], s.drop_first());
        assert(seq![s[0]].to_multiset() =~= Multiset::<ItemView>::empty().insert(s[0]));
        assert(insert_desc(x, s).to_multiset() =~= s.to_multiset().insert(x));
    }
}

/// Sorting permutes: the sorted sequence holds exactly the records of `s`.
pub proof fn lemma_sort_desc_multiset(s: Seq<ItemView>)
    ensures
        sort_desc(s).to_multiset() == s.to_multiset(),
    decreases s.len(),
{
    broadcast use vstd::seq_lib::group_to_multiset_ensures;
    broadcast use vstd::multiset::group_multiset_axioms;

    if s.len() > 0 {
        lemma_sort_desc_multiset(s.drop_first());
        lemma_insert_desc_multiset(s[0], sort_desc(s.drop_first()));
        assert(s =~= seq![s[0]] + s.drop_first());
        vstd::seq_lib::lemma_multiset_commutative(seq![s[0]], s.drop_first());
        assert(seq![s[0]].to_multiset() =~= Multiset::<ItemView>::empty().insert(s[0]));
        assert(sort_desc(s).to_multiset() =~= s.to_multiset());
    }
}

/// A record of the sorted sequence is a record of the input, and the other
/// way round.
pub proof fn lemma_sort_desc_contains(s: Seq<ItemView>, y: ItemView)
    ensures
        sort_desc(s).contains(y) <==> s.contains(y),
{
    broadcast use vstd::seq_lib::group_to_multiset_ensures;

    lemma_sort_desc_multiset(s);
    assert(sort_desc(s).contains(y) <==> sort_desc(s).to_multiset().count(y) > 0);
    assert(s.contains(y) <==> s.to_multiset().count(y) > 0);
}

/// Every survivor of scoring is some catalog record's evaluation.
pub proof fn lemma_scored_member(catalog: Seq<ItemView>, query: Seq<char>, y: ItemView)
    requires
        scored_of(catalog, query).contains(y),
    ensures
        exists|j: int|
            0 <= j < catalog.len() && #[trigger] is_evaluation_of(y, catalog[j], query),
    decreases catalog.len(),
{
    let s = scored_of(catalog, query);
    let rest = scored_of(catalog.drop_first(), query);
    let head_len = s.len() - rest.len();
    if fuzzy_spec(catalog[0].key, query) is Some && y == s[0] {
        assert(is_evaluation_of(y, catalog[0], query));
    } else {
        let k = choose|k: int| 0 <= k < s.len() && s[k] == y;
        assert(rest[k - head_len] == y);
        assert(rest.contains(y));
        lemma_scored_member(catalog.drop_first(), query, y);
        let j = choose|j: int|
            0 <= j < catalog.drop_first().len() && #[trigger] is_evaluation_of(
                y,
                catalog.drop_first()[j],
                query,
            );
        assert(catalog[j + 1] == catalog.drop_first()[j]);
        assert(is_evaluation_of(y, catalog[j + 1], query));
    }
}

/// Filtering correctness: every element of a ranking is the evaluation of
/// some catalog record that the matcher accepted; in particular it carries
/// a score.
pub proof fn lemma_rank_filtering(catalog: Seq<ItemView>, query: Seq<char>, limit: int, k: int)
    requires
        0 <= limit,
        0 <= k < rank_spec(catalog, query, limit).len(),
    ensures
        exists|j: int|
            0 <= j < catalog.len() && #[trigger] is_evaluation_of(
                rank_spec(catalog, query, limit)[k],
                catalog[j],
                query,
            ),
        rank_spec(catalog, query, limit)[k].score is Some,
{
    let ranked = sort_desc(scored_of(catalog, query));
    let y = rank_spec(catalog, query, limit)[k];
    if limit < ranked.len() {
        assert(rank_spec(catalog, query, limit) == ranked.take(limit));
        assert(ranked.take(limit)[k] == ranked[k]);
    }
    assert(ranked[k] == y);
    assert(0 <= k < ranked.len());
    assert(ranked.contains(y));
    lemma_sort_desc_contains(scored_of(catalog, query), y);
    lemma_scored_member(catalog, query, y);
}

/// Subsequence soundness: every element of a ranking carries positions, and
/// they spell the query inside that element's own key, ascending, under the
/// smart-case rule.
pub proof fn lemma_rank_positions(catalog: Seq<ItemView>, query: Seq<char>, limit: int, k: int)
    requires
        0 <= limit,
        0 <= k < rank_spec(catalog, query, limit).len(),
    ensures
        rank_spec(catalog, query, limit)[k].match_indices is Some,
        subseq_match_at(
            rank_spec(catalog, query, limit)[k].key,
            query,
            rank_spec(catalog, query, limit)[k].match_indices->0,
            pattern_sensitive(query),
        ),
{
    lemma_rank_filtering(catalog, query, limit, k);
    let y = rank_spec(catalog, query, limit)[k];
    let j = choose|j: int|
        0 <= j < catalog.len() && #[trigger] is_evaluation_of(y, catalog[j], query);
    let sp = fuzzy_spec(catalog[j].key, query)->0;
    assert(y == with_match(catalog[j], sp.0, sp.1));
    assert(subseq_match_at(catalog[j].key, query, sp.1, pattern_sensitive(query)));
}

/// Monotonic truncation: a ranking never exceeds its limit, and a tighter
/// limit yields a prefix of a looser limit's ranking.
pub proof fn lemma_rank_truncation(catalog: Seq<ItemView>, query: Seq<char>, l1: int, l2: int)
    requires
        0 <= l1 <= l2,
    ensures
        rank_spec(catalog, query, l1).len() <= l1,
        rank_spec(catalog, query, l1).len() >= rank_spec(catalog, query, l2).len() || rank_spec(
            catalog,
            query,
            l1,
        ).len() == l1,
        forall|i: int|
            0 <= i < rank_spec(catalog, query, l1).len() ==> rank_spec(catalog, query, l1)[i]
                == #[trigger] rank_spec(catalog, query, l2)[i],
{
}

/// The order that sorting establishes, read against the pre-sort sequence
/// `s`: scores never increase along `t`, and records of equal score stand
/// in the order of their positions in `s`.
pub open spec fn ordered_wrt(s: Seq<ItemView>, t: Seq<ItemView>) -> bool {
    forall|i: int, j: int|
        0 <= i < j < t.len() ==> score_val(#[trigger] t[i]) > score_val(#[trigger] t[j]) || (
        score_val(t[i]) == score_val(t[j]) && idx_of_id(s, t[i].id) < idx_of_id(s, t[j].id))
}

/// Inserting a record that stands before every record of `t` in `s` keeps
/// the sorted order: it goes in front of every record it ties with.
pub proof fn lemma_insert_desc_ordered(x: ItemView, t: Seq<ItemView>, s: Seq<ItemView>)
    requires
        ordered_wrt(s, t),
        forall|m: int|
            0 <= m < t.len() ==> idx_of_id(s, (#[trigger] t[m]).id) > idx_of_id(s, x.id),
    ensures
        ordered_wrt(s, insert_desc(x, t)),
    decreases t.len(),
{
    broadcast use vstd::seq_lib::group_to_multiset_ensures;
    broadcast use vstd::multiset::group_multiset_axioms;

    let r = insert_desc(x, t);
    if t.len() == 0 {
        assert(r =~= seq![x]);
        assert(ordered_wrt(s, r));
    } else if score_val(x) >= score_val(t[0]) {
        assert(r =~= seq![x] + t);
        assert forall|i: int, j: int| 0 <= i < j < r.len() implies score_val(#[trigger] r[i])
            > score_val(#[trigger] r[j]) || (score_val(r[i]) == score_val(r[j]) && idx_of_id(
            s,
            r[i].id,
        ) < idx_of_id(s, r[j].id)) by {
            if i == 0 {
                assert(r[0] == x);
                assert(r[j] == t[j - 1]);
                if j - 1 > 0 {
                    assert(score_val(t[0]) > score_val(t[j - 1]) || (score_val(t[0]) == score_val(
                        t[j - 1],
                    ) && idx_of_id(s, t[0].id) < idx_of_id(s, t[j - 1].id)));
                }
            } else {
                assert(r[i] == t[i - 1]);
                assert(r[j] == t[j - 1]);
            }
        }
    } else {
        let rec = insert_desc(x, t.drop_first());
        assert(r =~= seq![t[0]] + rec);
        assert forall|m: int|
            0 <= m < t.drop_first().len() implies idx_of_id(
            s,
            (#[trigger] t.drop_first()[m]).id,
        ) > idx_of_id(s, x.id) by {
            assert(t.drop_first()[m] == t[m + 1]);
        }
        assert forall|i: int, j: int|
            0 <= i < j < t.drop_first().len() implies score_val(#[trigger] t.drop_first()[i])
            > score_val(#[trigger] t.drop_first()[j]) || (score_val(t.drop_first()[i])
            == score_val(t.drop_first()[j]) && idx_of_id(s, t.drop_first()[i].id) < idx_of_id(
            s,
            t.drop_first()[j].id,
        )) by {
            assert(t.drop_first()[i] == t[i + 1]);
            assert(t.drop_first()[j] == t[j + 1]);
        }
        lemma_insert_desc_ordered(x, t.drop_first(), s);
        lemma_insert_desc_multiset(x, t.drop_first());
        assert forall|i: int, j: int| 0 <= i < j < r.len() implies score_val(#[trigger] r[i])
            > score_val(#[trigger] r[j]) || (score_val(r[i]) == score_val(r[j]) && idx_of_id(
            s,
            r[i].id,
        ) < idx_of_id(s, r[j].id)) by {
            if i == 0 {
                assert(r[0] == t[0]);
                let y = r[j];
                assert(rec[j - 1] == y);
                assert(rec.contains(y));
                assert(rec.to_multiset().count(y) > 0);
                if y == x {
                    assert(score_val(t[0]) > score_val(x));
                } else {
                    assert(t.drop_first().to_multiset().count(y) > 0);
                    assert(t.drop_first().contains(y));
                    let m = choose|m: int|
                        0 <= m < t.drop_first().len() && t.drop_first()[m] == y;
                    assert(t[m + 1] == y);
                    assert(score_val(t[0]) > score_val(t[m + 1]) || (score_val(t[0]) == score_val(
                        t[m + 1],
                    ) && idx_of_id(s, t[0].id) < idx_of_id(s, t[m + 1].id)));
                }
            } else {
                assert(r[i] == rec[i - 1]);
                assert(r[j] == rec[j - 1]);
                assert(score_val(rec[i - 1]) > score_val(rec[j - 1]) || (score_val(rec[i - 1])
                    == score_val(rec[j - 1]) && idx_of_id(s, rec[i - 1].id) < idx_of_id(
                    s,
                    rec[j - 1].id,
                )));
            }
        }
    }
}

/// Sorting a sequence of records with distinct identities yields the
/// descending-score order in which ties keep their original order.
pub proof fn lemma_sort_desc_ordered(s: Seq<ItemView>)
    requires
        unique_ids(s),
    ensures
        ordered_wrt(s, sort_desc(s)),
    decreases s.len(),
{
    if s.len() > 0 {
        let r = s.drop_first();
        let t = sort_desc(r);
        assert forall|i: int, j: int| 0 <= i < j < r.len() implies (#[trigger] r[i]).id != (
        #[trigger] r[j]).id by {
            assert(r[i] == s[i + 1]);
            assert(r[j] == s[j + 1]);
        }
        lemma_sort_desc_ordered(r);
        // Positions in `s` are positions in `r` shifted by one.
        assert forall|m: int|
            0 <= m < t.len() implies idx_of_id(s, (#[trigger] t[m]).id) == idx_of_id(
            r,
            t[m].id,
        ) + 1 && idx_of_id(r, t[m].id) >= 0 by {
            let y = t[m];
            assert(t.contains(y));
            lemma_sort_desc_contains(r, y);
            let mr = choose|mr: int| 0 <= mr < r.len() && r[mr] == y;
            lemma_idx_of_id(r, mr);
            assert(s[mr + 1] == y);
            lemma_idx_of_id(s, mr + 1);
        }
        lemma_idx_of_id(s, 0);
        assert(idx_of_id(s, s[0].id) == 0);
        assert forall|i: int, j: int| 0 <= i < j < t.len() implies score_val(#[trigger] t[i])
            > score_val(#[trigger] t[j]) || (score_val(t[i]) == score_val(t[j]) && idx_of_id(
            s,
            t[i].id,
        ) < idx_of_id(s, t[j].id)) by {
            assert(score_val(t[i]) > score_val(t[j]) || (score_val(t[i]) == score_val(t[j])
                && idx_of_id(r, t[i].id) < idx_of_id(r, t[j].id)));
        }
        assert forall|m: int|
            0 <= m < t.len() implies idx_of_id(s, (#[trigger] t[m]).id) > idx_of_id(
            s,
            s[0].id,
        ) by {}
        lemma_insert_desc_ordered(s[0], t, s);
    }
}

/// Every survivor of scoring carries a score, sits at a position of the
/// catalog (its identity names it), survivors keep distinct identities, and
/// they stand in catalog order.
pub proof fn lemma_scored_ids(catalog: Seq<ItemView>, query: Seq<char>)
    requires
        unique_ids(catalog),
    ensures
        unique_ids(scored_of(catalog, query)),
        forall|k: int|
            0 <= k < scored_of(catalog, query).len() ==> (#[trigger] scored_of(catalog, query)[k]).score is Some,
        forall|k: int|
            0 <= k < scored_of(catalog, query).len() ==> {
                let a = idx_of_id(catalog, (#[trigger] scored_of(catalog, query)[k]).id);
                0 <= a < catalog.len() && catalog[a].id == scored_of(catalog, query)[k].id
            },
        forall|i: int, j: int|
            0 <= i < j < scored_of(catalog, query).len() ==> idx_of_id(
                catalog,
                (#[trigger] scored_of(catalog, query)[i]).id,
            ) < idx_of_id(catalog, (#[trigger] scored_of(catalog, query)[j]).id),
    decreases catalog.len(),
{
    let s = scored_of(catalog, query);
    if catalog.len() > 0 {
        let rc = catalog.drop_first();
        let sr = scored_of(rc, query);
        assert forall|i: int, j: int| 0 <= i < j < rc.len() implies (#[trigger] rc[i]).id != (
        #[trigger] rc[j]).id by {
            assert(rc[i] == catalog[i + 1]);
            assert(rc[j] == catalog[j + 1]);
        }
        lemma_scored_ids(rc, query);
        let head_len = s.len() - sr.len();
        // Positions in the catalog are positions in its tail shifted by one.
        assert forall|k: int|
            0 <= k < sr.len() implies idx_of_id(catalog, (#[trigger] sr[k]).id) == idx_of_id(
            rc,
            sr[k].id,
        ) + 1 by {
            let a = idx_of_id(rc, sr[k].id);
            assert(0 <= a < rc.len() && rc[a].id == sr[k].id);
            assert(catalog[a + 1].id == sr[k].id);
            lemma_idx_of_id(catalog, a + 1);
        }
        lemma_idx_of_id(catalog, 0);
        if fuzzy_spec(catalog[0].key, query) is Some {
            assert(head_len == 1);
            let sp = fuzzy_spec(catalog[0].key, query)->0;
            assert(s[0] == with_match(catalog[0], sp.0, sp.1));
            assert(s[0].id == catalog[0].id);
            assert(idx_of_id(catalog, s[0].id) == 0);
        } else {
            assert(head_len == 0);
        }
        assert forall|k: int| 0 <= k < head_len implies idx_of_id(
            catalog,
            (#[trigger] s[k]).id,
        ) == 0 && catalog[0].id == s[k].id && s[k].score is Some by {}
        assert forall|k: int| head_len <= k < s.len() implies s[k] == sr[k - head_len] by {}
        assert forall|i: int, j: int| 0 <= i < j < s.len() implies idx_of_id(
            catalog,
            (#[trigger] s[i]).id,
        ) < idx_of_id(catalog, (#[trigger] s[j]).id) by {
            if i >= head_len {
                assert(s[i] == sr[i - head_len]);
                assert(s[j] == sr[j - head_len]);
                assert(idx_of_id(rc, sr[i - head_len].id) < idx_of_id(rc, sr[j - head_len].id));
            } else {
                assert(s[j] == sr[j - head_len]);
                assert(idx_of_id(catalog, s[j].id) >= 1);
            }
        }
        assert forall|i: int, j: int| 0 <= i < j < s.len() implies (#[trigger] s[i]).id != (
        #[trigger] s[j]).id by {
            if s[i].id == s[j].id {
                assert(idx_of_id(catalog, s[i].id) < idx_of_id(catalog, s[j].id));
            }
        }
        assert forall|k: int| 0 <= k < s.len() implies (#[trigger] s[k]).score is Some && {
            let a = idx_of_id(catalog, s[k].id);
            0 <= a < catalog.len() && catalog[a].id == s[k].id
        } by {
            if k >= head_len {
                assert(s[k] == sr[k - head_len]);
                let ar = idx_of_id(rc, sr[k - head_len].id);
                assert(0 <= ar < rc.len() && rc[ar].id == sr[k - head_len].id);
                assert(catalog[ar + 1].id == s[k].id);
            }
        }
    }
}

/// Stability under ties: two result records of equal score stand in the
/// order of their records' positions in the catalog.
pub proof fn lemma_rank_stability(
    catalog: Seq<ItemView>,
    query: Seq<char>,
    limit: int,
    i: int,
    j: int,
)
    requires
        unique_ids(catalog),
        0 <= limit,
        0 <= i < j < rank_spec(catalog, query, limit).len(),
        rank_spec(catalog, query, limit)[i].score == rank_spec(catalog, query, limit)[j].score,
    ensures
        ({
            let a = idx_of_id(catalog, rank_spec(catalog, query, limit)[i].id);
            let b = idx_of_id(catalog, rank_spec(catalog, query, limit)[j].id);
            &&& 0 <= a < b < catalog.len()
            &&& catalog[a].id == rank_spec(catalog, query, limit)[i].id
            &&& catalog[b].id == rank_spec(catalog, query, limit)[j].id
        }),
{
    let s = scored_of(catalog, query);
    let ranked = sort_desc(s);
    let out = rank_spec(catalog, query, limit);
    lemma_scored_ids(catalog, query);
    lemma_sort_desc_ordered(s);
    if limit < ranked.len() {
        assert(out == ranked.take(limit));
        assert(ranked.take(limit)[i] == ranked[i]);
        assert(ranked.take(limit)[j] == ranked[j]);
    }
    let yi = out[i];
    let yj = out[j];
    assert(ranked[i] == yi && ranked[j] == yj);
    assert(0 <= i < ranked.len() && 0 <= j < ranked.len());
    assert(ranked.contains(yi) && ranked.contains(yj));
    lemma_sort_desc_contains(s, yi);
    lemma_sort_desc_contains(s, yj);
    let mi = choose|m: int| 0 <= m < s.len() && s[m] == yi;
    let mj = choose|m: int| 0 <= m < s.len() && s[m] == yj;
    lemma_idx_of_id(s, mi);
    lemma_idx_of_id(s, mj);
    assert(yi.score is Some && yj.score is Some);
    assert(score_val(yi) == score_val(yj));
    assert(score_val(ranked[i]) > score_val(ranked[j]) || (score_val(ranked[i]) == score_val(
        ranked[j],
    ) && idx_of_id(s, ranked[i].id) < idx_of_id(s, ranked[j].id)));
    assert(mi < mj);
    assert(idx_of_id(catalog, s[mi].id) < idx_of_id(catalog, s[mj].id));
}

/// Empty query: nothing matches, the ranking is empty.
pub proof fn lemma_rank_empty_query(catalog: Seq<ItemView>, query: Seq<char>, limit: int)
    requires
        query.len() == 0,
        0 <= limit,
    ensures
        rank_spec(catalog, query, limit) == Seq::<ItemView>::empty(),
{
    crate::pipeline::lemma_scored_of_empty_query(catalog, query);
    assert(rank_spec(catalog, query, limit) =~= Seq::<ItemView>::empty());
}

} // verus!
