//! The ranking pipeline: score every catalog record against the query, drop
//! the non-matches, order the survivors by descending score keeping catalog
//! order among equal scores, and truncate to the result bound.
//!
//! [`rank`] is a pure function of its inputs: its result equals
//! [`rank_spec`] of the catalog's and query's mathematical values, so the
//! same (catalog, query, limit) always yields the same result.
use vstd::prelude::*;

use crate::item::Item;
use crate::item::ItemData;
use crate::item::ItemView;
use crate::item::item_views;
use crate::matcher::fuzzy_match;
use crate::matcher::fuzzy_spec;

verus! {

/// The low 32 bits of a skim score: the value stored in a record's `score`
/// field.
pub open spec fn low32(s: i64) -> int {
    (s & 0xFFFF_FFFFi64) as int
}

/// Stores the low 32 bits of a score into a `u32`.
pub fn score_to_u32(s: i64) -> (r: u32)
    ensures
        r as int == low32(s),
{
    let masked: i64 = s & 0xFFFF_FFFF;
    proof {
        assert(0 <= (s & 0xFFFF_FFFFi64) <= 0xFFFF_FFFFi64) by (bit_vector);
    }
    masked as u32
}

/// The record `v` carrying the score and match positions of the current
/// query evaluation; identity, key and selection flag are untouched.
pub open spec fn with_match(v: ItemView, score: i64, pos: Seq<usize>) -> ItemView {
    ItemView {
        id: v.id,
        key: v.key,
        selected: v.selected,
        score: Some(low32(score) as u32),
        match_indices: Some(pos),
    }
}

/// The sort key of a scored record: its score, with an absent score below
/// every present one. The pipeline only ever sorts records whose score is
/// present, so the `None` arm never decides an order between two survivors.
pub open spec fn score_val(v: ItemView) -> int {
    match v.score {
        Some(s) => s as int,
        None => -1,
    }
}

/// The survivors of one query evaluation, in catalog order: every record the
/// matcher accepts, carrying its fresh score and positions; non-matches are
/// dropped.
pub open spec fn scored_of(catalog: Seq<ItemView>, query: Seq<char>) -> Seq<ItemView>
    decreases catalog.len(),
{
    if catalog.len() == 0 {
        Seq::empty()
    } else {
        let head = match fuzzy_spec(catalog[0].key, query) {
            Some(sp) => seq![with_match(catalog[0], sp.0, sp.1)],
            None => Seq::empty(),
        };
        head + scored_of(catalog.drop_first(), query)
    }
}

/// Inserts `x` into `s` for a descending-score order, placing `x` before
/// the first element whose score does not exceed `x`'s: inserting earlier
/// records last thus keeps equal scores in their original order.
pub open spec fn insert_desc(x: ItemView, s: Seq<ItemView>) -> Seq<ItemView>
    decreases s.len(),
{
    if s.len() == 0 {
        seq![x]
    } else if score_val(x) >= score_val(s[0]) {
        seq![x] + s
    } else {
        seq![s[0]] + insert_desc(x, s.drop_first())
    }
}

/// Stable sort by descending score: each element is inserted, last element
/// first, in front of the elements it does not score below.
pub open spec fn sort_desc(s: Seq<ItemView>) -> Seq<ItemView>
    decreases s.len(),
{
    if s.len() == 0 {
        Seq::empty()
    } else {
        insert_desc(s[0], sort_desc(s.drop_first()))
    }
}

/// What [`rank`] returns: the scored survivors of the catalog, stably
/// sorted by descending score, cut to the first `limit` elements.
pub open spec fn rank_spec(catalog: Seq<ItemView>, query: Seq<char>, limit: int) -> Seq<ItemView> {
    let ranked = sort_desc(scored_of(catalog, query));
    if limit < ranked.len() {
        ranked.take(limit)
    } else {
        ranked
    }
}

/// Scoring distributes over concatenation of catalogs.
pub proof fn lemma_scored_of_append(a: Seq<ItemView>, b: Seq<ItemView>, query: Seq<char>)
    ensures
        scored_of(a + b, query) == scored_of(a, query) + scored_of(b, query),
    decreases a.len(),
{
    if a.len() == 0 {
        assert(a + b =~= b);
        assert(scored_of(a, query) + scored_of(b, query) =~= scored_of(b, query));
    } else {
        assert((a + b).drop_first() =~= a.drop_first() + b);
        lemma_scored_of_append(a.drop_first(), b, query);
        assert(scored_of(a, query) + scored_of(b, query) =~= (match fuzzy_spec(
            a[0].key,
            query,
        ) {
            Some(sp) => seq![with_match(a[0], sp.0, sp.1)],
            None => Seq::<ItemView>::empty(),
        }) + (scored_of(a.drop_first(), query) + scored_of(b, query)));
    }
}

/// Scoring a catalog extended by one record appends that record's own
/// evaluation.
pub proof fn lemma_scored_of_push(s: Seq<ItemView>, v: ItemView, query: Seq<char>)
    ensures
        scored_of(s.push(v), query) == scored_of(s, query) + scored_of(seq![v], query),
        scored_of(seq![v], query) == (match fuzzy_spec(v.key, query) {
            Some(sp) => seq![with_match(v, sp.0, sp.1)],
            None => Seq::<ItemView>::empty(),
        }),
{
    assert(s.push(v) =~= s + seq![v]);
    lemma_scored_of_append(s, seq![v], query);
    assert(seq![v].drop_first() =~= Seq::<ItemView>::empty());
    assert(scored_of(seq![v].drop_first(), query) =~= Seq::<ItemView>::empty());
    assert(scored_of(seq![v], query) =~= (match fuzzy_spec(v.key, query) {
        Some(sp) => seq![with_match(v, sp.0, sp.1)],
        None => Seq::<ItemView>::empty(),
    }));
}

/// With an empty query nothing survives scoring.
pub proof fn lemma_scored_of_empty_query(catalog: Seq<ItemView>, query: Seq<char>)
    requires
        query.len() == 0,
    ensures
        scored_of(catalog, query) == Seq::<ItemView>::empty(),
    decreases catalog.len(),
{
    if catalog.len() > 0 {
        lemma_scored_of_empty_query(catalog.drop_first(), query);
        assert(scored_of(catalog, query) =~= Seq::<ItemView>::empty());
    }
}

/// Where the insertion loop stops — after the elements scoring strictly
/// above `x`, in front of the first one scoring at most `x` — is where
/// [`insert_desc`] puts `x`.
pub proof fn lemma_insert_desc_at(x: ItemView, s: Seq<ItemView>, j: int)
    requires
        0 <= j <= s.len(),
        forall|k: int| 0 <= k < j ==> score_val(s[k]) > score_val(x),
        j < s.len() ==> score_val(x) >= score_val(s[j]),
    ensures
        insert_desc(x, s) == s.take(j) + seq![x] + s.skip(j),
    decreases j,
{
    if j == 0 {
        if s.len() == 0 {
            assert(insert_desc(x, s) =~= s.take(0) + seq![x] + s.skip(0));
        } else {
            assert(insert_desc(x, s) =~= s.take(0) + seq![x] + s.skip(0));
        }
    } else {
        lemma_insert_desc_at(x, s.drop_first(), j - 1);
        assert(s.drop_first().take(j - 1) =~= s.take(j).drop_first());
        assert(s.drop_first().skip(j - 1) =~= s.skip(j));
        assert(insert_desc(x, s) =~= s.take(j) + seq![x] + s.skip(j));
    }
}

/// Compares two records' sort keys: strictly greater score.
fn score_gt(a: &Item, b: &Item) -> (r: bool)
    ensures
        r == (score_val(a@) > score_val(b@)),
{
    match (a.score, b.score) {
        (Some(sa), Some(sb)) => sa > sb,
        (Some(_), None) => true,
        (None, Some(_)) => false,
        (None, None) => false,
    }
}

/// A copy of `it` carrying the given score and match positions.
fn scored_item(it: &Item, score: i64, positions: Vec<usize>) -> (r: Item)
    ensures
        r@ == with_match(it@, score, positions@),
{
    Item {
        id: it.id,
        data: ItemData { key: it.data.key.clone() },
        selected: it.selected,
        score: Some(score_to_u32(score)),
        match_indices: Some(positions),
    }
}

/// Inserts `x` in front of the first element whose score does not exceed
/// `x`'s, as [`insert_desc`] describes.
fn insert_sorted(out: &mut Vec<Item>, x: Item)
    ensures
        item_views(final(out)@) == insert_desc(x@, item_views(old(out)@)),
{
    let n: usize = out.len();
    let mut j: usize = 0;
    while j < n && score_gt(&out[j], &x)
        invariant
            n == out@.len(),
            out@ == old(out)@,
            0 <= j <= n,
            forall|k: int| 0 <= k < j ==> score_val(#[trigger] item_views(out@)[k]) > score_val(
                x@,
            ),
        decreases n - j,
    {
        assert(item_views(out@)[j as int] == out@[j as int]@);
        j += 1;
    }
    proof {
        lemma_insert_desc_at(x@, item_views(out@), j as int);
    }
    let ghost prev = out@;
    out.insert(j, x);
    proof {
        assert(item_views(out@) =~= item_views(prev).take(j as int) + seq![x@] + item_views(
            prev,
        ).skip(j as int));
    }
}

/// Scores every record of `catalog` against `query`, in catalog order, and
/// keeps exactly the matches, each carrying its fresh score and positions.
#[verifier::rlimit(100)]
pub fn score_catalog(catalog: &Vec<Item>, query: &str) -> (r: Vec<Item>)
    ensures
        item_views(r@) == scored_of(item_views(catalog@), query@),
{
    let ghost cviews = item_views(catalog@);
    let mut scored: Vec<Item> = Vec::new();
    let n: usize = catalog.len();
    let mut i: usize = 0;
    while i < n
        invariant
            n == catalog@.len(),
            cviews == item_views(catalog@),
            0 <= i <= n,
            item_views(scored@) == scored_of(cviews.take(i as int), query@),
        decreases n - i,
    {
        let it = &catalog[i];
        let ghost prev_scored = item_views(scored@);
        proof {
            assert(cviews.take(i + 1) =~= cviews.take(i as int).push(cviews[i as int]));
            lemma_scored_of_push(cviews.take(i as int), cviews[i as int], query@);
            assert(cviews[i as int] == it@);
        }
        match fuzzy_match(it.data.key.as_str(), query) {
            Some((s, positions)) => {
                scored.push(scored_item(it, s, positions));
                proof {
                    assert(item_views(scored@) =~= prev_scored + seq![
                        with_match(it@, s, positions@),
                    ]);
                }
            },
            None => {
                proof {
                    assert(item_views(scored@) =~= prev_scored + Seq::<ItemView>::empty());
                }
            },
        }
        i += 1;
    }
    proof {
        assert(cviews.take(n as int) =~= cviews);
    }
    scored
}

/// Stably sorts the records by descending score, as [`sort_desc`] describes.
pub fn sort_by_score(items: Vec<Item>) -> (r: Vec<Item>)
    ensures
        item_views(r@) == sort_desc(item_views(items@)),
{
    let mut scored = items;
    let ghost scored0 = item_views(scored@);
    let mut out: Vec<Item> = Vec::new();
    while scored.len() > 0
        invariant
            scored@.len() <= scored0.len(),
            item_views(scored@) == scored0.take(scored@.len() as int),
            item_views(out@) == sort_desc(scored0.skip(scored@.len() as int)),
        decreases scored@.len(),
    {
        let ghost k = scored@.len() as int;
        let ghost prev_scored = scored@;
        let x = scored.pop().unwrap();
        proof {
            assert(x@ == scored0.take(k)[k - 1]);
            assert(item_views(scored@) =~= scored0.take(k - 1));
            assert(scored0.skip(k - 1).drop_first() =~= scored0.skip(k));
            assert(scored0.skip(k - 1)[0] == scored0[k - 1]);
        }
        insert_sorted(&mut out, x);
    }
    proof {
        assert(scored0.skip(0) =~= scored0);
    }
    out
}

/// Scores every record of `catalog` against `query`, keeps the matches with
/// their fresh score and positions, orders them by descending score with
/// catalog order among equal scores, and returns at most `limit` of them.
///
/// The result is pinned to [`rank_spec`], a function of the inputs alone:
/// two calls on equal inputs return equal results. An empty query yields an
/// empty result.
pub fn rank(catalog: &Vec<Item>, query: &str, limit: usize) -> (r: Vec<Item>)
    ensures
        item_views(r@) == rank_spec(item_views(catalog@), query@, limit as int),
        r@.len() <= limit,
        query@.len() == 0 ==> r@.len() == 0,
        forall|k: int| 0 <= k < r@.len() ==> (#[trigger] r@[k]).score is Some,
{
    let ghost cviews = item_views(catalog@);
    let scored = score_catalog(catalog, query);
    let mut out = sort_by_score(scored);
    if out.len() > limit {
        let ghost full = item_views(out@);
        out.truncate(limit);
        proof {
            assert(item_views(out@) =~= full.take(limit as int));
        }
    }
    proof {
        if query@.len() == 0 {
            lemma_scored_of_empty_query(cviews, query@);
            assert(sort_desc(Seq::<ItemView>::empty()) =~= Seq::<ItemView>::empty());
        }
        assert forall|k: int| 0 <= k < out@.len() implies (#[trigger] out@[k]).score is Some by {
            crate::laws::lemma_rank_filtering(cviews, query@, limit as int, k);
            assert(item_views(out@)[k] == out@[k]@);
        }
    }
    out
}

} // verus!
