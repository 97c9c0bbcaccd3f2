//! The fuzzy matcher: a pure function from (candidate key, query) to an
//! optional (score, match positions) pair.
//!
//! The subsequence scoring itself is done by the `fuzzy-matcher` crate
//! (skim's algorithm, smart case). Its score and chosen positions are a
//! fixed function of the two strings, named here by [`skim_result`]; the
//! positions handed back are then checked, in verified code, to really be an
//! ascending subsequence of the key that spells the query under the smart
//! case rule, so every `Some` answer of [`fuzzy_match`] carries sound
//! positions.
use vstd::prelude::*;

use crate::text::char_eq_fuzzy;
use crate::text::chars_equal;
use crate::text::pattern_is_sensitive;
use crate::text::pattern_sensitive;

verus! {

/// Whether `pos` exhibits `pattern` as a subsequence of `choice`: one
/// position per pattern character, strictly ascending, each a valid
/// character offset of `choice`, and the characters at those offsets equal
/// the pattern's characters under the given case rule.
pub open spec fn subseq_match_at(
    choice: Seq<char>,
    pattern: Seq<char>,
    pos: Seq<usize>,
    sensitive: bool,
) -> bool {
    &&& pos.len() == pattern.len()
    &&& (forall|i: int| 0 <= i < pos.len() ==> pos[i] < choice.len())
    &&& (forall|i: int| 0 <= i && i + 1 < pos.len() ==> #[trigger] pos[i] < pos[i + 1])
    &&& (forall|i: int|
        0 <= i < pos.len() ==> chars_equal(choice[pos[i] as int], pattern[i], sensitive))
}

/// Whether `pattern` occurs as a subsequence of `choice` at all, under the
/// given case rule.
pub open spec fn has_fuzzy_match(choice: Seq<char>, pattern: Seq<char>, sensitive: bool) -> bool {
    exists|pos: Seq<usize>| subseq_match_at(choice, pattern, pos, sensitive)
}

/// The score and match positions that the skim scoring scheme assigns to a
/// (candidate, pattern) pair, or `None` when the pattern is not a
/// subsequence of the candidate. For a fixed pair of strings this is a fixed
/// value.
pub uninterp spec fn skim_result(choice: Seq<char>, pattern: Seq<char>) -> Option<(i64, Seq<usize>)>;

/// The mathematical value of an optional (score, positions) answer.
pub open spec fn match_view(r: Option<(i64, Vec<usize>)>) -> Option<(i64, Seq<usize>)> {
    match r {
        Some(sp) => Some((sp.0, sp.1@)),
        None => None,
    }
}

/// Relies on `fuzzy_matcher::skim::SkimMatcherV2::fuzzy_indices` with the
/// default configuration and smart case. The matcher is a pure function of
/// the two strings' characters, so its answer is named by [`skim_result`];
/// and for a non-empty pattern its source answers `Some` exactly when the
/// pattern's characters occur in order within the choice, compared
/// case-insensitively unless the pattern holds an ASCII uppercase letter
/// (`cheap_matches` decides that, and every later path returns a score).
#[verifier::external_body]
fn skim_fuzzy_indices(choice: &str, pattern: &str) -> (r: Option<(i64, Vec<usize>)>)
    ensures
        match_view(r) == skim_result(choice@, pattern@),
        pattern@.len() > 0 ==> (r is Some <==> has_fuzzy_match(
            choice@,
            pattern@,
            pattern_sensitive(pattern@),
        )),
{
    let matcher = fuzzy_matcher::skim::SkimMatcherV2::default().smart_case();
    fuzzy_matcher::FuzzyMatcher::fuzzy_indices(&matcher, choice, pattern)
}

/// Checks that `pos` exhibits `pattern` as a subsequence of `choice` under
/// the given case rule, exactly as [`subseq_match_at`] states it.
#[verifier::rlimit(50)]
pub fn check_positions(choice: &str, pattern: &str, pos: &Vec<usize>, sensitive: bool) -> (r: bool)
    ensures
        r == subseq_match_at(choice@, pattern@, pos@, sensitive),
{
    let n_choice: usize = choice.unicode_len();
    let n_pattern: usize = pattern.unicode_len();
    if pos.len() != n_pattern {
        return false;
    }
    let mut i: usize = 0;
    while i < n_pattern
        invariant
            n_choice == choice@.len(),
            n_pattern == pattern@.len(),
            pos@.len() == n_pattern,
            0 <= i <= n_pattern,
            forall|j: int| 0 <= j < i ==> pos@[j] < choice@.len(),
            forall|j: int| 0 <= j && j + 1 < i ==> #[trigger] pos@[j] < pos@[j + 1],
            forall|j: int|
                0 <= j < i ==> chars_equal(choice@[pos@[j] as int], pattern@[j], sensitive),
        decreases n_pattern - i,
    {
        let p: usize = pos[i];
        if p >= n_choice {
            return false;
        }
        if i > 0 {
            if pos[i - 1] >= p {
                return false;
            }
            assert(pos@[i as int - 1] < pos@[i as int]);
        }
        if !char_eq_fuzzy(choice.get_char(p), pattern.get_char(i), sensitive) {
            return false;
        }
        assert(forall|j: int| 0 <= j && j + 1 < i + 1 ==> #[trigger] pos@[j] < pos@[j + 1]) by {
            assert(forall|j: int| 0 <= j && j + 1 < i ==> #[trigger] pos@[j] < pos@[j + 1]);
        }
        i += 1;
    }
    true
}

/// What [`fuzzy_match`] returns: nothing for an empty pattern; otherwise the
/// skim matcher's answer, kept only when its positions really exhibit the
/// pattern as a subsequence of the choice.
pub open spec fn fuzzy_spec(choice: Seq<char>, pattern: Seq<char>) -> Option<(i64, Seq<usize>)> {
    if pattern.len() == 0 {
        None
    } else {
        match skim_result(choice, pattern) {
            Some(sp) => if subseq_match_at(choice, pattern, sp.1, pattern_sensitive(pattern)) {
                Some(sp)
            } else {
                None
            },
            None => None,
        }
    }
}

/// Scores `pattern` against `choice`.
///
/// An empty pattern never matches. Otherwise the skim scheme assigns the
/// score and the match positions; a `Some` answer always carries positions
/// that are a strictly ascending, valid subsequence of `choice` spelling
/// `pattern` under the smart-case rule. Determinism: the result equals
/// [`fuzzy_spec`] of the two character sequences, so equal inputs always
/// produce equal answers.
pub fn fuzzy_match(choice: &str, pattern: &str) -> (r: Option<(i64, Vec<usize>)>)
    ensures
        match_view(r) == fuzzy_spec(choice@, pattern@),
        pattern@.len() == 0 ==> r is None,
        r matches Some(sp) ==> subseq_match_at(
            choice@,
            pattern@,
            sp.1@,
            pattern_sensitive(pattern@),
        ),
        pattern@.len() > 0 && !has_fuzzy_match(choice@, pattern@, pattern_sensitive(pattern@))
            ==> r is None,
{
    if pattern.is_empty() {
        return None;
    }
    let sensitive = pattern_is_sensitive(pattern);
    match skim_fuzzy_indices(choice, pattern) {
        Some((score, positions)) => {
            if check_positions(choice, pattern, &positions, sensitive) {
                Some((score, positions))
            } else {
                None
            }
        },
        None => None,
    }
}

} // verus!
