//! Fuzzy lookup of a player by name.

use vstd::prelude::*;
use crate::text::{
    ascii_case_insensitive_eq, ascii_lowercase, is_ascii_text, lowercase, similarity,
    similarity_key, to_lowercase, MATCH_THRESHOLD_KEY, ONE_KEY,
};

verus! {

/// `r` is what picking the best key gives: the last index of a maximal key,
/// kept only when that key is above the match threshold.
pub open spec fn is_best_match(keys: Seq<u64>, r: Option<usize>) -> bool {
    match r {
        None => forall|j: int| 0 <= j < keys.len() ==> keys[j] <= MATCH_THRESHOLD_KEY,
        Some(i) => {
            &&& i < keys.len()
            &&& keys[i as int] > MATCH_THRESHOLD_KEY
            &&& forall|j: int| 0 <= j < keys.len() ==> keys[j] <= keys[i as int]
            &&& forall|j: int| i < j < keys.len() ==> keys[j] < keys[i as int]
        },
    }
}

/// Similarity keys of `query` against every name, both lowercased.
pub open spec fn match_keys(names: Seq<Seq<char>>, query: Seq<char>) -> Seq<u64> {
    Seq::new(names.len(), |i: int| similarity_key(lowercase(query), lowercase(names[i])))
}

/// At most one answer meets `is_best_match`: the choice of a player is
/// fully determined by the keys.
pub proof fn lemma_best_match_unique(keys: Seq<u64>, r1: Option<usize>, r2: Option<usize>)
    requires
        is_best_match(keys, r1),
        is_best_match(keys, r2),
    ensures
        r1 == r2,
{
    match (r1, r2) {
        (Some(i), Some(j)) => {
            if i < j {
                assert(keys[j as int] < keys[i as int]);
            } else if j < i {
                assert(keys[i as int] < keys[j as int]);
            }
        },
        (Some(i), None) => {
            assert(keys[i as int] <= MATCH_THRESHOLD_KEY);
        },
        (None, Some(j)) => {
            assert(keys[j as int] <= MATCH_THRESHOLD_KEY);
        },
        (None, None) => {},
    }
}

/// The player that a fuzzy search for `query` among `names` finds.
pub open spec fn find_result(names: Seq<Seq<char>>, query: Seq<char>) -> Option<usize> {
    choose|r: Option<usize>| is_best_match(match_keys(names, query), r)
}

/// Similarity keys of `query` against every name, both ASCII-lowercased.
pub open spec fn ascii_match_keys(names: Seq<Seq<char>>, query: Seq<char>) -> Seq<u64> {
    Seq::new(names.len(), |i: int| similarity_key(ascii_lowercase(query), ascii_lowercase(names[i])))
}

/// The player that a fuzzy search for an ASCII `query` among ASCII `names`
/// finds.
pub open spec fn find_result_ascii(names: Seq<Seq<char>>, query: Seq<char>) -> Option<usize> {
    choose|r: Option<usize>| is_best_match(ascii_match_keys(names, query), r)
}

/// Every name in the list is ASCII.
pub open spec fn all_ascii(names: Seq<Seq<char>>) -> bool {
    forall|i: int| 0 <= i < names.len() ==> is_ascii_text(#[trigger] names[i])
}

/// Fuzzy lookup ignores the case of ASCII letters: changing the case of
/// letters in the query or in any name does not change which player is
/// found.  (For ASCII text, `find_player` finds `find_result_ascii`.)
pub proof fn lemma_lookup_ignores_ascii_case(
    names1: Seq<Seq<char>>,
    names2: Seq<Seq<char>>,
    q1: Seq<char>,
    q2: Seq<char>,
)
    requires
        names1.len() == names2.len(),
        forall|i: int| 0 <= i < names1.len() ==> ascii_case_insensitive_eq(#[trigger] names1[i], names2[i]),
        ascii_case_insensitive_eq(q1, q2),
    ensures
        find_result_ascii(names1, q1) == find_result_ascii(names2, q2),
{
    assert(ascii_lowercase(q1) =~= ascii_lowercase(q2));
    assert forall|i: int| 0 <= i < names1.len() implies ascii_lowercase(#[trigger] names1[i])
        == ascii_lowercase(names2[i]) by {
        assert(ascii_case_insensitive_eq(names1[i], names2[i]));
        assert(ascii_lowercase(names1[i]) =~= ascii_lowercase(names2[i]));
    }
    assert(ascii_match_keys(names1, q1) =~= ascii_match_keys(names2, q2));
}

/// Picks the best of a list of similarity keys: the last index among those
/// with the greatest key (as `Iterator::max_by` does on ties), or `None`
/// when the list is empty or that key is not above the threshold.
pub fn best_match(keys: &Vec<u64>) -> (r: Option<usize>)
    ensures
        is_best_match(keys@, r),
{
    if keys.len() == 0 {
        return None;
    }
    let mut best: usize = 0;
    let mut i: usize = 1;
    while i < keys.len()
        invariant
            1 <= i <= keys.len(),
            best < i,
            forall|j: int| 0 <= j < i ==> keys@[j] <= keys@[best as int],
            forall|j: int| best < j < i ==> keys@[j] < keys@[best as int],
        decreases keys.len() - i,
    {
        if keys[best] <= keys[i] {
            best = i;
        }
        i = i + 1;
    }
    if keys[best] > MATCH_THRESHOLD_KEY {
        Some(best)
    } else {
        None
    }
}

/// Finds the player whose name is most similar to `query`: both are
/// lowercased, compared with Jaro-Winkler, and the best candidate is kept
/// when its similarity is above 0.80.  A name that lowercases to the same
/// text as the query is always found.
pub fn find_player(names: &Vec<String>, query: &str) -> (r: Option<usize>)
    ensures
        is_best_match(match_keys(names.deep_view(), query@), r),
        r == find_result(names.deep_view(), query@),
        is_ascii_text(query@) && all_ascii(names.deep_view()) ==> r == find_result_ascii(
            names.deep_view(),
            query@,
        ),
        (exists|i: int| 0 <= i < names.len() && lowercase(names@[i]@) == lowercase(query@))
            ==> r is Some,
{
    let query_lower = to_lowercase(query);
    let ghost want = match_keys(names.deep_view(), query@);
    let mut keys: Vec<u64> = Vec::new();
    let mut i: usize = 0;
    while i < names.len()
        invariant
            i <= names.len(),
            want == match_keys(names.deep_view(), query@),
            query_lower@ == lowercase(query@),
            keys@.len() == i,
            forall|j: int| 0 <= j < i ==> keys@[j] == want[j],
            forall|j: int|
                0 <= j < i && lowercase(names@[j]@) == lowercase(query@) ==> keys@[j] == ONE_KEY,
            forall|j: int|
                0 <= j < i && is_ascii_text(names@[j]@) ==> lowercase(names@[j]@) == ascii_lowercase(
                    names@[j]@,
                ),
        decreases names.len() - i,
    {
        let name_lower = to_lowercase(names[i].as_str());
        let key = similarity(query_lower.as_str(), name_lower.as_str());
        keys.push(key);
        i = i + 1;
    }
    assert(keys@ =~= want);
    let r = best_match(&keys);
    proof {
        if exists|i: int| 0 <= i < names.len() && lowercase(names@[i]@) == lowercase(query@) {
            let k = choose|i: int| 0 <= i < names.len() && lowercase(names@[i]@) == lowercase(query@);
            assert(keys@[k] == ONE_KEY);
        }
        let f = find_result(names.deep_view(), query@);
        assert(is_best_match(want, f));
        lemma_best_match_unique(want, r, f);
        if is_ascii_text(query@) && all_ascii(names.deep_view()) {
            let ak = ascii_match_keys(names.deep_view(), query@);
            assert forall|j: int| 0 <= j < names.len() implies ak[j] == want[j] by {
                assert(is_ascii_text(names.deep_view()[j]));
            }
            assert(ak =~= want);
            let fa = find_result_ascii(names.deep_view(), query@);
            assert(is_best_match(ak, fa));
            lemma_best_match_unique(want, r, fa);
        }
    }
    r
}

/// What the pick of the best key means: something is picked exactly when
/// some key is above the threshold; the pick has the greatest key, and no
/// later entry has a key as great (so of equal best keys the last wins).
pub proof fn lemma_best_match_meaning(keys: Seq<u64>, r: Option<usize>)
    requires
        is_best_match(keys, r),
    ensures
        r is Some <==> exists|j: int| 0 <= j < keys.len() && #[trigger] keys[j] > MATCH_THRESHOLD_KEY,
        r matches Some(i) ==> 0 <= i < keys.len() && keys[i as int] > MATCH_THRESHOLD_KEY,
        r matches Some(i) ==> forall|j: int| 0 <= j < keys.len() ==> #[trigger] keys[j] <= keys[i as int],
        r matches Some(i) ==> forall|j: int| i < j < keys.len() ==> #[trigger] keys[j] != keys[i as int],
{
    if r is None {
        assert forall|j: int| 0 <= j < keys.len() implies !(#[trigger] keys[j] > MATCH_THRESHOLD_KEY) by {}
    } else {
        let i = r->Some_0;
        assert(keys[i as int] > MATCH_THRESHOLD_KEY);
    }
}

} // verus!
