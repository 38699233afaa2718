//! Fuzzy matching of a query against a candidate name.
use vstd::prelude::*;
use fuzzy_matcher::skim::SkimMatcherV2;
use fuzzy_matcher::FuzzyMatcher;
use crate::text::chars_of;

verus! {

/// The characters of `p` occur in `s` in the same order, not necessarily next to
/// each other.
pub open spec fn is_subsequence(p: Seq<char>, s: Seq<char>) -> bool
    decreases s.len(),
{
    if p.len() == 0 {
        true
    } else if s.len() == 0 {
        false
    } else if s[0] == p[0] {
        is_subsequence(p.drop_first(), s.drop_first())
    } else {
        is_subsequence(p, s.drop_first())
    }
}

/// The score that the skim matcher of `fuzzy_matcher` gives `pattern` against `choice`.
pub uninterp spec fn skim_score(choice: Seq<char>, pattern: Seq<char>) -> i64;

/// Relies on `fuzzy_matcher::skim::SkimMatcherV2::fuzzy_match` with its default
/// settings: an empty pattern scores 0, a pattern whose characters occur in the
/// choice in order always matches (its first step is a greedy in-order scan that
/// only fails when they do not), and the score depends on the two strings alone.
#[verifier::external_body]
fn skim_match(choice: &str, pattern: &str) -> (r: Option<i64>)
    ensures
        r is Some ==> r->0 == skim_score(choice@, pattern@),
        is_subsequence(pattern@, choice@) ==> r is Some,
        pattern@.len() == 0 ==> r == Some(0i64),
{
    SkimMatcherV2::default().fuzzy_match(choice, pattern)
}

/// The fuzzy score of `pattern` against `name`: none unless the characters of
/// `pattern` occur in `name` in order; 0 for an empty pattern.
pub open spec fn fuzzy_spec(name: Seq<char>, pattern: Seq<char>) -> Option<i64> {
    if pattern.len() == 0 {
        Some(0)
    } else if is_subsequence(pattern, name) {
        Some(skim_score(name, pattern))
    } else {
        None
    }
}

proof fn lemma_subsequence_step(p: Seq<char>, s: Seq<char>, j: int, i: int)
    requires
        0 <= j < p.len(),
        0 <= i < s.len(),
    ensures
        is_subsequence(p.subrange(j, p.len() as int), s.subrange(i, s.len() as int)) == if s[i]
            == p[j] {
            is_subsequence(p.subrange(j + 1, p.len() as int), s.subrange(i + 1, s.len() as int))
        } else {
            is_subsequence(p.subrange(j, p.len() as int), s.subrange(i + 1, s.len() as int))
        },
{
    let pp = p.subrange(j, p.len() as int);
    let ss = s.subrange(i, s.len() as int);
    assert(pp.drop_first() =~= p.subrange(j + 1, p.len() as int));
    assert(ss.drop_first() =~= s.subrange(i + 1, s.len() as int));
}

/// Whether the characters of `p` occur in `s` in order.
pub fn subsequence(p: &Vec<char>, s: &Vec<char>) -> (r: bool)
    ensures
        r == is_subsequence(p@, s@),
{
    let mut i: usize = 0;
    let mut j: usize = 0;
    assert(p@.subrange(0, p.len() as int) =~= p@);
    assert(s@.subrange(0, s.len() as int) =~= s@);
    while j < p.len() && i < s.len()
        invariant
            i <= s.len(),
            j <= p.len(),
            is_subsequence(p@, s@) == is_subsequence(
                p@.subrange(j as int, p.len() as int),
                s@.subrange(i as int, s.len() as int),
            ),
        decreases s.len() - i,
    {
        proof {
            lemma_subsequence_step(p@, s@, j as int, i as int);
        }
        if s[i] == p[j] {
            j = j + 1;
        }
        i = i + 1;
    }
    j == p.len()
}

/// The fuzzy score of `pattern` against `name` (see `fuzzy_spec`).
pub fn fuzzy_score(name: &str, pattern: &str) -> (r: Option<i64>)
    ensures
        r == fuzzy_spec(name@, pattern@),
{
    let pc = chars_of(pattern);
    if pc.len() == 0 {
        return Some(0);
    }
    let nc = chars_of(name);
    if !subsequence(&pc, &nc) {
        return None;
    }
    skim_match(name, pattern)
}

} // verus!
