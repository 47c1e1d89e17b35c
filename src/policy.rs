//! Whether a message may change the sender's key, and what the account learns
//! from it.

use vstd::prelude::*;

use crate::candidates::{
    candidate_set, config_words, next_candidates, parse_authservid_candidates_config,
    update_authservid_candidates,
};
use crate::results::{authres_map, parse_authres_headers, AuthenticationResults, AuthresMap};
use crate::text::{chars_of, same_chars, string_views};

verus! {

/// The one authserv-id of a candidate set, or why there is none.
#[derive(Debug)]
pub enum CandidateChoice {
    NoCandidate,
    Unique(String),
    Ambiguous,
}

/// The id that makes up the whole of `cands`, if any.
pub open spec fn unique_candidate(cands: Set<Seq<char>>) -> Option<Seq<char>> {
    if exists|id: Seq<char>| cands == Set::<Seq<char>>::empty().insert(id) {
        Some(choose|id: Seq<char>| cands == Set::<Seq<char>>::empty().insert(id))
    } else {
        None
    }
}

/// Whether DKIM is taken to have passed: where the message carries
/// authentication results and a single candidate reported on it, its verdict;
/// otherwise yes.
pub open spec fn dkim_passed_for(
    res: Map<Seq<char>, AuthenticationResults>,
    cands: Set<Seq<char>>,
) -> bool {
    if res.dom() == Set::<Seq<char>>::empty() {
        true
    } else {
        match unique_candidate(cands) {
            Some(id) => if res.contains_key(id) {
                res[id].dkim_passed
            } else {
                true
            },
            None => true,
        }
    }
}

/// A key change is refused only where DKIM failed for a domain on which it is
/// known to work.
pub open spec fn keychange_allowed(dkim_passed: bool, dkim_known_to_work: bool) -> bool {
    dkim_passed || !dkim_known_to_work
}

/// The decision on one message, and whether the sending domain is now to be
/// recorded as one on which DKIM works.
#[derive(Clone, Copy, Debug, PartialEq, Eq, Structural)]
pub struct KeychangeDecision {
    pub allow_keychange: bool,
    pub mark_dkim_working: bool,
}

/// What handling one message yields: the candidate value to store, if it
/// changed, and the decision.
#[derive(Debug)]
pub struct AuthresOutcome {
    pub new_candidates: Option<String>,
    pub allow_keychange: bool,
    pub mark_dkim_working: bool,
}

/// The single candidate that a stored candidate value holds.
pub fn single_candidate(config: &Option<String>) -> (r: CandidateChoice)
    ensures
        r is NoCandidate <==> candidate_set(*config) == Set::<Seq<char>>::empty(),
        r is NoCandidate ==> unique_candidate(candidate_set(*config)) is None,
        r matches CandidateChoice::Unique(s) ==> unique_candidate(candidate_set(*config)) == Some(
            s@,
        ),
        r is Ambiguous ==> candidate_set(*config) != Set::<Seq<char>>::empty() && unique_candidate(
            candidate_set(*config),
        ) is None,
{
    let ws = parse_authservid_candidates_config(config);
    let ghost v = string_views(ws@);
    let ghost cands = candidate_set(*config);
    assert(v == config_words(*config));
    if ws.len() == 0 {
        proof {
            assert(cands =~= Set::<Seq<char>>::empty());
            if exists|id: Seq<char>| cands == Set::<Seq<char>>::empty().insert(id) {
                let id = choose|id: Seq<char>| cands == Set::<Seq<char>>::empty().insert(id);
                assert(Set::<Seq<char>>::empty().insert(id).contains(id));
            }
        }
        return CandidateChoice::NoCandidate;
    }
    assert(v.contains(v[0]));
    assert(cands.contains(v[0]));
    let first = chars_of(ws[0].as_str());
    let mut i: usize = 1;
    while i < ws.len()
        invariant
            v == string_views(ws@),
            v == config_words(*config),
            cands == candidate_set(*config),
            cands.contains(v[0]),
            first@ == v[0],
            1 <= i <= ws.len(),
            forall|k: int| 0 <= k < i ==> #[trigger] v[k] == first@,
        decreases ws.len() - i,
    {
        let w = chars_of(ws[i].as_str());
        if !same_chars(w.as_slice(), first.as_slice()) {
            proof {
                assert(v.contains(v[i as int]));
                assert(cands.contains(v[i as int]));
                if exists|id: Seq<char>| cands == Set::<Seq<char>>::empty().insert(id) {
                    let id = choose|id: Seq<char>| cands == Set::<Seq<char>>::empty().insert(id);
                    assert(v[0] == id);
                    assert(v[i as int] == id);
                }
            }
            return CandidateChoice::Ambiguous;
        }
        i = i + 1;
    }
    let only = ws[0].clone();
    proof {
        let single = Set::<Seq<char>>::empty().insert(first@);
        assert forall|x: Seq<char>| cands.contains(x) <==> single.contains(x) by {
            if cands.contains(x) {
                let k = choose|k: int| 0 <= k < v.len() && v[k] == x;
                assert(v[k] == first@);
            }
        }
        assert(cands =~= single);
        let id = choose|id: Seq<char>| cands == Set::<Seq<char>>::empty().insert(id);
        assert(cands.contains(id));
        assert(id == first@);
    }
    CandidateChoice::Unique(only)
}

/// Whether the key change that a message claims may happen, given its
/// authentication results, the stored candidate value and whether DKIM is
/// known to work for the sending domain.
pub fn should_allow_keychange(
    authentication_results: &AuthresMap,
    candidates_config: &Option<String>,
    dkim_known_to_work: bool,
) -> (r: KeychangeDecision)
    requires
        authentication_results.wf(),
    ensures
        r.allow_keychange == keychange_allowed(
            dkim_passed_for(authentication_results@, candidate_set(*candidates_config)),
            dkim_known_to_work,
        ),
        r.mark_dkim_working == (!dkim_known_to_work && dkim_passed_for(
            authentication_results@,
            candidate_set(*candidates_config),
        )),
{
    let mut dkim_passed = true;
    if !authentication_results.is_empty() {
        match single_candidate(candidates_config) {
            CandidateChoice::Unique(id) => {
                match authentication_results.get(id.as_str()) {
                    Some(res) => {
                        dkim_passed = res.dkim_passed;
                    },
                    None => {},
                }
            },
            _ => {},
        }
    }
    KeychangeDecision {
        allow_keychange: dkim_passed || !dkim_known_to_work,
        mark_dkim_working: !dkim_known_to_work && dkim_passed,
    }
}

/// Handles the `Authentication-Results` header values of one message from a
/// sender at `from_domain`: narrows the stored candidates, then decides on the
/// key change against the narrowed set.
pub fn handle_authres(
    headers: &[String],
    from_domain: &str,
    candidates_config: &Option<String>,
    dkim_known_to_work: bool,
) -> (r: AuthresOutcome)
    ensures
        ({
            let res = authres_map(string_views(headers@), from_domain@);
            let old = candidate_set(*candidates_config);
            let next = next_candidates(old, res.dom());
            &&& (r.new_candidates is Some <==> next != old)
            &&& (r.new_candidates matches Some(s) ==> candidate_set(Some(s)) == next)
            &&& r.allow_keychange == keychange_allowed(dkim_passed_for(res, next), dkim_known_to_work)
            &&& r.mark_dkim_working == (!dkim_known_to_work && dkim_passed_for(res, next))
        }),
{
    let results = parse_authres_headers(headers, from_domain);
    let new_candidates = update_authservid_candidates(candidates_config, &results);
    let current: Option<String> = match &new_candidates {
        Some(s) => Some(s.clone()),
        None => match candidates_config {
            Some(s) => Some(s.clone()),
            None => None,
        },
    };
    let decision = should_allow_keychange(&results, &current, dkim_known_to_work);
    AuthresOutcome {
        new_candidates,
        allow_keychange: decision.allow_keychange,
        mark_dkim_working: decision.mark_dkim_working,
    }
}

/// Once DKIM is known to work for a domain, a message from it on which DKIM
/// failed may not change the key; while it is not known to work, any message may.
pub proof fn lemma_regression_denied(dkim_passed: bool, dkim_known_to_work: bool)
    ensures
        dkim_known_to_work && !dkim_passed ==> !keychange_allowed(dkim_passed, dkim_known_to_work),
        !dkim_known_to_work ==> keychange_allowed(dkim_passed, dkim_known_to_work),
        dkim_passed ==> keychange_allowed(dkim_passed, dkim_known_to_work),
{
}

/// A message without `Authentication-Results` headers yields no verdicts and
/// leaves the stored candidates as they were.
pub proof fn lemma_no_headers_no_update(
    headers: Seq<Seq<char>>,
    from_domain: Seq<char>,
    candidates_config: Option<String>,
)
    requires
        headers.len() == 0,
    ensures
        authres_map(headers, from_domain) == Map::<Seq<char>, AuthenticationResults>::empty(),
        next_candidates(
            candidate_set(candidates_config),
            authres_map(headers, from_domain).dom(),
        ) == candidate_set(candidates_config),
{
    assert(authres_map(headers, from_domain) =~= Map::<Seq<char>, AuthenticationResults>::empty());
}

} // verus!
