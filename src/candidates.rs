//! The per-account set of authserv-ids believed to be the account's own
//! authentication service, stored as a whitespace-separated string.

use vstd::prelude::*;

use crate::results::AuthresMap;
use crate::text::{
    chars_of, has_ws, is_word, is_ws, join_words, same_chars, split_words, string_from_chars,
    string_views, views, words,
};

verus! {

pub open spec fn config_words(config: Option<String>) -> Seq<Seq<char>> {
    match config {
        Some(s) => words(s@),
        None => seq![],
    }
}

/// The candidate set that a stored configuration value holds.
pub open spec fn candidate_set(config: Option<String>) -> Set<Seq<char>> {
    config_words(config).to_set()
}

/// The candidates after a message whose authentication results name `seen`:
/// unchanged when it names none, `seen` when there were none, else the common part.
pub open spec fn next_candidates(old: Set<Seq<char>>, seen: Set<Seq<char>>) -> Set<Seq<char>> {
    if seen == Set::<Seq<char>>::empty() {
        old
    } else if old == Set::<Seq<char>>::empty() {
        seen
    } else {
        old.intersect(seen)
    }
}

/// Every word of `s` is non-empty and free of whitespace; where `s` ends in a
/// non-space character, its last word ends in it.
proof fn lemma_words_are_words(s: Seq<char>)
    ensures
        forall|i: int| 0 <= i < words(s).len() ==> is_word(#[trigger] words(s)[i]),
        s.len() > 0 && !is_ws(s.last()) ==> words(s).len() > 0 && words(s).last().last() == s.last(),
    decreases s.len(),
{
    if s.len() > 0 {
        let prev = words(s.drop_last());
        lemma_words_are_words(s.drop_last());
        let c = s.last();
        if !is_ws(c) {
            if s.len() >= 2 && !is_ws(s[s.len() - 2]) {
                assert(s.drop_last().last() == s[s.len() - 2]);
                let w = prev.last().push(c);
                assert(is_word(prev.last()));
                assert(!has_ws(w)) by {
                    assert forall|k: int| 0 <= k < w.len() implies !is_ws(#[trigger] w[k]) by {
                        if k < w.len() - 1 {
                            assert(w[k] == prev.last()[k]);
                        }
                    }
                }
                assert forall|i: int| 0 <= i < words(s).len() implies is_word(#[trigger] words(s)[i]) by {
                    if i < words(s).len() - 1 {
                        assert(words(s)[i] == prev[i]);
                    }
                }
            } else {
                let w = seq![c];
                assert(!has_ws(w)) by {
                    assert forall|k: int| 0 <= k < w.len() implies !is_ws(#[trigger] w[k]) by {}
                }
                assert forall|i: int| 0 <= i < words(s).len() implies is_word(#[trigger] words(s)[i]) by {
                    if i < words(s).len() - 1 {
                        assert(words(s)[i] == prev[i]);
                    }
                }
            }
        }
    }
}

/// `words` of `prefix`, a space and a word `w` are the words of `prefix`
/// followed by `w`.
proof fn lemma_words_append(prefix: Seq<char>, w: Seq<char>, n: int)
    requires
        is_word(w),
        0 <= n <= w.len(),
    ensures
        words(prefix + seq![' '] + w.take(n)) == (if n == 0 {
            words(prefix)
        } else {
            words(prefix).push(w.take(n))
        }),
    decreases n,
{
    let s = prefix + seq![' '] + w.take(n);
    if n == 0 {
        assert(s.drop_last() =~= prefix);
        assert(is_ws(s.last()));
    } else {
        lemma_words_append(prefix, w, n - 1);
        assert(s.drop_last() =~= prefix + seq![' '] + w.take(n - 1));
        assert(s.last() == w[n - 1]);
        assert(!is_ws(w[n - 1]));
        if n >= 2 {
            assert(s[s.len() - 2] == w[n - 2]);
            assert(!is_ws(w[n - 2]));
            assert(w.take(n - 1).push(w[n - 1]) =~= w.take(n));
            let p = words(prefix).push(w.take(n - 1));
            assert(p.drop_last() =~= words(prefix));
        } else {
            assert(s[s.len() - 2] == ' ');
            assert(is_ws(' '));
            assert(w.take(1) =~= seq![w[0]]);
        }
    }
}

proof fn lemma_words_single(w: Seq<char>, n: int)
    requires
        is_word(w),
        0 < n <= w.len(),
    ensures
        words(w.take(n)) == seq![w.take(n)],
    decreases n,
{
    let s = w.take(n);
    assert(!is_ws(w[n - 1]));
    if n == 1 {
        assert(s.drop_last() =~= Seq::<char>::empty());
        assert(s =~= seq![w[0]]);
        assert(Seq::<Seq<char>>::empty().push(seq![w[0]]) =~= seq![s]);
        assert(words(Seq::<char>::empty()) == Seq::<Seq<char>>::empty());
        assert(s.last() == w[0]);
        assert(words(s) == words(s.drop_last()).push(seq![s.last()]));
    } else {
        lemma_words_single(w, n - 1);
        assert(s.drop_last() =~= w.take(n - 1));
        assert(!is_ws(w[n - 2]));
        assert(s[s.len() - 2] == w[n - 2]);
        assert(s.last() == w[n - 1]);
        let prev = words(s.drop_last());
        assert(prev == seq![w.take(n - 1)]);
        assert(words(s) == prev.drop_last().push(prev.last().push(s.last())));
        assert(w.take(n - 1).push(w[n - 1]) =~= s);
        assert(seq![w.take(n - 1)].drop_last() =~= Seq::<Seq<char>>::empty());
        assert(Seq::<Seq<char>>::empty().push(s) =~= seq![s]);
    }
}

/// Joining words by spaces and splitting the result again gives the words back.
pub proof fn lemma_words_of_join(ws: Seq<Seq<char>>)
    requires
        forall|i: int| 0 <= i < ws.len() ==> is_word(#[trigger] ws[i]),
    ensures
        words(join_words(ws)) == ws,
    decreases ws.len(),
{
    if ws.len() == 1 {
        lemma_words_single(ws[0], ws[0].len() as int);
        assert(ws[0].take(ws[0].len() as int) =~= ws[0]);
        assert(ws =~= seq![ws[0]]);
    } else if ws.len() > 1 {
        let init = ws.drop_last();
        assert forall|i: int| 0 <= i < init.len() implies is_word(#[trigger] init[i]) by {
            assert(init[i] == ws[i]);
        }
        lemma_words_of_join(init);
        let w = ws.last();
        assert(is_word(w));
        lemma_words_append(join_words(init), w, w.len() as int);
        assert(w.take(w.len() as int) =~= w);
        assert(init.push(w) =~= ws);
    }
}

/// The words of a stored candidate value.
pub fn parse_authservid_candidates_config(config: &Option<String>) -> (r: Vec<String>)
    ensures
        string_views(r@) == config_words(*config),
{
    match config {
        None => {
            let r: Vec<String> = Vec::new();
            assert(string_views(r@) =~= Seq::<Seq<char>>::empty());
            r
        },
        Some(s) => {
            let cs = chars_of(s.as_str());
            let ws = split_words(cs.as_slice());
            let mut r: Vec<String> = Vec::new();
            let mut i: usize = 0;
            while i < ws.len()
                invariant
                    i <= ws.len(),
                    string_views(r@) == views(ws@).take(i as int),
                decreases ws.len() - i,
            {
                let ghost r0 = string_views(r@);
                let t = string_from_chars(ws[i].as_slice());
                r.push(t);
                assert(views(ws@)[i as int] == ws@[i as int]@);
                assert(string_views(r@) =~= r0.push(t@));
                assert(views(ws@).take(i + 1) =~= views(ws@).take(i as int).push(ws@[i as int]@));
                i = i + 1;
            }
            assert(views(ws@).take(ws.len() as int) =~= views(ws@));
            r
        },
    }
}

/// The words joined by single spaces.
fn join_exec(ws: &Vec<String>) -> (r: String)
    ensures
        r@ == join_words(string_views(ws@)),
{
    let mut out: Vec<char> = Vec::new();
    let mut i: usize = 0;
    while i < ws.len()
        invariant
            i <= ws.len(),
            out@ == join_words(string_views(ws@).take(i as int)),
        decreases ws.len() - i,
    {
        let ghost before = out@;
        if i > 0 {
            out.push(' ');
        }
        let cs = chars_of(ws[i].as_str());
        let mut k: usize = 0;
        while k < cs.len()
            invariant
                k <= cs.len(),
                out@ == (if i > 0 {
                    before + seq![' ']
                } else {
                    before
                }) + cs@.take(k as int),
            decreases cs.len() - k,
        {
            out.push(cs[k]);
            k = k + 1;
            assert(out@ =~= (if i > 0 {
                before + seq![' ']
            } else {
                before
            }) + cs@.take(k as int));
        }
        proof {
            let t = string_views(ws@).take(i + 1);
            assert(t.drop_last() =~= string_views(ws@).take(i as int));
            assert(cs@.take(cs.len() as int) =~= cs@);
            assert(t.last() == cs@);
            if i == 0 {
                assert(before =~= Seq::<char>::empty());
                assert(out@ =~= cs@);
            }
        }
        i = i + 1;
    }
    assert(string_views(ws@).take(ws.len() as int) =~= string_views(ws@));
    string_from_chars(out.as_slice())
}

/// The value to store after a message whose authentication results are
/// `authentication_results`, given the stored value `old_config`; `None` when
/// the candidate set stays as it was, so that nothing needs writing.
pub fn update_authservid_candidates(
    old_config: &Option<String>,
    authentication_results: &AuthresMap,
) -> (r: Option<String>)
    requires
        authentication_results.wf(),
    ensures
        r is Some <==> next_candidates(candidate_set(*old_config), authentication_results@.dom())
            != candidate_set(*old_config),
        r matches Some(s) ==> candidate_set(Some(s)) == next_candidates(
            candidate_set(*old_config),
            authentication_results@.dom(),
        ),
        r matches Some(s) ==> words(s@).no_duplicates() && s@ == join_words(words(s@)),
{
    let ghost old_set = candidate_set(*old_config);
    let ghost seen = authentication_results@.dom();
    if authentication_results.is_empty() {
        return None;
    }
    let keys = authentication_results.keys();
    let old_words = parse_authservid_candidates_config(old_config);
    let new_words: Vec<String>;
    if old_words.len() == 0 {
        assert(old_set =~= Set::<Seq<char>>::empty()) by {
            assert(config_words(*old_config) =~= Seq::<Seq<char>>::empty());
        }
        new_words = keys;
    } else {
        proof {
            assert(old_set.contains(string_views(old_words@)[0]));
        }
        let mut kept: Vec<String> = Vec::new();
        let mut changed = false;
        let mut i: usize = 0;
        while i < old_words.len()
            invariant
                i <= old_words.len(),
                string_views(old_words@) == config_words(*old_config),
                string_views(keys@).to_set() == seen,
                forall|q: int| 0 <= q < kept.len() ==> is_word(#[trigger] string_views(kept@)[q]),
                string_views(kept@).no_duplicates(),
                forall|w: Seq<char>|
                    #[trigger] string_views(kept@).contains(w) <==> (string_views(old_words@).take(
                        i as int,
                    ).contains(w) && seen.contains(w)),
                changed <==> exists|q: int|
                    0 <= q < i && !seen.contains(#[trigger] string_views(old_words@)[q]),
            decreases old_words.len() - i,
        {
            let w = chars_of(old_words[i].as_str());
            let mut found = false;
            let mut j: usize = 0;
            while j < keys.len()
                invariant
                    j <= keys.len(),
                    found <==> exists|q: int| 0 <= q < j && string_views(keys@)[q] == w@,
                decreases keys.len() - j,
            {
                let kc = chars_of(keys[j].as_str());
                assert(string_views(keys@)[j as int] == kc@);
                if same_chars(kc.as_slice(), w.as_slice()) {
                    found = true;
                }
                j = j + 1;
            }
            proof {
                assert(found <==> string_views(keys@).contains(w@));
                assert(string_views(old_words@)[i as int] == w@);
                assert(string_views(old_words@).take(i + 1) =~= string_views(old_words@).take(
                    i as int,
                ).push(w@));
                lemma_words_are_words(old_config->0@);
            }
            let mut dup = false;
            let mut m: usize = 0;
            while m < kept.len()
                invariant
                    m <= kept.len(),
                    dup <==> exists|q: int| 0 <= q < m && string_views(kept@)[q] == w@,
                decreases kept.len() - m,
            {
                let kc = chars_of(kept[m].as_str());
                assert(string_views(kept@)[m as int] == kc@);
                if same_chars(kc.as_slice(), w.as_slice()) {
                    dup = true;
                }
                m = m + 1;
            }
            let ghost kept0 = string_views(kept@);
            assert(dup <==> kept0.contains(w@));
            if found {
                if !dup {
                    kept.push(old_words[i].clone());
                    assert(string_views(kept@) =~= kept0.push(w@));
                    assert(string_views(kept@).no_duplicates()) by {
                        assert forall|a: int, b: int|
                            0 <= a < string_views(kept@).len() && 0 <= b < string_views(kept@).len()
                                && a != b implies string_views(kept@)[a] != string_views(kept@)[b] by {
                            if a < kept0.len() && b < kept0.len() {
                                assert(kept0[a] != kept0[b]);
                            } else if a < kept0.len() {
                                assert(kept0[a] != w@);
                            } else {
                                assert(kept0[b] != w@);
                            }
                        }
                    }
                }
            } else {
                changed = true;
            }
            proof {
                let ov = string_views(old_words@);
                assert forall|w2: Seq<char>|
                    #[trigger] string_views(kept@).contains(w2) implies (ov.take(i + 1).contains(w2)
                        && seen.contains(w2)) by {
                    let q = choose|q: int|
                        0 <= q < string_views(kept@).len() && #[trigger] string_views(kept@)[q] == w2;
                    if q < kept0.len() {
                        assert(kept0[q] == w2);
                        assert(kept0.contains(w2));
                        let p = choose|p: int| 0 <= p < i && #[trigger] ov.take(i as int)[p] == w2;
                        assert(ov.take(i + 1)[p] == w2);
                    } else {
                        assert(w2 == w@);
                        assert(ov.take(i + 1)[i as int] == w2);
                    }
                }
                assert forall|w2: Seq<char>|
                    ov.take(i + 1).contains(w2) && seen.contains(w2) implies #[trigger] string_views(
                        kept@,
                    ).contains(w2) by {
                    let q = choose|q: int| 0 <= q < i + 1 && #[trigger] ov.take(i + 1)[q] == w2;
                    if q < i {
                        assert(ov.take(i as int)[q] == w2);
                        assert(kept0.contains(w2));
                        let p = choose|p: int| 0 <= p < kept0.len() && #[trigger] kept0[p] == w2;
                        assert(string_views(kept@)[p] == w2);
                    } else {
                        assert(w2 == w@);
                        assert(string_views(keys@).to_set().contains(w2));
                        assert(found);
                        if dup {
                            let p = choose|p: int| 0 <= p < kept0.len() && #[trigger] kept0[p] == w2;
                            assert(string_views(kept@)[p] == w2);
                        } else {
                            assert(string_views(kept@)[kept0.len() as int] == w2);
                        }
                    }
                }
                assert forall|q: int| 0 <= q < kept.len() implies is_word(
                    #[trigger] string_views(kept@)[q],
                ) by {
                    if q < kept0.len() {
                        assert(string_views(kept@)[q] == kept0[q]);
                    } else {
                        let p = choose|p: int| 0 <= p < words(old_config->0@).len() && #[trigger] words(old_config->0@)[p] == w@;
                        assert(string_views(old_words@)[i as int] == w@);
                    }
                }
            }
            i = i + 1;
        }
        proof {
            assert(string_views(old_words@).take(old_words.len() as int) =~= string_views(
                old_words@,
            ));
            assert(string_views(kept@).to_set() =~= old_set.intersect(seen));
            if changed {
                let q = choose|q: int|
                    0 <= q < old_words.len() && !seen.contains(
                        #[trigger] string_views(old_words@)[q],
                    );
                assert(old_set.contains(string_views(old_words@)[q]));
                assert(!old_set.intersect(seen).contains(string_views(old_words@)[q]));
            } else {
                assert(old_set.intersect(seen) =~= old_set);
            }
        }
        if !changed {
            return None;
        }
        new_words = kept;
    }
    let joined = join_exec(&new_words);
    proof {
        lemma_words_of_join(string_views(new_words@));
    }
    Some(joined)
}

/// A set that holds candidates never grows: a message can only narrow it.
pub proof fn lemma_candidates_never_grow(old: Set<Seq<char>>, seen: Set<Seq<char>>)
    requires
        old != Set::<Seq<char>>::empty(),
    ensures
        next_candidates(old, seen).subset_of(old),
{
}

} // verus!
