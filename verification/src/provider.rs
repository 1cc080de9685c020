//! The suggestion facade: given a typed prefix it serves ranked whole-word
//! suggestions, trying a short-lived "extend the last query" cache first,
//! then the trie index, and falling back to synthesized edit-distance
//! candidates ranked against the frequency store.

use vstd::prelude::*;
use crate::fuzzy::{generate_spec, take_at_most, FuzzyMatcher};
use crate::text::{chars_eq, lower_of, lowercase_str, starts_with_chars, str_to_chars};
use crate::trie::{fallback_filter, query_spec, same_store, TrieIndex};

verus! {

/// How many words a trie query returns at most.
pub const TRIE_RESULT_LIMIT: usize = 5;

/// How many words the fallback ranking returns at most.
pub const FALLBACK_RESULT_LIMIT: usize = 5;

/// How many synthesized candidates are handed to the fallback ranking.
pub const MAX_FALLBACK_CANDIDATES: usize = 100;

/// The cached results that still match an extended query, in cached order.
pub open spec fn ext_filter(results: Seq<Seq<char>>, lp: Seq<char>) -> Seq<Seq<char>> {
    results.filter(|w: Seq<char>| lp.is_prefix_of(lower_of(w)))
}

/// Whether an extended query can be answered from the cache alone: a
/// non-empty cached query that the new lowercased prefix strictly extends,
/// with at least one cached result still matching.
pub open spec fn ext_hit(cp: Seq<char>, cr: Seq<Seq<char>>, lp: Seq<char>) -> bool {
    cp.len() > 0 && cr.len() > 0 && cp.is_prefix_of(lp) && lp != cp && ext_filter(cr, lp).len()
        > 0
}

/// The candidate list the fallback ranks: the synthesized candidates with
/// the lowercased prefix appended, capped.
pub open spec fn fallback_candidates(lp: Seq<char>) -> Seq<Seq<char>> {
    take_at_most(generate_spec(lp, true).push(lp), MAX_FALLBACK_CANDIDATES as int)
}

/// Everything the facade returns, as a function of the index state, the
/// provider-local cache and the prefix.
pub open spec fn facade_result(
    words: Seq<Seq<char>>,
    m: Map<Seq<char>, int>,
    init: bool,
    cp: Seq<char>,
    cr: Seq<Seq<char>>,
    p: Seq<char>,
) -> Option<Seq<Seq<char>>> {
    let lp = lower_of(p);
    if p.len() == 0 {
        None
    } else if ext_hit(cp, cr, lp) {
        Some(ext_filter(cr, lp))
    } else if init && query_spec(words, m, lp, TRIE_RESULT_LIMIT as int).len() > 0 {
        Some(query_spec(words, m, lp, TRIE_RESULT_LIMIT as int))
    } else if fallback_filter(m, fallback_candidates(lp), FALLBACK_RESULT_LIMIT as int).len()
        > 0 {
        Some(fallback_filter(m, fallback_candidates(lp), FALLBACK_RESULT_LIMIT as int))
    } else {
        None
    }
}

/// The provider-local cache after one facade query: the lowercased prefix
/// and its results on success, cleared on a fruitless query, untouched by an
/// empty one.
pub open spec fn facade_cache_after(
    words: Seq<Seq<char>>,
    m: Map<Seq<char>, int>,
    init: bool,
    cp: Seq<char>,
    cr: Seq<Seq<char>>,
    p: Seq<char>,
) -> (Seq<char>, Seq<Seq<char>>) {
    let lp = lower_of(p);
    if p.len() == 0 {
        (cp, cr)
    } else {
        match facade_result(words, m, init, cp, cr, p) {
            Some(s) => (lp, s),
            None => (Seq::empty(), Seq::empty()),
        }
    }
}

/// The larger of the two result limits: no answer, and so no cached result
/// list, is ever longer than this.
pub open spec fn result_limit_bound() -> int {
    if TRIE_RESULT_LIMIT >= FALLBACK_RESULT_LIMIT {
        TRIE_RESULT_LIMIT as int
    } else {
        FALLBACK_RESULT_LIMIT as int
    }
}

/// The suggestion facade, with its provider-local extension cache.
pub struct SuggestionProvider {
    cached_prefix: String,
    cached_results: Vec<String>,
}

impl SuggestionProvider {
    /// The lowercased prefix of the last successful query, or empty.
    pub closed spec fn cache_prefix(&self) -> Seq<char> {
        self.cached_prefix@
    }

    /// The results cached for that prefix.
    pub closed spec fn cache_results(&self) -> Seq<Seq<char>> {
        self.cached_results.deep_view()
    }

    /// The cache only ever holds one past answer, which is bounded.
    pub closed spec fn wf(&self) -> bool {
        self.cache_results().len() <= result_limit_bound()
    }

    /// A fresh provider with an empty cache.
    pub fn new() -> (r: SuggestionProvider)
        ensures
            r.wf(),
            r.cache_prefix() == Seq::<char>::empty(),
            r.cache_results() == Seq::<Seq<char>>::empty(),
    {
        let r = SuggestionProvider { cached_prefix: String::new(), cached_results: Vec::new() };
        proof {
            assert(r.cached_results.deep_view() =~= Seq::<Seq<char>>::empty());
        }
        r
    }

    /// Serves one prefix query: `None` for an empty prefix, otherwise the
    /// extension cache, then the trie index, then the candidate fallback,
    /// caching any non-empty answer and clearing the cache on a fruitless
    /// one.
    pub fn find_words_by_prefix(
        &mut self,
        idx: &mut TrieIndex,
        matcher: &mut FuzzyMatcher,
        prefix: &str,
    ) -> (r: Option<Vec<String>>)
        requires
            old(self).wf(),
            old(idx).wf(),
            old(matcher).wf(),
        ensures
            final(self).wf(),
            final(idx).wf(),
            final(matcher).wf(),
            same_store(*old(idx), *final(idx)),
            r matches Some(v) ==> 1 <= v@.len() <= result_limit_bound(),
            r.deep_view() == facade_result(
                old(idx).words(),
                old(idx).freq_model(),
                old(idx).initialized(),
                old(self).cache_prefix(),
                old(self).cache_results(),
                prefix@,
            ),
            final(self).cache_prefix() == facade_cache_after(
                old(idx).words(),
                old(idx).freq_model(),
                old(idx).initialized(),
                old(self).cache_prefix(),
                old(self).cache_results(),
                prefix@,
            ).0,
            final(self).cache_results() == facade_cache_after(
                old(idx).words(),
                old(idx).freq_model(),
                old(idx).initialized(),
                old(self).cache_prefix(),
                old(self).cache_results(),
                prefix@,
            ).1,
    {
        if prefix.is_empty() {
            return None;
        }
        let ghost p = prefix@;
        let ghost cp = self.cached_prefix@;
        let ghost cr = self.cached_results.deep_view();
        let lowered = lowercase_str(prefix);
        let ghost lp = lower_of(p);
        let lpch = str_to_chars(lowered.as_str());
        let cpch = str_to_chars(self.cached_prefix.as_str());
        let cn: usize = self.cached_results.len();
        let ghost pred = (|w: Seq<char>| lp.is_prefix_of(lower_of(w)));
        let applicable = cpch.len() > 0 && cn > 0 && starts_with_chars(&lpch, &cpch) && !chars_eq(
            &lpch,
            &cpch,
        );
        if applicable {
            let mut filtered: Vec<String> = Vec::new();
            let mut i: usize = 0;
            proof {
                assert(cr.take(0).filter(pred) =~= Seq::<Seq<char>>::empty());
                assert(filtered.deep_view() =~= Seq::<Seq<char>>::empty());
                assert(cr.len() == cn as int);
            }
            while i < cn
                invariant
                    cn == self.cached_results@.len(),
                    cr == self.cached_results.deep_view(),
                    i <= cn,
                    lp == lower_of(p),
                    pred == (|w: Seq<char>| lp.is_prefix_of(lower_of(w))),
                    lpch@ == lp,
                    filtered.deep_view() == cr.take(i as int).filter(pred),
                decreases cn - i,
            {
                proof {
                    let t = cr.take(i as int + 1);
                    assert(t.drop_last() =~= cr.take(i as int));
                    assert(t.last() == cr[i as int]);
                    reveal(Seq::filter);
                    assert(cr[i as int] == self.cached_results@[i as int]@);
                }
                let lw = lowercase_str(self.cached_results[i].as_str());
                let lwch = str_to_chars(lw.as_str());
                let keep = starts_with_chars(&lwch, &lpch);
                proof {
                    assert(keep == pred(cr[i as int]));
                }
                if keep {
                    let ghost prevf = filtered.deep_view();
                    let kept = self.cached_results[i].clone();
                    let ghost kv = kept@;
                    filtered.push(kept);
                    proof {
                        assert(filtered.deep_view() =~~= prevf.push(kv));
                    }
                }
                i = i + 1;
            }
            proof {
                assert(cr.take(cn as int) =~= cr);
            }
            if filtered.len() > 0 {
                proof {
                    assert(ext_hit(cp, cr, lp));
                }
                let stored = crate::fuzzy::clone_strings(&filtered);
                proof {
                    assert(stored.deep_view() =~= filtered.deep_view());
                }
                self.cached_prefix = lowered;
                self.cached_results = stored;
                proof {
                    assert(Some(filtered).deep_view() =~= Some(filtered.deep_view()));
                }
                return Some(filtered);
            }
            proof {
                assert(!ext_hit(cp, cr, lp));
            }
        } else {
            proof {
                assert(!ext_hit(cp, cr, lp));
            }
        }
        if idx.is_trie_initialized() {
            let tq = idx.find_words_by_prefix(lowered.as_str(), TRIE_RESULT_LIMIT);
            if tq.len() > 0 {
                let stored = crate::fuzzy::clone_strings(&tq);
                proof {
                    assert(stored.deep_view() =~= tq.deep_view());
                    assert(tq.deep_view().len() == tq@.len());
                }
                self.cached_prefix = lowered;
                self.cached_results = stored;
                proof {
                    assert(Some(tq).deep_view() =~= Some(tq.deep_view()));
                }
                return Some(tq);
            }
            proof {
                assert(tq.deep_view().len() == tq@.len());
            }
        }
        let mut cands = matcher.generate_candidates(lowered.as_str(), true);
        let ghost gv = cands.deep_view();
        let appended = lowered.clone();
        let ghost av = appended@;
        cands.push(appended);
        proof {
            assert(cands.deep_view() =~~= gv.push(av));
        }
        let ghost pushed = cands.deep_view();
        if cands.len() > MAX_FALLBACK_CANDIDATES {
            cands.truncate(MAX_FALLBACK_CANDIDATES);
            proof {
                assert(cands.deep_view() =~~= pushed.take(MAX_FALLBACK_CANDIDATES as int));
            }
        }
        proof {
            assert(cands.deep_view() == fallback_candidates(lp));
        }
        let fb = idx.top_ranked_members(&cands, FALLBACK_RESULT_LIMIT);
        if fb.len() > 0 {
            let stored = crate::fuzzy::clone_strings(&fb);
            proof {
                assert(stored.deep_view() =~= fb.deep_view());
                assert(fb.deep_view().len() == fb@.len());
            }
            self.cached_prefix = lowered;
            self.cached_results = stored;
            proof {
                assert(Some(fb).deep_view() =~= Some(fb.deep_view()));
            }
            Some(fb)
        } else {
            proof {
                assert(fb.deep_view().len() == fb@.len());
            }
            self.cached_prefix = String::new();
            self.cached_results = Vec::new();
            proof {
                assert(self.cached_results.deep_view() =~= Seq::<Seq<char>>::empty());
            }
            None
        }
    }
}

/// Generates candidate words for a prefix with a controllable distance
/// parameter: the prefix is lowercased and handed to the generator.
pub fn find_words_by_prefix_with_distance(
    matcher: &mut FuzzyMatcher,
    prefix: &str,
    include_distance_2: bool,
) -> (r: Option<Vec<String>>)
    requires
        old(matcher).wf(),
    ensures
        final(matcher).wf(),
        r matches Some(v) && v.deep_view() == generate_spec(lower_of(prefix@), include_distance_2),
{
    let lowered = lowercase_str(prefix);
    Some(matcher.generate_candidates(lowered.as_str(), include_distance_2))
}

/// Cache monotonicity under extension: when one query returns a non-empty
/// answer and the next prefix strictly extends it (case-insensitively) with
/// at least one of those answers still matching, the next query returns
/// exactly the still-matching answers, whatever the index then holds.
pub proof fn law_cache_extension(
    words1: Seq<Seq<char>>,
    m1: Map<Seq<char>, int>,
    init1: bool,
    cp: Seq<char>,
    cr: Seq<Seq<char>>,
    p1: Seq<char>,
    words2: Seq<Seq<char>>,
    m2: Map<Seq<char>, int>,
    init2: bool,
    p2: Seq<char>,
)
    requires
        facade_result(words1, m1, init1, cp, cr, p1) is Some,
        facade_result(words1, m1, init1, cp, cr, p1) matches Some(s1) ==> s1.len() > 0,
        p2.len() > 0,
        lower_of(p1).len() > 0,
        lower_of(p1).is_prefix_of(lower_of(p2)),
        lower_of(p2) != lower_of(p1),
        facade_result(words1, m1, init1, cp, cr, p1) matches Some(s1) ==> ext_filter(
            s1,
            lower_of(p2),
        ).len() > 0,
    ensures
        facade_result(
            words2,
            m2,
            init2,
            facade_cache_after(words1, m1, init1, cp, cr, p1).0,
            facade_cache_after(words1, m1, init1, cp, cr, p1).1,
            p2,
        ) == Some(
            ext_filter(facade_cache_after(words1, m1, init1, cp, cr, p1).1, lower_of(p2)),
        ),
{
    let s1 = facade_result(words1, m1, init1, cp, cr, p1)->Some_0;
    let c1 = facade_cache_after(words1, m1, init1, cp, cr, p1);
    assert(p1.len() > 0);
    assert(c1 == (lower_of(p1), s1));
    assert(ext_hit(c1.0, c1.1, lower_of(p2)));
}

} // verus!