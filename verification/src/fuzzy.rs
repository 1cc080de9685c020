//! Edit-distance candidate generation: given a typed prefix, synthesize
//! plausible whole words within edit distance 1 (optionally 2) of it.
//!
//! Candidates are accumulated into a duplicate-free sequence in a fixed
//! order: the prefix itself, suffix completions, insertions, substitutions,
//! deletions, then (on request) suffix completions of a bounded sample of
//! prefix-preserving distance-1 words.  The result is ranked so that words
//! that keep the typed prefix come first, shorter words before longer ones,
//! and is capped at [`RESULT_CAP`] entries.

use vstd::prelude::*;
use crate::cache::{cc_cold_get, cc_cold_put, cc_hot_get, cc_hot_put, cc_new, create_cache_key};
use crate::cache::{cc_cold, cc_hot, CandidateCache};
use crate::text::contains_word;

verus! {

/// Largest number of candidates ever returned.
pub const RESULT_CAP: usize = 1000;

/// Longest prefix (in characters) for which candidates are generated.
pub const MAX_PREFIX_LEN: usize = 20;

/// The `j`-th lowercase letter: `letter(0) == 'a'`, ..., `letter(25) == 'z'`.
pub open spec fn letter(j: int) -> char {
    ((97 + j) as u8) as char
}

/// The word `w` with one letter appended.
pub open spec fn suffix_word(w: Seq<char>, j: int) -> Seq<char> {
    w.push(letter(j))
}

/// The word `p` with one letter inserted before position `i`.
pub open spec fn insertion_word(p: Seq<char>, i: int, j: int) -> Seq<char> {
    p.take(i) + seq![letter(j)] + p.skip(i)
}

/// The word `p` with the character at `i` replaced by a letter.
pub open spec fn substitution_word(p: Seq<char>, i: int, j: int) -> Seq<char> {
    p.update(i, letter(j))
}

/// The word `p` with the character at `i` removed.
pub open spec fn deletion_word(p: Seq<char>, i: int) -> Seq<char> {
    p.take(i) + p.skip(i + 1)
}

/// First position at which substitutions and deletions are allowed: the back
/// half of the word, and never position 0.
pub open spec fn modify_start(p: Seq<char>) -> int {
    if p.len() as int / 2 >= 1 {
        p.len() as int / 2
    } else {
        1
    }
}

/// Appends `w` to the accumulator unless it is already present.
pub open spec fn dedup_push(acc: Seq<Seq<char>>, w: Seq<char>) -> Seq<Seq<char>> {
    if acc.contains(w) {
        acc
    } else {
        acc.push(w)
    }
}

/// Suffix completions of `w` for the first `j` letters, accumulated.
pub open spec fn add_suffixes_upto(acc: Seq<Seq<char>>, w: Seq<char>, j: int) -> Seq<Seq<char>>
    decreases j,
{
    if j <= 0 {
        acc
    } else {
        dedup_push(add_suffixes_upto(acc, w, j - 1), suffix_word(w, j - 1))
    }
}

/// All 26 suffix completions of `w`, accumulated.
pub open spec fn add_suffixes(acc: Seq<Seq<char>>, w: Seq<char>) -> Seq<Seq<char>> {
    add_suffixes_upto(acc, w, 26)
}

/// Insertions at position `i` for the first `j` letters, accumulated.
pub open spec fn add_insertions_at_upto(
    acc: Seq<Seq<char>>,
    p: Seq<char>,
    i: int,
    j: int,
) -> Seq<Seq<char>>
    decreases j,
{
    if j <= 0 {
        acc
    } else {
        dedup_push(add_insertions_at_upto(acc, p, i, j - 1), insertion_word(p, i, j - 1))
    }
}

/// Insertions at all positions below `i`, accumulated.
pub open spec fn add_insertions_upto(acc: Seq<Seq<char>>, p: Seq<char>, i: int) -> Seq<Seq<char>>
    decreases i,
{
    if i <= 0 {
        acc
    } else {
        add_insertions_at_upto(add_insertions_upto(acc, p, i - 1), p, i - 1, 26)
    }
}

/// All insertions: one letter at every position of `p`, ends included.
pub open spec fn add_insertions(acc: Seq<Seq<char>>, p: Seq<char>) -> Seq<Seq<char>> {
    add_insertions_upto(acc, p, p.len() as int + 1)
}

/// Substitutions at position `i` for the first `j` letters, accumulated;
/// replacing a character by itself is skipped.
pub open spec fn add_subs_at_upto(
    acc: Seq<Seq<char>>,
    p: Seq<char>,
    i: int,
    j: int,
) -> Seq<Seq<char>>
    decreases j,
{
    if j <= 0 {
        acc
    } else {
        let prev = add_subs_at_upto(acc, p, i, j - 1);
        if letter(j - 1) == p[i] {
            prev
        } else {
            dedup_push(prev, substitution_word(p, i, j - 1))
        }
    }
}

/// Substitutions at the back-half positions below `i`, accumulated.
pub open spec fn add_subs_upto(acc: Seq<Seq<char>>, p: Seq<char>, i: int) -> Seq<Seq<char>>
    decreases i - modify_start(p),
{
    if i <= modify_start(p) {
        acc
    } else {
        add_subs_at_upto(add_subs_upto(acc, p, i - 1), p, i - 1, 26)
    }
}

/// Deletions at the back-half positions below `i`, accumulated.
pub open spec fn add_dels_upto(acc: Seq<Seq<char>>, p: Seq<char>, i: int) -> Seq<Seq<char>>
    decreases i - modify_start(p),
{
    if i <= modify_start(p) {
        acc
    } else {
        dedup_push(add_dels_upto(acc, p, i - 1), deletion_word(p, i - 1))
    }
}

/// All distance-1 edits of `p`: insertions everywhere, substitutions and
/// deletions in the back half only.
pub open spec fn add_distance_1(acc: Seq<Seq<char>>, p: Seq<char>) -> Seq<Seq<char>> {
    add_dels_upto(add_subs_upto(add_insertions(acc, p), p, p.len() as int), p, p.len() as int)
}

/// `s` truncated to at most `n` entries.
pub open spec fn take_at_most(s: Seq<Seq<char>>, n: int) -> Seq<Seq<char>> {
    if s.len() <= n {
        s
    } else {
        s.take(n)
    }
}

/// The sample of distance-1 words from which distance-2 candidates grow: the
/// first words that still start with the typed prefix, at most
/// [`base_budget`] of them, in accumulation order.
pub open spec fn base_words(p: Seq<char>, r: Seq<Seq<char>>) -> Seq<Seq<char>> {
    take_at_most(r.filter(|w: Seq<char>| p.is_prefix_of(w)), base_budget(p))
}

/// How many distance-1 words are expanded for distance 2: shrinks as the
/// prefix grows, from 19 down to 0.
pub open spec fn base_budget(p: Seq<char>) -> int {
    20 - p.len() as int
}

/// Suffix completions of the first `i` base words, accumulated.
pub open spec fn add_suffixes_all_upto(
    acc: Seq<Seq<char>>,
    base: Seq<Seq<char>>,
    i: int,
) -> Seq<Seq<char>>
    decreases i,
{
    if i <= 0 {
        acc
    } else {
        add_suffixes(add_suffixes_all_upto(acc, base, i - 1), base[i - 1])
    }
}

/// Ranking order: candidates that keep the typed prefix sort before those
/// that do not; within each group, shorter candidates first.  `a` must come
/// strictly before `b` exactly when this holds.
pub open spec fn cand_before(p: Seq<char>, a: Seq<char>, b: Seq<char>) -> bool {
    let sa = p.is_prefix_of(a);
    let sb = p.is_prefix_of(b);
    (sa && !sb) || (sa == sb && a.len() < b.len())
}

/// Stable insertion of `w` into `s` from the right: `w` passes over exactly
/// the elements it must precede.
pub open spec fn sorted_insert(p: Seq<char>, s: Seq<Seq<char>>, w: Seq<char>) -> Seq<Seq<char>>
    decreases s.len(),
{
    if s.len() == 0 {
        seq![w]
    } else if cand_before(p, w, s.last()) {
        sorted_insert(p, s.drop_last(), w).push(s.last())
    } else {
        s.push(w)
    }
}

/// Stable insertion sort of the first `i` elements of `s`.
pub open spec fn sort_upto(p: Seq<char>, s: Seq<Seq<char>>, i: int) -> Seq<Seq<char>>
    decreases i,
{
    if i <= 0 {
        Seq::empty()
    } else {
        sorted_insert(p, sort_upto(p, s, i - 1), s[i - 1])
    }
}

/// The ranked ordering of a candidate sequence.
pub open spec fn cand_sort(p: Seq<char>, s: Seq<Seq<char>>) -> Seq<Seq<char>> {
    sort_upto(p, s, s.len() as int)
}

/// The bootstrap candidate set for an empty prefix: the 26 single-letter
/// words.
pub open spec fn alphabet_words() -> Seq<Seq<char>> {
    Seq::new(26, |j: int| seq![letter(j)])
}

/// Everything `generate_candidates` returns, as a function of the prefix and
/// the distance-2 switch alone.
pub open spec fn generate_spec(p: Seq<char>, include_distance_2: bool) -> Seq<Seq<char>> {
    if p.len() == 0 {
        alphabet_words()
    } else if p.len() > MAX_PREFIX_LEN {
        Seq::empty()
    } else {
        let r1 = add_suffixes(seq![p], p);
        let r2 = add_distance_1(r1, p);
        let r3 = if include_distance_2 {
            add_suffixes_all_upto(r2, base_words(p, r2), base_words(p, r2).len() as int)
        } else {
            r2
        };
        take_at_most(cand_sort(p, r3), RESULT_CAP as int)
    }
}

/// The `j`-th lowercase letter, executable.
fn letter_at(j: usize) -> (c: char)
    requires
        j < 26,
    ensures
        c == letter(j as int),
{
    (97u8 + j as u8) as char
}

/// Appends `w` to the accumulator unless it is already present, mirroring
/// [`dedup_push`].
fn push_dedup(acc: &mut Vec<Vec<char>>, w: Vec<char>)
    ensures
        final(acc).deep_view() == dedup_push(old(acc).deep_view(), w@),
{
    if !contains_word(acc, &w) {
        let ghost prev = acc.deep_view();
        let ghost wv = w@;
        acc.push(w);
        proof {
            assert(acc.deep_view() =~~= prev.push(wv));
        }
    }
}

/// Builds `p` with `c` inserted before position `i`.
fn insert_char_at(p: &Vec<char>, i: usize, c: char) -> (r: Vec<char>)
    requires
        i <= p@.len(),
    ensures
        r@ == p@.take(i as int) + seq![c] + p@.skip(i as int),
{
    let mut r = crate::text::clone_chars(p);
    r.insert(i, c);
    proof {
        assert(r@ =~= p@.take(i as int) + seq![c] + p@.skip(i as int));
    }
    r
}

/// Builds `p` with the character at `i` replaced by `c`.
fn sub_char_at(p: &Vec<char>, i: usize, c: char) -> (r: Vec<char>)
    requires
        i < p@.len(),
    ensures
        r@ == p@.update(i as int, c),
{
    let mut r = crate::text::clone_chars(p);
    r.set(i, c);
    r
}

/// Builds `p` with the character at `i` removed.
fn remove_char_at(p: &Vec<char>, i: usize) -> (r: Vec<char>)
    requires
        i < p@.len(),
    ensures
        r@ == p@.take(i as int) + p@.skip(i as int + 1),
{
    let mut r = crate::text::clone_chars(p);
    r.remove(i);
    proof {
        assert(r@ =~= p@.take(i as int) + p@.skip(i as int + 1));
    }
    r
}

/// Adds the 26 suffix completions of `w`, mirroring [`add_suffixes`].
fn push_suffixes(acc: &mut Vec<Vec<char>>, w: &Vec<char>)
    ensures
        final(acc).deep_view() == add_suffixes(old(acc).deep_view(), w@),
{
    let ghost acc0 = acc.deep_view();
    let mut j: usize = 0;
    while j < 26
        invariant
            j <= 26,
            acc.deep_view() == add_suffixes_upto(acc0, w@, j as int),
        decreases 26 - j,
    {
        let c = letter_at(j);
        let mut nw = crate::text::clone_chars(w);
        nw.push(c);
        proof {
            assert(nw@ == suffix_word(w@, j as int));
        }
        push_dedup(acc, nw);
        j = j + 1;
    }
}

/// Adds one inserted letter at every position of `p`, mirroring
/// [`add_insertions`].
fn push_insertions(acc: &mut Vec<Vec<char>>, p: &Vec<char>)
    requires
        p@.len() < usize::MAX,
    ensures
        final(acc).deep_view() == add_insertions(old(acc).deep_view(), p@),
{
    let ghost acc0 = acc.deep_view();
    let n: usize = p.len();
    let mut i: usize = 0;
    while i <= n
        invariant
            n == p@.len(),
            n < usize::MAX,
            i <= n + 1,
            acc.deep_view() == add_insertions_upto(acc0, p@, i as int),
        decreases n + 1 - i,
    {
        let ghost before = acc.deep_view();
        let mut j: usize = 0;
        while j < 26
            invariant
                n == p@.len(),
                i <= n,
                j <= 26,
                acc.deep_view() == add_insertions_at_upto(before, p@, i as int, j as int),
            decreases 26 - j,
        {
            let c = letter_at(j);
            let nw = insert_char_at(p, i, c);
            push_dedup(acc, nw);
            j = j + 1;
        }
        i = i + 1;
    }
}

/// Adds substitutions in the back half of `p`, mirroring [`add_subs_upto`].
fn push_substitutions(acc: &mut Vec<Vec<char>>, p: &Vec<char>)
    requires
        p@.len() >= 1,
    ensures
        final(acc).deep_view() == add_subs_upto(old(acc).deep_view(), p@, p@.len() as int),
{
    let ghost acc0 = acc.deep_view();
    let n: usize = p.len();
    let half: usize = n / 2;
    let start: usize = if half >= 1 { half } else { 1 };
    proof {
        assert(start as int == modify_start(p@));
    }
    let mut i: usize = start;
    while i < n
        invariant
            n == p@.len(),
            start as int == modify_start(p@),
            start <= i <= n,
            acc.deep_view() == add_subs_upto(acc0, p@, i as int),
        decreases n - i,
    {
        let ghost before = acc.deep_view();
        let original: char = p[i];
        let mut j: usize = 0;
        while j < 26
            invariant
                n == p@.len(),
                i < n,
                j <= 26,
                original == p@[i as int],
                acc.deep_view() == add_subs_at_upto(before, p@, i as int, j as int),
            decreases 26 - j,
        {
            let c = letter_at(j);
            if c != original {
                let nw = sub_char_at(p, i, c);
                push_dedup(acc, nw);
            }
            j = j + 1;
        }
        i = i + 1;
    }
}

/// Adds deletions in the back half of `p`, mirroring [`add_dels_upto`].
fn push_deletions(acc: &mut Vec<Vec<char>>, p: &Vec<char>)
    requires
        p@.len() >= 1,
    ensures
        final(acc).deep_view() == add_dels_upto(old(acc).deep_view(), p@, p@.len() as int),
{
    let ghost acc0 = acc.deep_view();
    let n: usize = p.len();
    let half: usize = n / 2;
    let start: usize = if half >= 1 { half } else { 1 };
    proof {
        assert(start as int == modify_start(p@));
    }
    let mut i: usize = start;
    while i < n
        invariant
            n == p@.len(),
            start as int == modify_start(p@),
            start <= i <= n,
            acc.deep_view() == add_dels_upto(acc0, p@, i as int),
        decreases n - i,
    {
        let nw = remove_char_at(p, i);
        push_dedup(acc, nw);
        i = i + 1;
    }
}

/// The element of a vector-of-words view is the word's view.
proof fn lemma_deep_view_index(v: &Vec<Vec<char>>, i: int)
    requires
        0 <= i < v@.len(),
    ensures
        v.deep_view()[i] == v@[i]@,
{
    assert(v@[i].deep_view() =~= v@[i]@);
}

/// Ranking order, executable.
fn cand_before_exec(p: &Vec<char>, a: &Vec<char>, b: &Vec<char>) -> (r: bool)
    ensures
        r == cand_before(p@, a@, b@),
{
    let sa = crate::text::starts_with_chars(a, p);
    let sb = crate::text::starts_with_chars(b, p);
    (sa && !sb) || (sa == sb && a.len() < b.len())
}

/// [`sorted_insert`] places `w` exactly at the scan position `k`: the spot
/// before which everything `w` must precede sits.
proof fn lemma_sorted_insert_at(p: Seq<char>, s: Seq<Seq<char>>, w: Seq<char>, k: int)
    requires
        0 <= k <= s.len(),
        forall|j: int| k <= j < s.len() ==> cand_before(p, w, #[trigger] s[j]),
        k > 0 ==> !cand_before(p, w, s[k - 1]),
    ensures
        sorted_insert(p, s, w) == s.take(k) + seq![w] + s.skip(k),
    decreases s.len() - k,
{
    if k == s.len() {
        if s.len() == 0 {
            assert(sorted_insert(p, s, w) =~= s.take(k) + seq![w] + s.skip(k));
        } else {
            assert(!cand_before(p, w, s.last()));
            assert(sorted_insert(p, s, w) =~= s.take(k) + seq![w] + s.skip(k));
        }
    } else {
        assert(cand_before(p, w, s[s.len() - 1]));
        let t = s.drop_last();
        assert(forall|j: int| k <= j < t.len() ==> cand_before(p, w, #[trigger] t[j]));
        if k > 0 {
            assert(t[k - 1] == s[k - 1]);
        }
        lemma_sorted_insert_at(p, t, w, k);
        assert(sorted_insert(p, s, w) == sorted_insert(p, t, w).push(s.last()));
        assert((t.take(k) + seq![w] + t.skip(k)).push(s.last()) =~= s.take(k) + seq![w] + s.skip(
            k,
        ));
    }
}

/// Finds the spot where `w` belongs: scans from the back over everything `w`
/// must precede.
fn find_insert_pos(p: &Vec<char>, out: &Vec<Vec<char>>, w: &Vec<char>) -> (k: usize)
    ensures
        k <= out@.len(),
        forall|j: int| k <= j < out@.len() ==> cand_before(p@, w@, #[trigger] out.deep_view()[j]),
        k > 0 ==> !cand_before(p@, w@, out.deep_view()[k - 1]),
{
    let mut k: usize = out.len();
    while k > 0
        invariant
            k <= out@.len(),
            forall|j: int|
                k <= j < out@.len() ==> cand_before(p@, w@, #[trigger] out.deep_view()[j]),
        decreases k,
    {
        let before = cand_before_exec(p, w, &out[k - 1]);
        proof {
            lemma_deep_view_index(out, k - 1 as int);
        }
        if before {
            k = k - 1;
        } else {
            return k;
        }
    }
    k
}

/// Sorts the candidates into ranking order, mirroring [`cand_sort`].
fn rank_candidates(p: &Vec<char>, v: &Vec<Vec<char>>) -> (out: Vec<Vec<char>>)
    ensures
        out.deep_view() == cand_sort(p@, v.deep_view()),
{
    let mut out: Vec<Vec<char>> = Vec::new();
    let n: usize = v.len();
    let mut i: usize = 0;
    while i < n
        invariant
            n == v@.len(),
            i <= n,
            out.deep_view() == sort_upto(p@, v.deep_view(), i as int),
        decreases n - i,
    {
        let w = crate::text::clone_chars(&v[i]);
        proof {
            lemma_deep_view_index(v, i as int);
        }
        let k = find_insert_pos(p, &out, &w);
        let ghost prev = out.deep_view();
        let ghost wv = w@;
        proof {
            lemma_sorted_insert_at(p@, prev, wv, k as int);
        }
        out.insert(k, w);
        proof {
            assert(out.deep_view() =~~= prev.take(k as int) + seq![wv] + prev.skip(k as int));
        }
        i = i + 1;
    }
    proof {
        assert(v.deep_view().len() == v@.len());
    }
    out
}

/// Truncates the ranked list to [`RESULT_CAP`] entries.
fn cap_results(v: &mut Vec<Vec<char>>)
    ensures
        final(v).deep_view() == take_at_most(old(v).deep_view(), RESULT_CAP as int),
{
    let ghost dv = v.deep_view();
    if v.len() > RESULT_CAP {
        v.truncate(RESULT_CAP);
        proof {
            assert(v.deep_view() =~~= dv.take(RESULT_CAP as int));
        }
    }
}

/// Collects the bounded sample of distance-1 words that distance-2
/// generation grows from, mirroring [`base_words`].
fn collect_base(p: &Vec<char>, r2: &Vec<Vec<char>>) -> (base: Vec<Vec<char>>)
    requires
        1 <= p@.len() <= MAX_PREFIX_LEN,
    ensures
        base.deep_view() == base_words(p@, r2.deep_view()),
{
    let budget: usize = MAX_PREFIX_LEN - p.len();
    let ghost pred = (|w: Seq<char>| p@.is_prefix_of(w));
    let mut base: Vec<Vec<char>> = Vec::new();
    let n: usize = r2.len();
    let mut i: usize = 0;
    while i < n
        invariant
            n == r2@.len(),
            i <= n,
            budget as int == base_budget(p@),
            pred == (|w: Seq<char>| p@.is_prefix_of(w)),
            base.deep_view() == take_at_most(r2.deep_view().take(i as int).filter(pred), budget as int),
            base.deep_view().len() <= budget as int,
        decreases n - i,
    {
        let ghost fprev = r2.deep_view().take(i as int).filter(pred);
        proof {
            lemma_deep_view_index(r2, i as int);
            let t = r2.deep_view().take(i as int + 1);
            assert(t.drop_last() =~= r2.deep_view().take(i as int));
            assert(t.last() == r2.deep_view()[i as int]);
            reveal(Seq::filter);
        }
        let cand = &r2[i];
        if crate::text::starts_with_chars(cand, p) {
            proof {
                assert(pred(r2.deep_view()[i as int]));
            }
            if base.len() < budget {
                let ghost prev = base.deep_view();
                let copy = crate::text::clone_chars(cand);
                let ghost cv = copy@;
                base.push(copy);
                proof {
                    assert(base.deep_view() =~~= prev.push(cv));
                    assert(fprev.len() < budget as int);
                }
            } else {
                proof {
                    assert(fprev.len() >= budget as int);
                    assert(fprev.push(r2.deep_view()[i as int]).take(budget as int) =~= fprev.take(
                        budget as int,
                    ));
                }
            }
        } else {
            proof {
                assert(!pred(r2.deep_view()[i as int]));
            }
        }
        i = i + 1;
    }
    proof {
        assert(r2.deep_view().take(n as int) =~= r2.deep_view());
    }
    base
}

/// Generates the full candidate list for one prefix, uncached: the prefix
/// itself, its suffix completions and distance-1 edits, optionally the
/// distance-2 expansion, ranked and capped.
pub fn compute_candidates(prefix: &Vec<char>, include_distance_2: bool) -> (r: Vec<Vec<char>>)
    ensures
        r.deep_view() == generate_spec(prefix@, include_distance_2),
{
    let n: usize = prefix.len();
    if n == 0 {
        let mut r: Vec<Vec<char>> = Vec::new();
        let mut j: usize = 0;
        while j < 26
            invariant
                j <= 26,
                r.deep_view() == alphabet_words().take(j as int),
            decreases 26 - j,
        {
            let c = letter_at(j);
            let mut w: Vec<char> = Vec::new();
            w.push(c);
            let ghost prev = r.deep_view();
            let ghost wv = w@;
            r.push(w);
            proof {
                assert(wv =~= seq![letter(j as int)]);
                assert(r.deep_view() =~~= prev.push(wv));
                assert(r.deep_view() =~= alphabet_words().take(j as int + 1));
            }
            j = j + 1;
        }
        proof {
            assert(r.deep_view() =~= alphabet_words());
        }
        return r;
    }
    if n > MAX_PREFIX_LEN {
        let r: Vec<Vec<char>> = Vec::new();
        proof {
            assert(r.deep_view() =~= Seq::<Seq<char>>::empty());
        }
        return r;
    }
    let mut acc: Vec<Vec<char>> = Vec::new();
    let start = crate::text::clone_chars(prefix);
    let ghost pv = prefix@;
    acc.push(start);
    proof {
        assert(acc.deep_view() =~~= seq![pv]);
    }
    push_suffixes(&mut acc, prefix);
    push_insertions(&mut acc, prefix);
    push_substitutions(&mut acc, prefix);
    push_deletions(&mut acc, prefix);
    let ghost r2 = acc.deep_view();
    proof {
        assert(r2 == add_distance_1(add_suffixes(seq![pv], pv), pv));
    }
    if include_distance_2 {
        let base = collect_base(prefix, &acc);
        let m: usize = base.len();
        let mut b: usize = 0;
        while b < m
            invariant
                m == base@.len(),
                b <= m,
                acc.deep_view() == add_suffixes_all_upto(r2, base.deep_view(), b as int),
            decreases m - b,
        {
            proof {
                lemma_deep_view_index(&base, b as int);
            }
            push_suffixes(&mut acc, &base[b]);
            b = b + 1;
        }
        proof {
            assert(base.deep_view().len() == m as int);
        }
    }
    let sorted = rank_candidates(prefix, &acc);
    let mut out = sorted;
    cap_results(&mut out);
    out
}

/// Accumulation only ever appends: the old accumulator is a prefix of the
/// new one.
proof fn lemma_prefix_dedup_push(acc: Seq<Seq<char>>, w: Seq<char>)
    ensures
        acc.is_prefix_of(dedup_push(acc, w)),
{
    if !acc.contains(w) {
        assert(acc =~= acc.push(w).subrange(0, acc.len() as int));
    }
}

proof fn lemma_prefix_add_suffixes_upto(acc: Seq<Seq<char>>, w: Seq<char>, j: int)
    ensures
        acc.is_prefix_of(add_suffixes_upto(acc, w, j)),
    decreases j,
{
    if j > 0 {
        lemma_prefix_add_suffixes_upto(acc, w, j - 1);
        lemma_prefix_dedup_push(add_suffixes_upto(acc, w, j - 1), suffix_word(w, j - 1));
    }
}

proof fn lemma_prefix_add_insertions_at_upto(acc: Seq<Seq<char>>, p: Seq<char>, i: int, j: int)
    ensures
        acc.is_prefix_of(add_insertions_at_upto(acc, p, i, j)),
    decreases j,
{
    if j > 0 {
        lemma_prefix_add_insertions_at_upto(acc, p, i, j - 1);
        lemma_prefix_dedup_push(add_insertions_at_upto(acc, p, i, j - 1), insertion_word(p, i, j - 1));
    }
}

proof fn lemma_prefix_add_insertions_upto(acc: Seq<Seq<char>>, p: Seq<char>, i: int)
    ensures
        acc.is_prefix_of(add_insertions_upto(acc, p, i)),
    decreases i,
{
    if i > 0 {
        lemma_prefix_add_insertions_upto(acc, p, i - 1);
        lemma_prefix_add_insertions_at_upto(add_insertions_upto(acc, p, i - 1), p, i - 1, 26);
    }
}

proof fn lemma_prefix_add_subs_at_upto(acc: Seq<Seq<char>>, p: Seq<char>, i: int, j: int)
    ensures
        acc.is_prefix_of(add_subs_at_upto(acc, p, i, j)),
    decreases j,
{
    if j > 0 {
        lemma_prefix_add_subs_at_upto(acc, p, i, j - 1);
        if letter(j - 1) != p[i] {
            lemma_prefix_dedup_push(add_subs_at_upto(acc, p, i, j - 1), substitution_word(p, i, j - 1));
        }
    }
}

proof fn lemma_prefix_add_subs_upto(acc: Seq<Seq<char>>, p: Seq<char>, i: int)
    ensures
        acc.is_prefix_of(add_subs_upto(acc, p, i)),
    decreases i - modify_start(p),
{
    if i > modify_start(p) {
        lemma_prefix_add_subs_upto(acc, p, i - 1);
        lemma_prefix_add_subs_at_upto(add_subs_upto(acc, p, i - 1), p, i - 1, 26);
    }
}

proof fn lemma_prefix_add_dels_upto(acc: Seq<Seq<char>>, p: Seq<char>, i: int)
    ensures
        acc.is_prefix_of(add_dels_upto(acc, p, i)),
    decreases i - modify_start(p),
{
    if i > modify_start(p) {
        lemma_prefix_add_dels_upto(acc, p, i - 1);
        lemma_prefix_dedup_push(add_dels_upto(acc, p, i - 1), deletion_word(p, i - 1));
    }
}

proof fn lemma_prefix_add_suffixes_all_upto(acc: Seq<Seq<char>>, base: Seq<Seq<char>>, i: int)
    ensures
        acc.is_prefix_of(add_suffixes_all_upto(acc, base, i)),
    decreases i,
{
    if i > 0 {
        lemma_prefix_add_suffixes_all_upto(acc, base, i - 1);
        lemma_prefix_add_suffixes_upto(add_suffixes_all_upto(acc, base, i - 1), base[i - 1], 26);
    }
}

/// Prefix preservation, one accumulation step: every candidate the suffix
/// completion step adds keeps the typed prefix intact and is exactly one
/// character longer.
pub proof fn law_prefix_preservation(acc: Seq<Seq<char>>, p: Seq<char>, c: Seq<char>)
    requires
        add_suffixes(acc, p).contains(c),
        !acc.contains(c),
    ensures
        p.is_prefix_of(c),
        c.len() == p.len() + 1,
{
    lemma_suffixes_upto_only_adds(acc, p, 26, c);
    assert(p =~= suffix_word(p, choose|j: int|
        0 <= j < 26 && c == suffix_word(p, j)).subrange(0, p.len() as int));
}

/// Everything [`add_suffixes_upto`] adds beyond the accumulator is a suffix
/// completion.
proof fn lemma_suffixes_upto_only_adds(acc: Seq<Seq<char>>, p: Seq<char>, j: int, c: Seq<char>)
    requires
        add_suffixes_upto(acc, p, j).contains(c),
        !acc.contains(c),
    ensures
        exists|k: int| 0 <= k < j && c == suffix_word(p, k),
    decreases j,
{
    if j <= 0 {
    } else {
        let prev = add_suffixes_upto(acc, p, j - 1);
        if prev.contains(c) {
            lemma_suffixes_upto_only_adds(acc, p, j - 1, c);
        } else {
            assert(dedup_push(prev, suffix_word(p, j - 1)).contains(c));
            if !prev.contains(suffix_word(p, j - 1)) {
                assert(c == suffix_word(p, j - 1) || prev.contains(c));
            }
        }
    }
}

/// Membership carries from a sequence to any extension of it.
proof fn lemma_prefix_contains(s1: Seq<Seq<char>>, s2: Seq<Seq<char>>, x: Seq<char>)
    requires
        s1.is_prefix_of(s2),
        s1.contains(x),
    ensures
        s2.contains(x),
{
    let k = choose|k: int| 0 <= k < s1.len() && s1[k] == x;
    assert(s2[k] == s1[k]);
}

/// Each of the first `j` suffix completions appears in the accumulation.
proof fn lemma_add_suffixes_upto_contains(acc: Seq<Seq<char>>, w: Seq<char>, j: int, k: int)
    requires
        0 <= k < j <= 26,
    ensures
        add_suffixes_upto(acc, w, j).contains(suffix_word(w, k)),
    decreases j,
{
    let prev = add_suffixes_upto(acc, w, j - 1);
    if k == j - 1 {
        if prev.contains(suffix_word(w, k)) {
        } else {
            assert(dedup_push(prev, suffix_word(w, k))[prev.len() as int] == suffix_word(w, k));
        }
    } else {
        lemma_add_suffixes_upto_contains(acc, w, j - 1, k);
        lemma_prefix_dedup_push(prev, suffix_word(w, j - 1));
        lemma_prefix_contains(prev, add_suffixes_upto(acc, w, j), suffix_word(w, k));
    }
}

/// Accumulation adds at most one entry per letter.
proof fn lemma_add_suffixes_upto_len(acc: Seq<Seq<char>>, w: Seq<char>, j: int)
    requires
        j >= 0,
    ensures
        add_suffixes_upto(acc, w, j).len() <= acc.len() + j,
    decreases j,
{
    if j > 0 {
        lemma_add_suffixes_upto_len(acc, w, j - 1);
    }
}

proof fn lemma_add_insertions_at_upto_len(acc: Seq<Seq<char>>, p: Seq<char>, i: int, j: int)
    requires
        j >= 0,
    ensures
        add_insertions_at_upto(acc, p, i, j).len() <= acc.len() + j,
    decreases j,
{
    if j > 0 {
        lemma_add_insertions_at_upto_len(acc, p, i, j - 1);
    }
}

proof fn lemma_add_insertions_upto_len(acc: Seq<Seq<char>>, p: Seq<char>, i: int)
    requires
        i >= 0,
    ensures
        add_insertions_upto(acc, p, i).len() <= acc.len() + 26 * i,
    decreases i,
{
    if i > 0 {
        lemma_add_insertions_upto_len(acc, p, i - 1);
        lemma_add_insertions_at_upto_len(add_insertions_upto(acc, p, i - 1), p, i - 1, 26);
    }
}

proof fn lemma_add_subs_at_upto_len(acc: Seq<Seq<char>>, p: Seq<char>, i: int, j: int)
    requires
        j >= 0,
    ensures
        add_subs_at_upto(acc, p, i, j).len() <= acc.len() + j,
    decreases j,
{
    if j > 0 {
        lemma_add_subs_at_upto_len(acc, p, i, j - 1);
    }
}

proof fn lemma_add_subs_upto_len(acc: Seq<Seq<char>>, p: Seq<char>, i: int)
    ensures
        add_subs_upto(acc, p, i).len() <= acc.len() + 26 * (if i >= modify_start(p) {
            i - modify_start(p)
        } else {
            0
        }),
    decreases i - modify_start(p),
{
    if i > modify_start(p) {
        lemma_add_subs_upto_len(acc, p, i - 1);
        lemma_add_subs_at_upto_len(add_subs_upto(acc, p, i - 1), p, i - 1, 26);
    }
}

proof fn lemma_add_dels_upto_len(acc: Seq<Seq<char>>, p: Seq<char>, i: int)
    ensures
        add_dels_upto(acc, p, i).len() <= acc.len() + (if i >= modify_start(p) {
            i - modify_start(p)
        } else {
            0
        }),
    decreases i - modify_start(p),
{
    if i > modify_start(p) {
        lemma_add_dels_upto_len(acc, p, i - 1);
    }
}

/// Without distance 2, the accumulated candidates stay well under the cap.
proof fn lemma_distance_1_len_bound(p: Seq<char>)
    requires
        1 <= p.len() <= MAX_PREFIX_LEN as int,
    ensures
        add_distance_1(add_suffixes(seq![p], p), p).len() <= RESULT_CAP as int,
{
    let r1 = add_suffixes(seq![p], p);
    let ra = add_insertions(r1, p);
    let rb = add_subs_upto(ra, p, p.len() as int);
    lemma_add_suffixes_upto_len(seq![p], p, 26);
    lemma_add_insertions_upto_len(r1, p, p.len() as int + 1);
    lemma_add_subs_upto_len(ra, p, p.len() as int);
    lemma_add_dels_upto_len(rb, p, p.len() as int);
}

/// Whether the candidates are in ranking order.
pub open spec fn rank_sorted(p: Seq<char>, s: Seq<Seq<char>>) -> bool {
    forall|i: int, j: int| 0 <= i < j < s.len() ==> !cand_before(p, s[j], s[i])
}

/// Stable insertion keeps the ranking order, keeps every element, and adds
/// the new one.
proof fn lemma_sorted_insert_props(p: Seq<char>, s: Seq<Seq<char>>, w: Seq<char>)
    requires
        rank_sorted(p, s),
    ensures
        rank_sorted(p, sorted_insert(p, s, w)),
        forall|x: Seq<char>|
            #[trigger] sorted_insert(p, s, w).contains(x) <==> s.contains(x) || x == w,
        sorted_insert(p, s, w).len() == s.len() + 1,
    decreases s.len(),
{
    if s.len() == 0 {
        assert forall|x: Seq<char>|
            #[trigger] sorted_insert(p, s, w).contains(x) <==> s.contains(x) || x == w by {
            if x == w {
                assert(sorted_insert(p, s, w)[0] == w);
            }
        }
    } else if cand_before(p, w, s.last()) {
        let t = s.drop_last();
        assert(rank_sorted(p, t));
        lemma_sorted_insert_props(p, t, w);
        let inner = sorted_insert(p, t, w);
        let out = inner.push(s.last());
        assert forall|i: int, j: int| 0 <= i < j < out.len() implies !cand_before(p, out[j], out[i]) by {
            if j < out.len() - 1 {
                assert(!cand_before(p, inner[j], inner[i]));
            } else {
                assert(out[j] == s.last());
                if inner[i] == w {
                    assert(!cand_before(p, s.last(), w));
                } else {
                    assert(inner.contains(inner[i]));
                    assert(t.contains(inner[i]) || inner[i] == w);
                    let k = choose|k: int| 0 <= k < t.len() && t[k] == inner[i];
                    assert(!cand_before(p, s[s.len() - 1], s[k]));
                }
            }
        }
        assert forall|x: Seq<char>| #[trigger] out.contains(x) <==> s.contains(x) || x == w by {
            if out.contains(x) {
                let k = choose|k: int| 0 <= k < out.len() && out[k] == x;
                if k < out.len() - 1 {
                    assert(inner.contains(x));
                    if t.contains(x) {
                        let m = choose|m: int| 0 <= m < t.len() && t[m] == x;
                        assert(s[m] == x);
                        assert(s.contains(x));
                    }
                } else {
                    assert(x == s.last());
                    assert(s.contains(s.last()));
                }
            }
            if s.contains(x) {
                let k = choose|k: int| 0 <= k < s.len() && s[k] == x;
                if k < s.len() - 1 {
                    assert(t[k] == x);
                    assert(t.contains(x));
                    assert(inner.contains(x));
                    let m = choose|m: int| 0 <= m < inner.len() && inner[m] == x;
                    assert(out[m] == x);
                } else {
                    assert(out[out.len() - 1] == x);
                }
            }
            if x == w {
                assert(inner.contains(w));
                let m = choose|m: int| 0 <= m < inner.len() && inner[m] == w;
                assert(out[m] == x);
            }
        }
    } else {
        let out = s.push(w);
        assert forall|i: int, j: int| 0 <= i < j < out.len() implies !cand_before(p, out[j], out[i]) by {
            if j == out.len() - 1 {
                assert(out[j] == w);
                if i < s.len() {
                    // ranking keys never decrease along a sorted sequence,
                    // and w is not before the last element
                    assert(!cand_before(p, s.last(), s[i]));
                }
            }
        }
        assert forall|x: Seq<char>| #[trigger] out.contains(x) <==> s.contains(x) || x == w by {
            if out.contains(x) {
                let k = choose|k: int| 0 <= k < out.len() && out[k] == x;
                if k < s.len() {
                    assert(s.contains(x));
                }
            }
            if s.contains(x) {
                let k = choose|k: int| 0 <= k < s.len() && s[k] == x;
                assert(out[k] == x);
            }
            if x == w {
                assert(out[out.len() - 1] == x);
            }
        }
    }
}

/// The ranking sort returns an ordered permutation: same elements, same
/// length, ranking order.
proof fn lemma_sort_upto_props(p: Seq<char>, s: Seq<Seq<char>>, i: int)
    requires
        0 <= i <= s.len(),
    ensures
        rank_sorted(p, sort_upto(p, s, i)),
        sort_upto(p, s, i).len() == i,
        forall|x: Seq<char>|
            #[trigger] sort_upto(p, s, i).contains(x) <==> (exists|j: int| 0 <= j < i && s[j] == x),
    decreases i,
{
    if i > 0 {
        lemma_sort_upto_props(p, s, i - 1);
        lemma_sorted_insert_props(p, sort_upto(p, s, i - 1), s[i - 1]);
    }
}

/// Every suffix completion reaches the final answer: without distance 2,
/// the returned candidates contain the prefix extended by each of the 26
/// letters (the cap is never reached on this path).
pub proof fn law_suffix_completions_present(p: Seq<char>, j: int)
    requires
        1 <= p.len() <= MAX_PREFIX_LEN as int,
        0 <= j < 26,
    ensures
        generate_spec(p, false).contains(suffix_word(p, j)),
{
    let sw = suffix_word(p, j);
    let r1 = add_suffixes(seq![p], p);
    let ra = add_insertions(r1, p);
    let rb = add_subs_upto(ra, p, p.len() as int);
    let r2 = add_distance_1(r1, p);
    lemma_add_suffixes_upto_contains(seq![p], p, 26, j);
    lemma_prefix_add_insertions_upto(r1, p, p.len() as int + 1);
    lemma_prefix_contains(r1, ra, sw);
    lemma_prefix_add_subs_upto(ra, p, p.len() as int);
    lemma_prefix_contains(ra, rb, sw);
    lemma_prefix_add_dels_upto(rb, p, p.len() as int);
    lemma_prefix_contains(rb, r2, sw);
    lemma_sort_upto_props(p, r2, r2.len() as int);
    let sorted = cand_sort(p, r2);
    assert(sorted.contains(sw)) by {
        let k = choose|k: int| 0 <= k < r2.len() && r2[k] == sw;
    }
    lemma_distance_1_len_bound(p);
    assert(take_at_most(sorted, RESULT_CAP as int) == sorted);
}

/// Bounded output: the generator never returns more than [`RESULT_CAP`]
/// candidates.
pub proof fn law_bounded_output(p: Seq<char>, include_distance_2: bool)
    ensures
        generate_spec(p, include_distance_2).len() <= RESULT_CAP as int,
{
}

/// Everything the per-position insertion step adds is an insertion word.
proof fn lemma_insertions_at_only_adds(acc: Seq<Seq<char>>, p: Seq<char>, i: int, j: int, c: Seq<char>)
    requires
        add_insertions_at_upto(acc, p, i, j).contains(c),
        !acc.contains(c),
    ensures
        exists|k: int| 0 <= k < j && c == insertion_word(p, i, k),
    decreases j,
{
    if j <= 0 {
    } else {
        let prev = add_insertions_at_upto(acc, p, i, j - 1);
        if prev.contains(c) {
            lemma_insertions_at_only_adds(acc, p, i, j - 1, c);
        } else {
            assert(dedup_push(prev, insertion_word(p, i, j - 1)).contains(c));
            if !prev.contains(insertion_word(p, i, j - 1)) {
                assert(c == insertion_word(p, i, j - 1) || prev.contains(c));
            }
        }
    }
}

/// Everything the insertion phase adds is an insertion word somewhere.
proof fn lemma_insertions_only_adds(acc: Seq<Seq<char>>, p: Seq<char>, i: int, c: Seq<char>)
    requires
        add_insertions_upto(acc, p, i).contains(c),
        !acc.contains(c),
    ensures
        exists|ii: int, k: int| 0 <= ii < i && 0 <= k < 26 && c == insertion_word(p, ii, k),
    decreases i,
{
    if i <= 0 {
    } else {
        let prev = add_insertions_upto(acc, p, i - 1);
        if prev.contains(c) {
            lemma_insertions_only_adds(acc, p, i - 1, c);
        } else {
            lemma_insertions_at_only_adds(prev, p, i - 1, 26, c);
        }
    }
}

/// Everything the per-position substitution step adds is a substitution
/// word.
proof fn lemma_subs_at_only_adds(acc: Seq<Seq<char>>, p: Seq<char>, i: int, j: int, c: Seq<char>)
    requires
        add_subs_at_upto(acc, p, i, j).contains(c),
        !acc.contains(c),
    ensures
        exists|k: int| 0 <= k < j && c == substitution_word(p, i, k),
    decreases j,
{
    if j <= 0 {
    } else {
        let prev = add_subs_at_upto(acc, p, i, j - 1);
        if prev.contains(c) {
            lemma_subs_at_only_adds(acc, p, i, j - 1, c);
        } else {
            assert(letter(j - 1) != p[i]);
            assert(dedup_push(prev, substitution_word(p, i, j - 1)).contains(c));
            if !prev.contains(substitution_word(p, i, j - 1)) {
                assert(c == substitution_word(p, i, j - 1) || prev.contains(c));
            }
        }
    }
}

/// Everything the substitution phase adds is a back-half substitution.
proof fn lemma_subs_only_adds(acc: Seq<Seq<char>>, p: Seq<char>, i: int, c: Seq<char>)
    requires
        add_subs_upto(acc, p, i).contains(c),
        !acc.contains(c),
    ensures
        exists|ii: int, k: int|
            modify_start(p) <= ii < i && 0 <= k < 26 && c == substitution_word(p, ii, k),
    decreases i - modify_start(p),
{
    if i <= modify_start(p) {
    } else {
        let prev = add_subs_upto(acc, p, i - 1);
        if prev.contains(c) {
            lemma_subs_only_adds(acc, p, i - 1, c);
        } else {
            lemma_subs_at_only_adds(prev, p, i - 1, 26, c);
        }
    }
}

/// Everything the deletion phase adds is a back-half deletion.
proof fn lemma_dels_only_adds(acc: Seq<Seq<char>>, p: Seq<char>, i: int, c: Seq<char>)
    requires
        add_dels_upto(acc, p, i).contains(c),
        !acc.contains(c),
    ensures
        exists|ii: int| modify_start(p) <= ii < i && c == deletion_word(p, ii),
    decreases i - modify_start(p),
{
    if i <= modify_start(p) {
    } else {
        let prev = add_dels_upto(acc, p, i - 1);
        if prev.contains(c) {
            lemma_dels_only_adds(acc, p, i - 1, c);
        } else {
            assert(dedup_push(prev, deletion_word(p, i - 1)).contains(c));
            if !prev.contains(deletion_word(p, i - 1)) {
                assert(c == deletion_word(p, i - 1) || prev.contains(c));
            }
        }
    }
}

/// Everything the distance-2 phase adds is a suffix completion of a base
/// word.
proof fn lemma_suffixes_all_only_adds(acc: Seq<Seq<char>>, base: Seq<Seq<char>>, i: int, c: Seq<char>)
    requires
        add_suffixes_all_upto(acc, base, i).contains(c),
        !acc.contains(c),
    ensures
        exists|ii: int, k: int| 0 <= ii < i && 0 <= k < 26 && c == suffix_word(base[ii], k),
    decreases i,
{
    if i <= 0 {
    } else {
        let prev = add_suffixes_all_upto(acc, base, i - 1);
        if prev.contains(c) {
            lemma_suffixes_all_only_adds(acc, base, i - 1, c);
        } else {
            lemma_suffixes_upto_only_adds(prev, base[i - 1], 26, c);
        }
    }
}

/// What the user already typed is never corrupted: no returned candidate at
/// most as long as the prefix loses its first character.  (Longer
/// candidates may: insertions before position 0 are permitted.)
pub proof fn law_front_half_preserved(p: Seq<char>, include_distance_2: bool, c: Seq<char>)
    requires
        1 <= p.len() <= MAX_PREFIX_LEN as int,
        generate_spec(p, include_distance_2).contains(c),
        c.len() <= p.len(),
    ensures
        c.len() >= 1,
        c[0] == p[0],
{
    let r1 = add_suffixes(seq![p], p);
    let ra = add_insertions(r1, p);
    let rb = add_subs_upto(ra, p, p.len() as int);
    let r2 = add_distance_1(r1, p);
    let base = base_words(p, r2);
    let r3 = if include_distance_2 {
        add_suffixes_all_upto(r2, base, base.len() as int)
    } else {
        r2
    };
    let sorted = cand_sort(p, r3);
    let res = take_at_most(sorted, RESULT_CAP as int);
    assert(sorted.contains(c)) by {
        let k = choose|k: int| 0 <= k < res.len() && res[k] == c;
        if sorted.len() > RESULT_CAP as int {
            assert(res[k] == sorted[k]);
        }
    }
    lemma_sort_upto_props(p, r3, r3.len() as int);
    assert(r3.contains(c)) by {
        let k = choose|k: int| 0 <= k < r3.len() && r3[k] == c;
    }
    if include_distance_2 && !r2.contains(c) {
        lemma_suffixes_all_only_adds(r2, base, base.len() as int, c);
        let (ii, k) = choose|ii: int, k: int|
            0 <= ii < base.len() && 0 <= k < 26 && c == suffix_word(base[ii], k);
        let pred = (|w: Seq<char>| p.is_prefix_of(w));
        let f = r2.filter(pred);
        assert(base[ii] == f[ii]);
        r2.lemma_filter_pred(pred, ii);
        assert(p.is_prefix_of(base[ii]));
        assert(c.len() == base[ii].len() + 1);
        assert(false);
    }
    assert(r2.contains(c));
    if rb.contains(c) {
        if ra.contains(c) {
            if r1.contains(c) {
                if seq![p].contains(c) {
                    assert(c == p);
                } else {
                    lemma_suffixes_upto_only_adds(seq![p], p, 26, c);
                    let k = choose|k: int| 0 <= k < 26 && c == suffix_word(p, k);
                    assert(false);
                }
            } else {
                lemma_insertions_only_adds(r1, p, p.len() as int + 1, c);
                let (ii, k) = choose|ii: int, k: int|
                    0 <= ii < p.len() + 1 && 0 <= k < 26 && c == insertion_word(p, ii, k);
                assert(c.len() == p.len() + 1);
                assert(false);
            }
        } else {
            lemma_subs_only_adds(ra, p, p.len() as int, c);
            let (ii, k) = choose|ii: int, k: int|
                modify_start(p) <= ii < p.len() && 0 <= k < 26 && c == substitution_word(p, ii, k);
            assert(c[0] == p[0]);
        }
    } else {
        lemma_dels_only_adds(rb, p, p.len() as int, c);
        let ii = choose|ii: int| modify_start(p) <= ii < p.len() && c == deletion_word(p, ii);
        assert(c.len() == p.len() - 1);
        assert(c[0] == p.take(ii)[0]);
    }
}

/// Totality: for a usable non-empty prefix the generator returns at least
/// one candidate, the prefix itself, and ranks it first.
pub proof fn law_totality(p: Seq<char>, include_distance_2: bool)
    requires
        1 <= p.len() <= MAX_PREFIX_LEN as int,
    ensures
        generate_spec(p, include_distance_2).len() >= 1,
        generate_spec(p, include_distance_2)[0] == p,
        generate_spec(p, include_distance_2).contains(p),
{
    let r1 = add_suffixes(seq![p], p);
    let r2 = add_distance_1(r1, p);
    let base = base_words(p, r2);
    let r3 = if include_distance_2 {
        add_suffixes_all_upto(r2, base, base.len() as int)
    } else {
        r2
    };
    lemma_prefix_add_suffixes_upto(seq![p], p, 26);
    assert(r1[0] == seq![p][0]);
    let ra = add_insertions(r1, p);
    lemma_prefix_add_insertions_upto(r1, p, p.len() as int + 1);
    assert(ra[0] == r1[0]);
    let rb = add_subs_upto(ra, p, p.len() as int);
    lemma_prefix_add_subs_upto(ra, p, p.len() as int);
    assert(rb[0] == ra[0]);
    lemma_prefix_add_dels_upto(rb, p, p.len() as int);
    assert(r2[0] == rb[0]);
    if include_distance_2 {
        lemma_prefix_add_suffixes_all_upto(r2, base, base.len() as int);
        assert(r3[0] == r2[0]);
    }
    assert(r3[0] == p);
    assert(r3.contains(p));
    lemma_sort_upto_props(p, r3, r3.len() as int);
    let sorted = cand_sort(p, r3);
    assert(sorted.contains(p));
    // nothing ranks strictly before the prefix itself
    assert forall|w: Seq<char>| w != p implies cand_before(p, p, w) by {
        if p.is_prefix_of(w) && w.len() <= p.len() {
            assert(p =~= w);
        }
    }
    let k = choose|k: int| 0 <= k < sorted.len() && sorted[k] == p;
    if k > 0 && sorted[0] != p {
        assert(!cand_before(p, sorted[k], sorted[0]));
        assert(false);
    }
    assert(sorted[0] == p);
    assert(generate_spec(p, include_distance_2)[0] == p);
    assert(generate_spec(p, include_distance_2).contains(p)) by {
        assert(generate_spec(p, include_distance_2)[0] == p);
        assert(generate_spec(p, include_distance_2).len() >= 1);
    }
}

/// Hot-tier capacity.
pub const HOT_TIER_CAP: usize = 100;

/// Cold-tier initial capacity hint.
pub const COLD_TIER_HINT: usize = 1000;

/// Cold-tier hits past this count graduate the entry into the hot tier.
pub const HOT_PROMOTE_THRESHOLD: usize = 5;

/// Prefixes no longer than this are always worth caching.
pub const CACHE_SHORT_PREFIX: usize = 5;

/// Longer prefixes are cached only when the result stays under this size.
pub const CACHE_LARGE_RESULT: usize = 500;

/// Copies a vector of words.
pub(crate) fn clone_strings(v: &Vec<String>) -> (r: Vec<String>)
    ensures
        r@ == v@,
{
    let n: usize = v.len();
    let mut r: Vec<String> = Vec::new();
    let mut i: usize = 0;
    while i < n
        invariant
            n == v@.len(),
            i <= n,
            r@ == v@.take(i as int),
        decreases n - i,
    {
        r.push(v[i].clone());
        proof {
            assert(r@ =~= v@.take(i as int + 1));
        }
        i = i + 1;
    }
    proof {
        assert(r@ =~= v@);
    }
    r
}

/// Turns character vectors into owned strings, word for word.
fn words_to_strings(v: &Vec<Vec<char>>) -> (r: Vec<String>)
    ensures
        r.deep_view() == v.deep_view(),
{
    let n: usize = v.len();
    let mut r: Vec<String> = Vec::new();
    let mut i: usize = 0;
    while i < n
        invariant
            n == v@.len(),
            i <= n,
            r.deep_view() == v.deep_view().take(i as int),
        decreases n - i,
    {
        let s = crate::text::chars_to_string(&v[i]);
        let ghost prev = r.deep_view();
        let ghost sv = s@;
        proof {
            lemma_deep_view_index(v, i as int);
        }
        r.push(s);
        proof {
            assert(r.deep_view() =~~= prev.push(sv));
            assert(r.deep_view() =~= v.deep_view().take(i as int + 1));
        }
        i = i + 1;
    }
    proof {
        assert(r.deep_view() =~= v.deep_view());
    }
    r
}

/// The candidate generator with its two-tier cache.
pub struct FuzzyMatcher {
    cache: CandidateCache,
}

impl FuzzyMatcher {
    /// Every cached entry answers its stored query exactly.
    pub closed spec fn wf(&self) -> bool {
        &&& forall|k: u64|
            #[trigger] cc_hot(self.cache).contains_key(k) ==> cc_hot(self.cache)[k].2
                == generate_spec(cc_hot(self.cache)[k].0, cc_hot(self.cache)[k].1)
        &&& forall|k: u64|
            #[trigger] cc_cold(self.cache).contains_key(k) ==> cc_cold(self.cache)[k].2
                == generate_spec(cc_cold(self.cache)[k].0, cc_cold(self.cache)[k].1)
    }

    /// A fresh generator with empty caches.
    pub fn new() -> (r: FuzzyMatcher)
        ensures
            r.wf(),
    {
        FuzzyMatcher { cache: cc_new(HOT_TIER_CAP, COLD_TIER_HINT) }
    }

    /// Returns every candidate within edit distance 1 (or 2, on request) of
    /// the prefix, ranked, capped, and deduplicated; consults the two-tier
    /// cache first and feeds it afterwards.  The result is a function of the
    /// arguments alone, whatever the caches hold.
    pub fn generate_candidates(&mut self, prefix: &str, include_distance_2: bool) -> (r: Vec<
        String,
    >)
        requires
            old(self).wf(),
        ensures
            final(self).wf(),
            r.deep_view() == generate_spec(prefix@, include_distance_2),
    {
        let key = create_cache_key(prefix, include_distance_2);
        let pch = crate::text::str_to_chars(prefix);
        let hot_hit = cc_hot_get(&mut self.cache, key);
        match hot_hit {
            Some((cp, cd, cv)) => {
                let cpch = crate::text::str_to_chars(cp.as_str());
                if cd == include_distance_2 && crate::text::chars_eq(&cpch, &pch) {
                    proof {
                        assert(cv.deep_view() == generate_spec(prefix@, include_distance_2));
                    }
                    let out = clone_strings(&cv);
                    proof {
                        assert(out.deep_view() =~= cv.deep_view());
                    }
                    return out;
                }
            },
            None => {},
        }
        let cold_hit = cc_cold_get(&self.cache, key);
        match cold_hit {
            Some((cp, cd, cv, count)) => {
                let cpch = crate::text::str_to_chars(cp.as_str());
                if cd == include_distance_2 && crate::text::chars_eq(&cpch, &pch) {
                    proof {
                        assert(cv.deep_view() == generate_spec(prefix@, include_distance_2));
                    }
                    // raise the access count, saturating
                    let bumped: usize = if count < usize::MAX {
                        count + 1
                    } else {
                        count
                    };
                    let written = clone_strings(&cv);
                    proof {
                        assert(written.deep_view() =~= cv.deep_view());
                    }
                    cc_cold_put(&mut self.cache, key, cp.clone(), cd, written, bumped);
                    if bumped > HOT_PROMOTE_THRESHOLD {
                        let copy = clone_strings(&cv);
                        proof {
                            assert(copy.deep_view() =~= cv.deep_view());
                        }
                        cc_hot_put(&mut self.cache, key, cp, cd, copy);
                    }
                    let out = clone_strings(&cv);
                    proof {
                        assert(out.deep_view() =~= cv.deep_view());
                    }
                    return out;
                }
            },
            None => {},
        }
        let words = compute_candidates(&pch, include_distance_2);
        let out = words_to_strings(&words);
        if out.len() > 0 && pch.len() > 1 && (pch.len() <= CACHE_SHORT_PREFIX || out.len()
            < CACHE_LARGE_RESULT) {
            let stored = clone_strings(&out);
            proof {
                assert(stored.deep_view() =~= out.deep_view());
            }
            cc_cold_put(&mut self.cache, key, prefix.to_owned(), include_distance_2, stored, 1);
        }
        out
    }
}

/// Generates edit-distance candidates for a prefix through the matcher's
/// cache.
pub fn generate_levenshtein_candidates(
    matcher: &mut FuzzyMatcher,
    prefix: &str,
    include_distance_2: bool,
) -> (r: Vec<String>)
    requires
        old(matcher).wf(),
    ensures
        final(matcher).wf(),
        r.deep_view() == generate_spec(prefix@, include_distance_2),
{
    matcher.generate_candidates(prefix, include_distance_2)
}

} // verus!
