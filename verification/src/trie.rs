//! The frequency-ranked prefix index: a trie over the vocabulary, a store
//! of word frequencies, and a bounded result cache, rebuilt wholesale from a
//! ranked word source and queried by prefix.

use vstd::prelude::*;
use crate::fuzzy::take_at_most;
use crate::text::{
    chars_eq, is_upper_char, lower_of, lowercase_str, str_to_chars, upper_char_of, uppercase_char,
    uppercase_test_char,
};

verus! {

//////////////////////////////////////////////////////////////////////////
// The trie itself lives in the `trie_rs` crate; these declarations and
// wrappers are what the rest of the index is verified against.
//////////////////////////////////////////////////////////////////////////

#[verifier::external_type_specification]
#[verifier::external_body]
#[verifier::reject_recursive_types(Label)]
pub struct ExTrie<Label>(trie_rs::Trie<Label>);

#[verifier::external_type_specification]
#[verifier::external_body]
#[verifier::reject_recursive_types(Label)]
pub struct ExTrieBuilder<Label>(trie_rs::TrieBuilder<Label>);

/// The words a built trie stores, in the fixed order its predictive search
/// enumerates them (lexicographic by character).
pub uninterp spec fn trie_words(t: trie_rs::Trie<char>) -> Seq<Seq<char>>;

/// The words pushed into a trie builder so far, in push order.
pub uninterp spec fn builder_pushes(b: trie_rs::TrieBuilder<char>) -> Seq<Seq<char>>;

/// No words at all.
pub open spec fn no_pushes() -> Seq<Seq<char>> {
    Seq::empty()
}

/// Whether a push history leaves `w` stored.  Pushing the empty word walks
/// over no characters at all and is a complete no-op, so the empty word is
/// never stored.  For any other word, the builder marks its final node
/// terminal only when that node did not exist yet, so `w` is kept exactly
/// when no earlier push had `w` as a proper or full prefix — that is, when
/// the first pushed word starting with `w` is `w` itself.
pub open spec fn stored_after(h: Seq<Seq<char>>, w: Seq<char>) -> bool {
    w.len() >= 1 && exists|i: int|
        0 <= i < h.len() && h[i] == w && (forall|j: int|
            0 <= j < i ==> !w.is_prefix_of(#[trigger] h[j]))
}

/// Everything a push history leaves stored.
pub open spec fn stored_set(h: Seq<Seq<char>>) -> Set<Seq<char>> {
    Set::new(|w: Seq<char>| stored_after(h, w))
}

/// The words of `words` that have `p` as a prefix, in enumeration order.
pub open spec fn matches_of(words: Seq<Seq<char>>, p: Seq<char>) -> Seq<Seq<char>> {
    words.filter(|w: Seq<char>| p.is_prefix_of(w))
}

/// Relies on `trie_rs::TrieBuilder::new`: the builder starts empty.
#[verifier::external_body]
pub fn trie_builder_new() -> (b: trie_rs::TrieBuilder<char>)
    ensures
        builder_pushes(b) == no_pushes(),
{
    trie_rs::TrieBuilder::new()
}

/// Relies on `trie_rs::TrieBuilder::push`: records one word at the end of
/// the push history.  Which words the history leaves stored is the
/// builder's quirk captured by [`stored_after`].
#[verifier::external_body]
pub fn trie_builder_push(b: &mut trie_rs::TrieBuilder<char>, w: &Vec<char>)
    ensures
        builder_pushes(*final(b)) == builder_pushes(*old(b)).push(w@),
{
    b.push(w.as_slice());
}

/// Relies on `trie_rs::TrieBuilder::build`: the built trie stores exactly
/// the words the push history kept (a pushed word is lost when an earlier
/// push already laid down its whole path), each once, in a fixed
/// enumeration order.
#[verifier::external_body]
pub fn trie_build(b: &trie_rs::TrieBuilder<char>) -> (t: trie_rs::Trie<char>)
    ensures
        trie_words(t).no_duplicates(),
        trie_words(t).to_set() == stored_set(builder_pushes(*b)),
{
    b.build()
}

/// Relies on `trie_rs::Trie::predictive_search`: returns exactly the stored
/// words having the query as prefix, in enumeration order.  The underlying
/// search panics on an empty query, so one is required away.
#[verifier::external_body]
pub fn trie_predictive(t: &trie_rs::Trie<char>, q: &Vec<char>) -> (r: Vec<Vec<char>>)
    requires
        q@.len() >= 1,
    ensures
        r.deep_view() == matches_of(trie_words(*t), q@),
{
    t.predictive_search(q.as_slice())
}

//////////////////////////////////////////////////////////////////////////
// The bounded prefix-result cache lives in the `lru` crate.
//////////////////////////////////////////////////////////////////////////

/// The bounded LRU holding ranked results per prefix.  The collection comes
/// from the `lru` crate; its default hasher type cannot be named here, so
/// the cache is held behind this opaque struct and spoken of only through
/// [`pc_entries`].
#[verifier::external_body]
pub struct PrefixCache {
    inner: lru::LruCache<String, (usize, Vec<String>)>,
}

/// What the prefix cache holds: for each cached prefix, the query limit it
/// was filled under and the ranked words stored for it.
pub uninterp spec fn pc_entries(c: PrefixCache) -> Map<Seq<char>, (nat, Seq<Seq<char>>)>;

/// An empty prefix cache.
pub open spec fn pc_empty() -> Map<Seq<char>, (nat, Seq<Seq<char>>)> {
    Map::empty()
}

/// Relies on `lru::LruCache::new`: the cache starts empty.
#[verifier::external_body]
pub fn pc_new(cap: usize) -> (r: PrefixCache)
    requires
        cap >= 1,
    ensures
        pc_entries(r) == pc_empty(),
{
    PrefixCache { inner: lru::LruCache::new(std::num::NonZeroUsize::new(cap).unwrap()) }
}

/// Relies on `lru::LruCache::get`: returns a copy of the entry stored under
/// the prefix, if any; only recency changes, never the contents.
#[verifier::external_body]
pub fn pc_get(c: &mut PrefixCache, k: &String) -> (r: Option<(usize, Vec<String>)>)
    ensures
        pc_entries(*final(c)) == pc_entries(*old(c)),
        match r {
            Some(e) => pc_entries(*old(c)).contains_key(k@) && e.0 as nat == pc_entries(
                *old(c),
            )[k@].0 && e.1.deep_view() == pc_entries(*old(c))[k@].1,
            None => !pc_entries(*old(c)).contains_key(k@),
        },
{
    c.inner.get(k).cloned()
}

/// Relies on `lru::LruCache::put`: stores the entry under the prefix; at
/// most one other entry (the least recently used) may leave the cache.
#[verifier::external_body]
pub fn pc_put(c: &mut PrefixCache, k: String, limit: usize, v: Vec<String>)
    ensures
        pc_entries(*final(c)).contains_key(k@),
        pc_entries(*final(c))[k@] == (limit as nat, v.deep_view()),
        forall|q: Seq<char>|
            #[trigger] pc_entries(*final(c)).contains_key(q) ==> q == k@ || (pc_entries(
                *old(c),
            ).contains_key(q) && pc_entries(*final(c))[q] == pc_entries(*old(c))[q]),
{
    c.inner.put(k, (limit, v));
}

/// Relies on `lru::LruCache::clear`: empties the cache.
#[verifier::external_body]
pub fn pc_clear(c: &mut PrefixCache)
    ensures
        pc_entries(*final(c)) == pc_empty(),
{
    c.inner.clear();
}

//////////////////////////////////////////////////////////////////////////
// Frequency store: an in-memory mapping from word to rank.
//////////////////////////////////////////////////////////////////////////

/// The mapping an association list denotes; later entries win.
pub open spec fn assoc_model(s: Seq<(Vec<char>, i64)>) -> Map<Seq<char>, int>
    decreases s.len(),
{
    if s.len() == 0 {
        Map::empty()
    } else {
        assoc_model(s.drop_last()).insert(s.last().0@, s.last().1 as int)
    }
}

/// An in-memory mapping from word to its integer frequency rank.
pub struct FreqStore {
    entries: Vec<(Vec<char>, i64)>,
}

impl FreqStore {
    /// The mapping the store holds.
    pub closed spec fn model(&self) -> Map<Seq<char>, int> {
        assoc_model(self.entries@)
    }

    /// An empty store.
    pub fn new() -> (r: FreqStore)
        ensures
            r.model() == Map::<Seq<char>, int>::empty(),
    {
        FreqStore { entries: Vec::new() }
    }

    /// Records the frequency of a word, overwriting any earlier record.
    pub fn insert(&mut self, word: Vec<char>, freq: i64)
        ensures
            final(self).model() == old(self).model().insert(word@, freq as int),
    {
        let ghost prev = self.entries@;
        self.entries.push((word, freq));
        proof {
            assert(self.entries@.drop_last() =~= prev);
        }
    }

    /// The recorded frequency of a word; words never recorded rank 0.
    pub fn lookup(&self, w: &Vec<char>) -> (r: i64)
        ensures
            r as int == freq_of(self.model(), w@),
    {
        let n: usize = self.entries.len();
        let mut i: usize = n;
        proof {
            assert(self.entries@.take(n as int) =~= self.entries@);
        }
        while i > 0
            invariant
                n == self.entries@.len(),
                i <= n,
                !assoc_model(self.entries@.take(i as int)).contains_key(w@) ==> !assoc_model(
                    self.entries@,
                ).contains_key(w@),
                assoc_model(self.entries@.take(i as int)).contains_key(w@) ==> assoc_model(
                    self.entries@,
                ).contains_key(w@) && assoc_model(self.entries@.take(i as int))[w@] == assoc_model(
                    self.entries@,
                )[w@],
            decreases i,
        {
            let hit = chars_eq(&self.entries[i - 1].0, w);
            proof {
                assert(self.entries@.take(i as int).drop_last() =~= self.entries@.take(
                    i as int - 1,
                ));
                assert(self.entries@.take(i as int).last() == self.entries@[i as int - 1]);
            }
            if hit {
                return self.entries[i - 1].1;
            }
            i = i - 1;
        }
        proof {
            assert(self.entries@.take(0) =~= Seq::<(Vec<char>, i64)>::empty());
        }
        0
    }

    /// Whether the store has a record for the word.
    pub fn contains(&self, w: &Vec<char>) -> (r: bool)
        ensures
            r == self.model().contains_key(w@),
    {
        let n: usize = self.entries.len();
        let mut i: usize = n;
        proof {
            assert(self.entries@.take(n as int) =~= self.entries@);
        }
        while i > 0
            invariant
                n == self.entries@.len(),
                i <= n,
                assoc_model(self.entries@.take(i as int)).contains_key(w@) == assoc_model(
                    self.entries@,
                ).contains_key(w@),
            decreases i,
        {
            let hit = chars_eq(&self.entries[i - 1].0, w);
            proof {
                assert(self.entries@.take(i as int).drop_last() =~= self.entries@.take(
                    i as int - 1,
                ));
                assert(self.entries@.take(i as int).last() == self.entries@[i as int - 1]);
            }
            if hit {
                return true;
            }
            i = i - 1;
        }
        proof {
            assert(self.entries@.take(0) =~= Seq::<(Vec<char>, i64)>::empty());
        }
        false
    }
}

/// The frequency a word ranks at: its recorded rank, or 0 when none was
/// recorded.
pub open spec fn freq_of(m: Map<Seq<char>, int>, w: Seq<char>) -> int {
    if m.contains_key(w) {
        m[w]
    } else {
        0
    }
}

/// Ranking order for trie results: strictly more frequent words first;
/// equally frequent words keep their enumeration order.
pub open spec fn freq_before(m: Map<Seq<char>, int>, a: Seq<char>, b: Seq<char>) -> bool {
    freq_of(m, a) > freq_of(m, b)
}

/// Stable insertion of `w` into `s` from the right, by descending
/// frequency.
pub open spec fn freq_sorted_insert(
    m: Map<Seq<char>, int>,
    s: Seq<Seq<char>>,
    w: Seq<char>,
) -> Seq<Seq<char>>
    decreases s.len(),
{
    if s.len() == 0 {
        seq![w]
    } else if freq_before(m, w, s.last()) {
        freq_sorted_insert(m, s.drop_last(), w).push(s.last())
    } else {
        s.push(w)
    }
}

/// Stable insertion sort of the first `i` elements of `s` by descending
/// frequency.
pub open spec fn freq_sort_upto(m: Map<Seq<char>, int>, s: Seq<Seq<char>>, i: int) -> Seq<
    Seq<char>,
>
    decreases i,
{
    if i <= 0 {
        Seq::empty()
    } else {
        freq_sorted_insert(m, freq_sort_upto(m, s, i - 1), s[i - 1])
    }
}

/// The descending-frequency ordering of a word sequence.
pub open spec fn freq_sort(m: Map<Seq<char>, int>, s: Seq<Seq<char>>) -> Seq<Seq<char>> {
    freq_sort_upto(m, s, s.len() as int)
}

/// Everything a trie query returns: the stored words with the given prefix,
/// ranked by descending frequency, truncated to the limit.
pub open spec fn query_spec(
    words: Seq<Seq<char>>,
    m: Map<Seq<char>, int>,
    p: Seq<char>,
    limit: int,
) -> Seq<Seq<char>> {
    take_at_most(freq_sort(m, matches_of(words, p)), limit)
}

/// [`freq_sorted_insert`] places `w` exactly at the scan position `k`.
proof fn lemma_freq_insert_at(m: Map<Seq<char>, int>, s: Seq<Seq<char>>, w: Seq<char>, k: int)
    requires
        0 <= k <= s.len(),
        forall|j: int| k <= j < s.len() ==> freq_before(m, w, #[trigger] s[j]),
        k > 0 ==> !freq_before(m, w, s[k - 1]),
    ensures
        freq_sorted_insert(m, s, w) == s.take(k) + seq![w] + s.skip(k),
    decreases s.len() - k,
{
    if k == s.len() {
        if s.len() == 0 {
            assert(freq_sorted_insert(m, s, w) =~= s.take(k) + seq![w] + s.skip(k));
        } else {
            assert(!freq_before(m, w, s.last()));
            assert(freq_sorted_insert(m, s, w) =~= s.take(k) + seq![w] + s.skip(k));
        }
    } else {
        assert(freq_before(m, w, s[s.len() - 1]));
        let t = s.drop_last();
        assert(forall|j: int| k <= j < t.len() ==> freq_before(m, w, #[trigger] t[j]));
        if k > 0 {
            assert(t[k - 1] == s[k - 1]);
        }
        lemma_freq_insert_at(m, t, w, k);
        assert(freq_sorted_insert(m, s, w) == freq_sorted_insert(m, t, w).push(s.last()));
        assert((t.take(k) + seq![w] + t.skip(k)).push(s.last()) =~= s.take(k) + seq![w] + s.skip(
            k,
        ));
    }
}

/// The element of a vector-of-words view is the word's view.
proof fn lemma_words_deep_view_index(v: &Vec<Vec<char>>, i: int)
    requires
        0 <= i < v@.len(),
    ensures
        v.deep_view()[i] == v@[i]@,
{
    assert(v@[i].deep_view() =~= v@[i]@);
}

/// Finds the spot where `w` belongs in the ranked list.
fn freq_insert_pos(store: &FreqStore, out: &Vec<Vec<char>>, w: &Vec<char>) -> (k: usize)
    ensures
        k <= out@.len(),
        forall|j: int|
            k <= j < out@.len() ==> freq_before(store.model(), w@, #[trigger] out.deep_view()[j]),
        k > 0 ==> !freq_before(store.model(), w@, out.deep_view()[k - 1]),
{
    let wf = store.lookup(w);
    let mut k: usize = out.len();
    while k > 0
        invariant
            k <= out@.len(),
            wf as int == freq_of(store.model(), w@),
            forall|j: int|
                k <= j < out@.len() ==> freq_before(
                    store.model(),
                    w@,
                    #[trigger] out.deep_view()[j],
                ),
        decreases k,
    {
        let prevf = store.lookup(&out[k - 1]);
        proof {
            lemma_words_deep_view_index(out, k - 1 as int);
        }
        if wf > prevf {
            k = k - 1;
        } else {
            return k;
        }
    }
    k
}

/// Sorts words by descending recorded frequency, mirroring [`freq_sort`].
fn rank_by_freq(store: &FreqStore, v: &Vec<Vec<char>>) -> (out: Vec<Vec<char>>)
    ensures
        out.deep_view() == freq_sort(store.model(), v.deep_view()),
{
    let mut out: Vec<Vec<char>> = Vec::new();
    let n: usize = v.len();
    let mut i: usize = 0;
    while i < n
        invariant
            n == v@.len(),
            i <= n,
            out.deep_view() == freq_sort_upto(store.model(), v.deep_view(), i as int),
        decreases n - i,
    {
        let w = crate::text::clone_chars(&v[i]);
        proof {
            lemma_words_deep_view_index(v, i as int);
        }
        let k = freq_insert_pos(store, &out, &w);
        let ghost prev = out.deep_view();
        let ghost wv = w@;
        proof {
            lemma_freq_insert_at(store.model(), prev, wv, k as int);
        }
        out.insert(k, w);
        proof {
            assert(out.deep_view() =~~= prev.take(k as int) + seq![wv] + prev.skip(k as int));
        }
        i = i + 1;
    }
    proof {
        assert(v.deep_view().len() == v@.len());
    }
    out
}

/// Truncating twice truncates once: the tighter bound wins.
proof fn lemma_take_at_most_twice(s: Seq<Seq<char>>, outer: int, inner: int)
    requires
        0 <= outer <= inner,
    ensures
        take_at_most(take_at_most(s, inner), outer) == take_at_most(s, outer),
{
    if s.len() > inner {
        if s.take(inner).len() > outer {
            assert(s.take(inner).take(outer) =~= s.take(outer));
        }
    }
}

/// Whether the words come shortest first.
pub open spec fn len_sorted(s: Seq<Seq<char>>) -> bool {
    forall|i: int, j: int| 0 <= i < j < s.len() ==> #[trigger] s[i].len() <= #[trigger] s[j].len()
}

/// Stable insertion of `w` into `s` from the right, shortest words first.
pub open spec fn len_sorted_insert(s: Seq<Seq<char>>, w: Seq<char>) -> Seq<Seq<char>>
    decreases s.len(),
{
    if s.len() == 0 {
        seq![w]
    } else if w.len() < s.last().len() {
        len_sorted_insert(s.drop_last(), w).push(s.last())
    } else {
        s.push(w)
    }
}

/// Stable insertion sort of the first `i` words by ascending length.
pub open spec fn len_sort_upto(s: Seq<Seq<char>>, i: int) -> Seq<Seq<char>>
    decreases i,
{
    if i <= 0 {
        Seq::empty()
    } else {
        len_sorted_insert(len_sort_upto(s, i - 1), s[i - 1])
    }
}

/// The words ordered by ascending length.
pub open spec fn len_sort(s: Seq<Seq<char>>) -> Seq<Seq<char>> {
    len_sort_upto(s, s.len() as int)
}

/// [`len_sorted_insert`] places `w` exactly at the scan position `k`.
proof fn lemma_len_insert_at(s: Seq<Seq<char>>, w: Seq<char>, k: int)
    requires
        0 <= k <= s.len(),
        forall|j: int| k <= j < s.len() ==> w.len() < (#[trigger] s[j]).len(),
        k > 0 ==> !(w.len() < s[k - 1].len()),
    ensures
        len_sorted_insert(s, w) == s.take(k) + seq![w] + s.skip(k),
    decreases s.len() - k,
{
    if k == s.len() {
        assert(len_sorted_insert(s, w) =~= s.take(k) + seq![w] + s.skip(k));
    } else {
        let t = s.drop_last();
        assert(forall|j: int| k <= j < t.len() ==> w.len() < (#[trigger] t[j]).len());
        if k > 0 {
            assert(t[k - 1] == s[k - 1]);
        }
        lemma_len_insert_at(t, w, k);
        assert((t.take(k) + seq![w] + t.skip(k)).push(s.last()) =~= s.take(k) + seq![w] + s.skip(
            k,
        ));
    }
}

/// Length-stable insertion keeps the order sorted and keeps every element.
proof fn lemma_len_insert_props(s: Seq<Seq<char>>, w: Seq<char>)
    requires
        len_sorted(s),
    ensures
        len_sorted(len_sorted_insert(s, w)),
        forall|x: Seq<char>|
            #[trigger] len_sorted_insert(s, w).contains(x) <==> s.contains(x) || x == w,
        len_sorted_insert(s, w).len() == s.len() + 1,
    decreases s.len(),
{
    if s.len() == 0 {
        assert forall|x: Seq<char>|
            #[trigger] len_sorted_insert(s, w).contains(x) <==> s.contains(x) || x == w by {
            if x == w {
                assert(len_sorted_insert(s, w)[0] == w);
            }
        }
    } else if w.len() < s.last().len() {
        let t = s.drop_last();
        assert(len_sorted(t));
        lemma_len_insert_props(t, w);
        let inner = len_sorted_insert(t, w);
        let out = inner.push(s.last());
        assert forall|i: int, j: int| 0 <= i < j < out.len() implies (#[trigger] out[i]).len()
            <= (#[trigger] out[j]).len() by {
            if j < out.len() - 1 {
                assert(inner[i].len() <= inner[j].len());
            } else {
                assert(out[j] == s.last());
                if inner[i] == w {
                } else {
                    assert(inner.contains(inner[i]));
                    assert(t.contains(inner[i]) || inner[i] == w);
                    let m = choose|m: int| 0 <= m < t.len() && t[m] == inner[i];
                    assert(s[m].len() <= s[s.len() - 1].len());
                }
            }
        }
        assert forall|x: Seq<char>| #[trigger] out.contains(x) <==> s.contains(x) || x == w by {
            if out.contains(x) {
                let k = choose|k: int| 0 <= k < out.len() && out[k] == x;
                if k < out.len() - 1 {
                    assert(inner.contains(x));
                    if t.contains(x) {
                        let m = choose|m: int| 0 <= m < t.len() && t[m] == x;
                        assert(s[m] == x);
                    }
                } else {
                    assert(s.contains(s.last()));
                }
            }
            if s.contains(x) {
                let k = choose|k: int| 0 <= k < s.len() && s[k] == x;
                if k < s.len() - 1 {
                    assert(t[k] == x);
                    assert(inner.contains(x));
                    let m = choose|m: int| 0 <= m < inner.len() && inner[m] == x;
                    assert(out[m] == x);
                } else {
                    assert(out[out.len() - 1] == x);
                }
            }
            if x == w {
                assert(inner.contains(w));
                let m = choose|m: int| 0 <= m < inner.len() && inner[m] == w;
                assert(out[m] == x);
            }
        }
    } else {
        let out = s.push(w);
        assert forall|i: int, j: int| 0 <= i < j < out.len() implies (#[trigger] out[i]).len()
            <= (#[trigger] out[j]).len() by {
            if j == out.len() - 1 {
                if i < s.len() {
                    assert(s[i].len() <= s[s.len() - 1].len());
                }
            }
        }
        assert forall|x: Seq<char>| #[trigger] out.contains(x) <==> s.contains(x) || x == w by {
            if out.contains(x) {
                let k = choose|k: int| 0 <= k < out.len() && out[k] == x;
                if k < s.len() {
                    assert(s.contains(x));
                }
            }
            if s.contains(x) {
                let k = choose|k: int| 0 <= k < s.len() && s[k] == x;
                assert(out[k] == x);
            }
            if x == w {
                assert(out[out.len() - 1] == x);
            }
        }
    }
}

/// The length sort returns an ordered permutation of the words.
proof fn lemma_len_sort_props(s: Seq<Seq<char>>, i: int)
    requires
        0 <= i <= s.len(),
    ensures
        len_sorted(len_sort_upto(s, i)),
        len_sort_upto(s, i).len() == i,
        forall|x: Seq<char>|
            #[trigger] len_sort_upto(s, i).contains(x) <==> (exists|j: int|
                0 <= j < i && s[j] == x),
    decreases i,
{
    if i > 0 {
        lemma_len_sort_props(s, i - 1);
        lemma_len_insert_props(len_sort_upto(s, i - 1), s[i - 1]);
    }
}

/// A length-sorted push history of non-empty words loses nothing: every
/// pushed word stays stored, because no earlier push can strictly extend a
/// later one.
proof fn lemma_stored_set_of_len_sorted(h: Seq<Seq<char>>)
    requires
        len_sorted(h),
        forall|k: int| 0 <= k < h.len() ==> (#[trigger] h[k]).len() >= 1,
    ensures
        stored_set(h) =~= h.to_set(),
{
    assert forall|w: Seq<char>| #[trigger] h.to_set().contains(w) implies stored_set(h).contains(
        w,
    ) by {
        h.index_of_first_ensures(w);
        let i = h.index_of_first(w)->Some_0;
        assert forall|j: int| 0 <= j < i implies !w.is_prefix_of(#[trigger] h[j]) by {
            if w.is_prefix_of(h[j]) {
                assert(h[j].len() <= h[i].len());
                assert(w =~= h[j]);
            }
        }
        assert(stored_after(h, w));
    }
    assert forall|w: Seq<char>| #[trigger] stored_set(h).contains(w) implies h.to_set().contains(
        w,
    ) by {
        let i = choose|i: int|
            0 <= i < h.len() && h[i] == w && (forall|j: int|
                0 <= j < i ==> !w.is_prefix_of(#[trigger] h[j]));
        assert(h.contains(w));
    }
}

/// Finds the spot where `w` belongs in the length-ordered list.
fn len_insert_pos(out: &Vec<Vec<char>>, w: &Vec<char>) -> (k: usize)
    ensures
        k <= out@.len(),
        forall|j: int| k <= j < out@.len() ==> w@.len() < (#[trigger] out.deep_view()[j]).len(),
        k > 0 ==> !(w@.len() < out.deep_view()[k - 1].len()),
{
    let mut k: usize = out.len();
    while k > 0
        invariant
            k <= out@.len(),
            forall|j: int|
                k <= j < out@.len() ==> w@.len() < (#[trigger] out.deep_view()[j]).len(),
        decreases k,
    {
        proof {
            lemma_words_deep_view_index(out, k - 1 as int);
        }
        if w.len() < out[k - 1].len() {
            k = k - 1;
        } else {
            return k;
        }
    }
    k
}

/// Sorts words by ascending length, mirroring [`len_sort`].
fn sort_words_by_len(v: &Vec<Vec<char>>) -> (out: Vec<Vec<char>>)
    ensures
        out.deep_view() == len_sort(v.deep_view()),
{
    let mut out: Vec<Vec<char>> = Vec::new();
    let n: usize = v.len();
    let mut i: usize = 0;
    while i < n
        invariant
            n == v@.len(),
            i <= n,
            out.deep_view() == len_sort_upto(v.deep_view(), i as int),
        decreases n - i,
    {
        let w = crate::text::clone_chars(&v[i]);
        proof {
            lemma_words_deep_view_index(v, i as int);
        }
        let k = len_insert_pos(&out, &w);
        let ghost prev = out.deep_view();
        let ghost wv = w@;
        proof {
            lemma_len_insert_at(prev, wv, k as int);
        }
        out.insert(k, w);
        proof {
            assert(out.deep_view() =~~= prev.take(k as int) + seq![wv] + prev.skip(k as int));
        }
        i = i + 1;
    }
    proof {
        assert(v.deep_view().len() == v@.len());
    }
    out
}

/// Rebuilds closer together than this many seconds are silently skipped.
pub const REBUILD_INTERVAL_SECS: u64 = 3600;

/// Capacity of the prefix-result cache.
pub const PREFIX_CACHE_CAP: usize = 1000;

/// Errors of an index rebuild.
#[derive(Clone, Copy, Debug, PartialEq, Eq, Structural)]
pub enum BuildError {
    /// The ranked word source could not be opened; the prior index, if any,
    /// stays in place and keeps serving.
    SourceUnavailable,
    /// An individual record of the source failed to parse.  Rebuilds skip
    /// such rows and continue, so a rebuild never fails with this; it is
    /// the callers' currency for row-level faults.
    MalformedRow,
}

/// The vocabulary a row sequence carries: its non-empty well-formed words.
/// Malformed rows are skipped, and so is an empty word — the trie cannot
/// store one, and no query could ever reach it.
pub open spec fn rows_words(rows: Seq<Option<(Seq<char>, i64)>>) -> Set<Seq<char>>
    decreases rows.len(),
{
    if rows.len() == 0 {
        Set::empty()
    } else {
        match rows.last() {
            Some(p) => if p.0.len() >= 1 {
                rows_words(rows.drop_last()).insert(p.0)
            } else {
                rows_words(rows.drop_last())
            },
            None => rows_words(rows.drop_last()),
        }
    }
}

/// The frequency mapping a row sequence carries; malformed rows are
/// skipped, later rows win.
pub open spec fn rows_freqs(rows: Seq<Option<(Seq<char>, i64)>>) -> Map<Seq<char>, int>
    decreases rows.len(),
{
    if rows.len() == 0 {
        Map::empty()
    } else {
        match rows.last() {
            Some(p) => rows_freqs(rows.drop_last()).insert(p.0, p.1 as int),
            None => rows_freqs(rows.drop_last()),
        }
    }
}

/// The non-empty well-formed words of a row sequence in order, duplicates
/// kept.
pub open spec fn rows_word_seq(rows: Seq<Option<(Seq<char>, i64)>>) -> Seq<Seq<char>>
    decreases rows.len(),
{
    if rows.len() == 0 {
        Seq::empty()
    } else {
        match rows.last() {
            Some(p) => if p.0.len() >= 1 {
                rows_word_seq(rows.drop_last()).push(p.0)
            } else {
                rows_word_seq(rows.drop_last())
            },
            None => rows_word_seq(rows.drop_last()),
        }
    }
}

/// The vocabulary is exactly the set of non-empty well-formed row words.
proof fn lemma_rows_word_seq_to_set(rows: Seq<Option<(Seq<char>, i64)>>)
    ensures
        rows_word_seq(rows).to_set() =~= rows_words(rows),
    decreases rows.len(),
{
    if rows.len() > 0 {
        lemma_rows_word_seq_to_set(rows.drop_last());
        match rows.last() {
            Some(p) => {
                if p.0.len() >= 1 {
                    let prev = rows_word_seq(rows.drop_last());
                    assert forall|w: Seq<char>| #[trigger] prev.push(p.0).contains(w) implies prev.contains(
                        w,
                    ) || w == p.0 by {
                        let k = choose|k: int|
                            0 <= k < prev.push(p.0).len() && prev.push(p.0)[k] == w;
                        if k < prev.len() {
                            assert(prev[k] == w);
                        }
                    }
                    assert forall|w: Seq<char>| prev.contains(w) implies #[trigger] prev.push(
                        p.0,
                    ).contains(w) by {
                        let k = choose|k: int| 0 <= k < prev.len() && prev[k] == w;
                        assert(prev.push(p.0)[k] == w);
                    }
                    assert(prev.push(p.0).contains(p.0)) by {
                        assert(prev.push(p.0)[prev.len() as int] == p.0);
                    }
                }
            },
            None => {},
        }
    }
}

/// Every word the row sequence yields is non-empty.
proof fn lemma_rows_word_seq_nonempty(rows: Seq<Option<(Seq<char>, i64)>>)
    ensures
        forall|k: int|
            0 <= k < rows_word_seq(rows).len() ==> (#[trigger] rows_word_seq(rows)[k]).len() >= 1,
    decreases rows.len(),
{
    if rows.len() > 0 {
        lemma_rows_word_seq_nonempty(rows.drop_last());
        let prev = rows_word_seq(rows.drop_last());
        match rows.last() {
            Some(p) => {
                if p.0.len() >= 1 {
                    assert forall|k: int|
                        0 <= k < rows_word_seq(rows).len() implies (#[trigger] rows_word_seq(
                        rows,
                    )[k]).len() >= 1 by {
                        if k < prev.len() {
                            assert(rows_word_seq(rows)[k] == prev[k]);
                        }
                    }
                }
            },
            None => {},
        }
    }
}

/// Whether a rebuild at `now` is suppressed by the recency guard.
pub open spec fn rebuild_blocked(last: Option<u64>, now: u64) -> bool {
    match last {
        Some(t) => now < t || now - t < REBUILD_INTERVAL_SECS,
        None => false,
    }
}

/// Whether two index states hold the same installed vocabulary, the same
/// frequencies and the same build history (the result cache may differ).
pub open spec fn same_store(a: TrieIndex, b: TrieIndex) -> bool {
    &&& a.words() == b.words()
    &&& a.freq_model() == b.freq_model()
    &&& a.initialized() == b.initialized()
    &&& a.last_build_time() == b.last_build_time()
}

/// The index manager: owns the trie, the frequency store and the bounded
/// prefix-result cache, and rebuilds them wholesale.
pub struct TrieIndex {
    trie: Option<trie_rs::Trie<char>>,
    freqs: FreqStore,
    cache: PrefixCache,
    last_build: Option<u64>,
}

impl TrieIndex {
    /// The stored vocabulary, in enumeration order; empty before the first
    /// build.
    pub closed spec fn words(&self) -> Seq<Seq<char>> {
        match self.trie {
            Some(t) => trie_words(t),
            None => Seq::empty(),
        }
    }

    /// The stored frequency mapping.
    pub closed spec fn freq_model(&self) -> Map<Seq<char>, int> {
        self.freqs.model()
    }

    /// Whether a build has installed a trie.
    pub closed spec fn initialized(&self) -> bool {
        self.trie is Some
    }

    /// When the last successful build ran, if any.
    pub closed spec fn last_build_time(&self) -> Option<u64> {
        self.last_build
    }

    /// Every cached entry holds exactly what a fresh query under its stored
    /// limit would return.
    pub closed spec fn wf(&self) -> bool {
        forall|p: Seq<char>|
            #[trigger] pc_entries(self.cache).contains_key(p) ==> pc_entries(self.cache)[p].1
                == query_spec(
                self.words(),
                self.freq_model(),
                p,
                pc_entries(self.cache)[p].0 as int,
            )
    }

    /// A fresh, uninitialized index.
    pub fn new() -> (r: TrieIndex)
        ensures
            r.wf(),
            !r.initialized(),
            r.words() == Seq::<Seq<char>>::empty(),
            r.freq_model() == Map::<Seq<char>, int>::empty(),
            r.last_build_time() is None,
    {
        TrieIndex {
            trie: None,
            freqs: FreqStore::new(),
            cache: pc_new(PREFIX_CACHE_CAP),
            last_build: None,
        }
    }

    /// Whether the index has been built and can serve prefix queries.
    pub fn is_trie_initialized(&self) -> (r: bool)
        ensures
            r == self.initialized(),
    {
        self.trie.is_some()
    }

    /// Rebuilds the index from a ranked word source: installs the new trie
    /// and frequency store wholesale, clears the prefix cache, and records
    /// the build time.  A rebuild within the recency interval is a silent
    /// no-op; an unreachable source leaves the prior index fully in place.
    pub fn initialize_global_trie(
        &mut self,
        source: Option<Vec<Option<(String, i64)>>>,
        now: u64,
    ) -> (r: Result<(), BuildError>)
        requires
            old(self).wf(),
        ensures
            final(self).wf(),
            rebuild_blocked(old(self).last_build_time(), now) ==> r is Ok && same_store(
                *old(self),
                *final(self),
            ),
            !rebuild_blocked(old(self).last_build_time(), now) && source is None ==> r
                == Err::<(), BuildError>(BuildError::SourceUnavailable) && same_store(
                *old(self),
                *final(self),
            ),
            source matches Some(rows) ==> rebuild_blocked(old(self).last_build_time(), now) || ({
                &&& r is Ok
                &&& final(self).initialized()
                &&& final(self).words().to_set() == rows_words(rows.deep_view())
                &&& final(self).words().no_duplicates()
                &&& final(self).freq_model() == rows_freqs(rows.deep_view())
                &&& final(self).last_build_time() == Some(now)
            }),
    {
        match self.last_build {
            Some(t) => {
                if now < t {
                    return Ok(());
                }
                if now - t < REBUILD_INTERVAL_SECS {
                    return Ok(());
                }
            },
            None => {},
        }
        match source {
            None => Err(BuildError::SourceUnavailable),
            Some(rows) => {
                let mut store = FreqStore::new();
                let mut words: Vec<Vec<char>> = Vec::new();
                let n: usize = rows.len();
                let mut i: usize = 0;
                proof {
                    assert(rows.deep_view().take(0) =~= Seq::<Option<(Seq<char>, i64)>>::empty());
                    assert(words.deep_view() =~= Seq::<Seq<char>>::empty());
                }
                while i < n
                    invariant
                        n == rows@.len(),
                        i <= n,
                        words.deep_view() == rows_word_seq(rows.deep_view().take(i as int)),
                        store.model() == rows_freqs(rows.deep_view().take(i as int)),
                    decreases n - i,
                {
                    proof {
                        let t = rows.deep_view().take(i as int + 1);
                        assert(t.drop_last() =~= rows.deep_view().take(i as int));
                        assert(t.last() == rows.deep_view()[i as int]);
                    }
                    match &rows[i] {
                        Some(pair) => {
                            let wch = str_to_chars(pair.0.as_str());
                            if wch.len() > 0 {
                                let copy = crate::text::clone_chars(&wch);
                                let ghost prevw = words.deep_view();
                                let ghost wv = wch@;
                                words.push(copy);
                                store.insert(wch, pair.1);
                                proof {
                                    assert(rows.deep_view()[i as int] == rows@[
                                        i as int
                                    ].deep_view());
                                    assert(words.deep_view() =~~= prevw.push(wv));
                                }
                            } else {
                                // the trie cannot store an empty word, and no
                                // query could reach one; only its rank is kept
                                store.insert(wch, pair.1);
                                proof {
                                    assert(rows.deep_view()[i as int] == rows@[
                                        i as int
                                    ].deep_view());
                                }
                            }
                        },
                        None => {
                            proof {
                                assert(rows.deep_view()[i as int] == rows@[i as int].deep_view());
                            }
                        },
                    }
                    i = i + 1;
                }
                proof {
                    assert(rows.deep_view().take(n as int) =~= rows.deep_view());
                }
                // the builder drops a word whose whole path an earlier push
                // already laid down; pushing shortest first loses nothing
                let sorted = sort_words_by_len(&words);
                let mut builder = trie_builder_new();
                let m: usize = sorted.len();
                let mut k: usize = 0;
                proof {
                    assert(builder_pushes(builder) =~= sorted.deep_view().take(0));
                }
                while k < m
                    invariant
                        m == sorted@.len(),
                        k <= m,
                        sorted.deep_view() == len_sort(words.deep_view()),
                        builder_pushes(builder) == sorted.deep_view().take(k as int),
                    decreases m - k,
                {
                    trie_builder_push(&mut builder, &sorted[k]);
                    proof {
                        lemma_words_deep_view_index(&sorted, k as int);
                        assert(builder_pushes(builder) =~= sorted.deep_view().take(k as int + 1));
                    }
                    k = k + 1;
                }
                proof {
                    assert(sorted.deep_view().take(m as int) =~= sorted.deep_view());
                    assert(sorted.deep_view().len() == sorted@.len());
                    let wv = words.deep_view();
                    let sv = sorted.deep_view();
                    lemma_len_sort_props(wv, wv.len() as int);
                    lemma_rows_word_seq_nonempty(rows.deep_view());
                    assert forall|k: int| 0 <= k < sv.len() implies (#[trigger] sv[k]).len()
                        >= 1 by {
                        assert(sv.contains(sv[k]));
                        let j = choose|j: int| 0 <= j < wv.len() && wv[j] == sv[k];
                    }
                    lemma_stored_set_of_len_sorted(sv);
                    lemma_rows_word_seq_to_set(rows.deep_view());
                    assert forall|x: Seq<char>| #[trigger] wv.contains(x) implies (exists|j: int|
                        0 <= j < wv.len() && wv[j] == x) by {}
                    assert(sv.to_set() =~= wv.to_set());
                    assert(stored_set(builder_pushes(builder)) =~= rows_words(rows.deep_view()));
                }
                let built = trie_build(&builder);
                self.trie = Some(built);
                self.freqs = store;
                pc_clear(&mut self.cache);
                self.last_build = Some(now);
                Ok(())
            },
        }
    }

    /// Returns up to `limit` stored words having the prefix, most frequent
    /// first, consulting and feeding the prefix cache.  The result is a
    /// function of the stored vocabulary, the frequencies, the prefix and
    /// the limit alone, whatever the cache holds.
    pub fn find_words_by_prefix(&mut self, prefix: &str, limit: usize) -> (r: Vec<String>)
        requires
            prefix@.len() >= 1,
            old(self).wf(),
        ensures
            final(self).wf(),
            same_store(*old(self), *final(self)),
            r.deep_view() == query_spec(
                old(self).words(),
                old(self).freq_model(),
                prefix@,
                limit as int,
            ),
            r@.len() <= limit,
    {
        let key: String = prefix.to_owned();
        let cached = pc_get(&mut self.cache, &key);
        match cached {
            Some(pair) => {
                if limit <= pair.0 {
                    let mut out = clone_vec_strings(&pair.1);
                    proof {
                        assert(out.deep_view() =~= pair.1.deep_view());
                    }
                    let ghost before = out.deep_view();
                    out.truncate(limit);
                    proof {
                        if limit as int <= before.len() {
                            assert(out.deep_view() =~~= before.take(limit as int));
                        } else {
                            assert(out.deep_view() =~~= before);
                        }
                        assert(out.deep_view() == take_at_most(before, limit as int));
                        lemma_take_at_most_twice(
                            freq_sort(
                                old(self).freq_model(),
                                matches_of(old(self).words(), prefix@),
                            ),
                            limit as int,
                            pair.0 as int,
                        );
                        assert(out@.len() == out.deep_view().len());
                    }
                    return out;
                }
            },
            None => {},
        }
        let pch = str_to_chars(prefix);
        let raw = match &self.trie {
            Some(t) => trie_predictive(t, &pch),
            None => {
                let empty_raw: Vec<Vec<char>> = Vec::new();
                proof {
                    reveal(Seq::filter);
                    assert(empty_raw.deep_view() =~= matches_of(self.words(), prefix@));
                }
                empty_raw
            },
        };
        let ranked = rank_by_freq(&self.freqs, &raw);
        let mut limited = ranked;
        let ghost full = limited.deep_view();
        if limited.len() > limit {
            limited.truncate(limit);
            proof {
                assert(limited.deep_view() =~~= full.take(limit as int));
            }
        }
        proof {
            assert(limited.deep_view() == take_at_most(full, limit as int));
        }
        let out = words_to_vec_strings(&limited);
        let stored = clone_vec_strings(&out);
        proof {
            assert(stored.deep_view() =~= out.deep_view());
        }
        pc_put(&mut self.cache, key, limit, stored);
        proof {
            assert(out@.len() == out.deep_view().len());
        }
        out
    }
}

/// A word with its first character mapped to uppercase, the rest kept.
pub open spec fn capitalize_spec(w: Seq<char>) -> Seq<char> {
    if w.len() == 0 {
        w
    } else {
        upper_char_of(w[0]) + w.skip(1)
    }
}

/// Every word of the sequence capitalized.
pub open spec fn capitalize_all(s: Seq<Seq<char>>) -> Seq<Seq<char>> {
    s.map_values(|w: Seq<char>| capitalize_spec(w))
}

/// Everything a case-respecting query returns: the query runs on the
/// lowercased prefix, and when the typed prefix opened with an uppercase
/// character, each result is capitalized.
pub open spec fn respecting_case_spec(
    words: Seq<Seq<char>>,
    m: Map<Seq<char>, int>,
    p: Seq<char>,
    limit: int,
) -> Seq<Seq<char>> {
    let base = query_spec(words, m, lower_of(p), limit);
    if p.len() > 0 && is_upper_char(p[0]) {
        capitalize_all(base)
    } else {
        base
    }
}

impl TrieIndex {
    /// Queries on the lowercased prefix; when the typed prefix opened with
    /// an uppercase character, the first character of every result is
    /// capitalized and the rest is left unchanged.
    pub fn find_words_respecting_case(&mut self, prefix: &str, limit: usize) -> (r: Vec<String>)
        requires
            prefix@.len() >= 1,
            old(self).wf(),
        ensures
            final(self).wf(),
            same_store(*old(self), *final(self)),
            r.deep_view() == respecting_case_spec(
                old(self).words(),
                old(self).freq_model(),
                prefix@,
                limit as int,
            ),
            r@.len() <= limit,
    {
        let lowered = lowercase_str(prefix);
        let results = self.find_words_by_prefix(lowered.as_str(), limit);
        let first: char = prefix.get_char(0);
        if uppercase_test_char(first) {
            let ghost base = results.deep_view();
            let n: usize = results.len();
            let mut out: Vec<String> = Vec::new();
            let mut i: usize = 0;
            while i < n
                invariant
                    n == results@.len(),
                    i <= n,
                    base == results.deep_view(),
                    out.deep_view() == capitalize_all(base).take(i as int),
                decreases n - i,
            {
                let wch = str_to_chars(results[i].as_str());
                let cap = capitalize_chars(&wch);
                let s = crate::text::chars_to_string(&cap);
                let ghost prev = out.deep_view();
                let ghost sv = s@;
                out.push(s);
                proof {
                    assert(results@[i as int].deep_view() == results@[i as int]@);
                    assert(sv == capitalize_spec(base[i as int]));
                    assert(out.deep_view() =~~= prev.push(sv));
                    assert(out.deep_view() =~= capitalize_all(base).take(i as int + 1));
                }
                i = i + 1;
            }
            proof {
                assert(out.deep_view() =~= capitalize_all(base));
                assert(out@.len() == out.deep_view().len());
                assert(capitalize_all(base).len() == base.len());
            }
            out
        } else {
            results
        }
    }
}

/// Case respecting: two prefixes that are the same word up to the case of
/// typing, one opening uppercase and one not, return the same results, the
/// uppercase query's being capitalized copies of the other's.
pub proof fn law_case_respecting(
    words: Seq<Seq<char>>,
    m: Map<Seq<char>, int>,
    p: Seq<char>,
    q: Seq<char>,
    limit: int,
)
    requires
        lower_of(p) == lower_of(q),
        p.len() > 0,
        q.len() > 0,
        is_upper_char(p[0]),
        !is_upper_char(q[0]),
    ensures
        respecting_case_spec(words, m, p, limit) == capitalize_all(
            respecting_case_spec(words, m, q, limit),
        ),
{
}

/// The unique store-ranked words among the first `i` candidates, in first
/// appearance order.
pub open spec fn member_dedup_upto(
    m: Map<Seq<char>, int>,
    cands: Seq<Seq<char>>,
    i: int,
) -> Seq<Seq<char>>
    decreases i,
{
    if i <= 0 {
        Seq::empty()
    } else {
        let prev = member_dedup_upto(m, cands, i - 1);
        let w = cands[i - 1];
        if m.contains_key(w) && !prev.contains(w) {
            prev.push(w)
        } else {
            prev
        }
    }
}

/// Everything the fallback ranking returns: the distinct candidates the
/// store knows, most frequent first, truncated to `k`.
pub open spec fn fallback_filter(
    m: Map<Seq<char>, int>,
    cands: Seq<Seq<char>>,
    k: int,
) -> Seq<Seq<char>> {
    take_at_most(freq_sort(m, member_dedup_upto(m, cands, cands.len() as int)), k)
}

impl TrieIndex {
    /// Given a bounded candidate list, returns the top `k` most frequent
    /// members of it that the frequency store knows, each once.
    pub fn top_ranked_members(&self, candidates: &Vec<String>, k: usize) -> (r: Vec<String>)
        ensures
            r.deep_view() == fallback_filter(self.freq_model(), candidates.deep_view(), k as int),
            r@.len() <= k,
    {
        let n: usize = candidates.len();
        let mut words: Vec<Vec<char>> = Vec::new();
        let mut i: usize = 0;
        proof {
            assert(candidates.deep_view().len() == candidates@.len());
        }
        while i < n
            invariant
                n == candidates@.len(),
                i <= n,
                words.deep_view() == member_dedup_upto(
                    self.freq_model(),
                    candidates.deep_view(),
                    i as int,
                ),
            decreases n - i,
        {
            let wch = str_to_chars(candidates[i].as_str());
            proof {
                assert(candidates.deep_view()[i as int] == candidates@[i as int]@);
            }
            let known = self.freqs.contains(&wch);
            let fresh = !crate::text::contains_word(&words, &wch);
            if known && fresh {
                let ghost prev = words.deep_view();
                let ghost wv = wch@;
                words.push(wch);
                proof {
                    assert(words.deep_view() =~~= prev.push(wv));
                }
            }
            i = i + 1;
        }
        let ranked = rank_by_freq(&self.freqs, &words);
        let mut limited = ranked;
        let ghost full = limited.deep_view();
        if limited.len() > k {
            limited.truncate(k);
            proof {
                assert(limited.deep_view() =~~= full.take(k as int));
            }
        }
        proof {
            assert(limited.deep_view() == take_at_most(full, k as int));
        }
        let out = words_to_vec_strings(&limited);
        proof {
            assert(out@.len() == out.deep_view().len());
        }
        out
    }
}

/// Builds a word with its first character uppercased.
fn capitalize_chars(w: &Vec<char>) -> (r: Vec<char>)
    ensures
        r@ == capitalize_spec(w@),
{
    if w.len() == 0 {
        let r: Vec<char> = Vec::new();
        proof {
            assert(r@ =~= capitalize_spec(w@));
        }
        return r;
    }
    let mut r = uppercase_char(w[0]);
    let n: usize = w.len();
    let mut i: usize = 1;
    while i < n
        invariant
            n == w@.len(),
            n >= 1,
            1 <= i <= n,
            r@ == upper_char_of(w@[0]) + w@.subrange(1, i as int),
        decreases n - i,
    {
        r.push(w[i]);
        proof {
            assert(r@ =~= upper_char_of(w@[0]) + w@.subrange(1, i as int + 1));
        }
        i = i + 1;
    }
    proof {
        assert(r@ =~= capitalize_spec(w@));
    }
    r
}

/// Copies a vector of words.
fn clone_vec_strings(v: &Vec<String>) -> (r: Vec<String>)
    ensures
        r@ == v@,
{
    let n: usize = v.len();
    let mut r: Vec<String> = Vec::new();
    let mut i: usize = 0;
    while i < n
        invariant
            n == v@.len(),
            i <= n,
            r@ == v@.take(i as int),
        decreases n - i,
    {
        r.push(v[i].clone());
        proof {
            assert(r@ =~= v@.take(i as int + 1));
        }
        i = i + 1;
    }
    proof {
        assert(r@ =~= v@);
    }
    r
}

/// Turns character vectors into owned strings, word for word.
fn words_to_vec_strings(v: &Vec<Vec<char>>) -> (r: Vec<String>)
    ensures
        r.deep_view() == v.deep_view(),
{
    let n: usize = v.len();
    let mut r: Vec<String> = Vec::new();
    let mut i: usize = 0;
    while i < n
        invariant
            n == v@.len(),
            i <= n,
            r.deep_view() == v.deep_view().take(i as int),
        decreases n - i,
    {
        let s = crate::text::chars_to_string(&v[i]);
        let ghost prev = r.deep_view();
        let ghost sv = s@;
        proof {
            lemma_words_deep_view_index(v, i as int);
        }
        r.push(s);
        proof {
            assert(r.deep_view() =~~= prev.push(sv));
            assert(r.deep_view() =~= v.deep_view().take(i as int + 1));
        }
        i = i + 1;
    }
    proof {
        assert(r.deep_view() =~= v.deep_view());
    }
    r
}

} // verus!
