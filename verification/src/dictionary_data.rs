//! Dictionary data shapes and the text scanning shared by the lookup
//! handlers: CJK classification and extracting the word under a cursor.

use vstd::prelude::*;
use crate::fuzzy::take_at_most;
use crate::text::{alphabetic_char, is_alpha_char, lower_of, lowercase_str, starts_with_chars,
    str_to_chars};

verus! {

/// How many keys a single-character prefix may return from a JSON
/// dictionary.
pub const JSON_SINGLE_CHAR_LIMIT: usize = 100;

/// How many keys a longer prefix may return from a JSON dictionary.
pub const JSON_PREFIX_LIMIT: usize = 50;

/// The cap for one prefix query against a JSON dictionary's keys.
pub open spec fn json_match_cap(p: Seq<char>) -> int {
    if p.len() <= 1 {
        JSON_SINGLE_CHAR_LIMIT as int
    } else {
        JSON_PREFIX_LIMIT as int
    }
}

/// The dictionary keys the prefix matches case-insensitively, in key order,
/// capped.
pub open spec fn json_matches_spec(keys: Seq<Seq<char>>, p: Seq<char>) -> Seq<Seq<char>> {
    take_at_most(
        keys.filter(|k: Seq<char>| lower_of(p).is_prefix_of(lower_of(k))),
        json_match_cap(p),
    )
}

/// Given a JSON dictionary's keys, returns those the prefix matches
/// case-insensitively, in key order, up to the cap.
pub fn json_prefix_matches(keys: &Vec<String>, prefix: &str) -> (r: Vec<String>)
    ensures
        r.deep_view() == json_matches_spec(keys.deep_view(), prefix@),
        r@.len() <= json_match_cap(prefix@),
{
    let lowered = lowercase_str(prefix);
    let lpch = str_to_chars(lowered.as_str());
    let cap: usize = if prefix.unicode_len() <= 1 {
        JSON_SINGLE_CHAR_LIMIT
    } else {
        JSON_PREFIX_LIMIT
    };
    let ghost pred = (|k: Seq<char>| lower_of(prefix@).is_prefix_of(lower_of(k)));
    let n: usize = keys.len();
    let mut out: Vec<String> = Vec::new();
    let mut i: usize = 0;
    proof {
        assert(keys.deep_view().take(0).filter(pred) =~= Seq::<Seq<char>>::empty());
        assert(out.deep_view() =~= Seq::<Seq<char>>::empty());
    }
    while i < n
        invariant
            n == keys@.len(),
            i <= n,
            cap as int == json_match_cap(prefix@),
            lpch@ == lower_of(prefix@),
            pred == (|k: Seq<char>| lower_of(prefix@).is_prefix_of(lower_of(k))),
            out.deep_view() == take_at_most(keys.deep_view().take(i as int).filter(pred), cap as int),
            out.deep_view().len() <= cap as int,
        decreases n - i,
    {
        let ghost fprev = keys.deep_view().take(i as int).filter(pred);
        proof {
            let t = keys.deep_view().take(i as int + 1);
            assert(t.drop_last() =~= keys.deep_view().take(i as int));
            assert(t.last() == keys.deep_view()[i as int]);
            reveal(Seq::filter);
            assert(keys.deep_view()[i as int] == keys@[i as int]@);
        }
        let lk = lowercase_str(keys[i].as_str());
        let lkch = str_to_chars(lk.as_str());
        let keep = starts_with_chars(&lkch, &lpch);
        proof {
            assert(keep == pred(keys.deep_view()[i as int]));
        }
        if keep {
            if out.len() < cap {
                let ghost prev = out.deep_view();
                let kept = keys[i].clone();
                let ghost kv = kept@;
                out.push(kept);
                proof {
                    assert(out.deep_view() =~~= prev.push(kv));
                    assert(fprev.len() < cap as int);
                }
            } else {
                proof {
                    assert(fprev.len() >= cap as int);
                    assert(fprev.push(keys.deep_view()[i as int]).take(cap as int) =~= fprev.take(
                        cap as int,
                    ));
                }
            }
        }
        i = i + 1;
    }
    proof {
        assert(keys.deep_view().take(n as int) =~= keys.deep_view());
        assert(out@.len() == out.deep_view().len());
    }
    out
}

/// Whether the character is a CJK ideograph: used to treat runs of such
/// characters as their own word boundaries.
pub open spec fn is_cjk(c: char) -> bool {
    let u = c as u32;
    (0x4E00 <= u && u <= 0x9FFF)  // unified ideographs
    || (0x3400 <= u && u <= 0x4DBF)  // extension A
    || (0x20000 <= u && u <= 0x2A6DF)  // extension B
    || (0x2A700 <= u && u <= 0x2B73F)  // extension C
    || (0x2B740 <= u && u <= 0x2B81F)  // extension D
}

/// Determines if the character is a CJK (Chinese, Japanese, Korean)
/// character by checking the Unicode ranges for CJK ideographs.
pub fn is_cjk_char(c: char) -> (r: bool)
    ensures
        r == is_cjk(c),
{
    let u = c as u32;
    (u >= 0x4E00 && u <= 0x9FFF) || (u >= 0x3400 && u <= 0x4DBF) || (u >= 0x20000 && u <= 0x2A6DF)
        || (u >= 0x2A700 && u <= 0x2B73F) || (u >= 0x2B740 && u <= 0x2B81F)
}

/// One sense of a word.
#[derive(Debug, Clone)]
pub struct Definition {
    pub definition: String,
    pub example: Option<String>,
}

/// The senses a word has under one part of speech.
#[derive(Debug, Clone)]
pub struct Meaning {
    pub part_of_speech: String,
    pub definitions: Vec<Definition>,
}

/// A dictionary answer for one word.
#[derive(Debug, Clone)]
pub struct DictionaryResponse {
    pub word: String,
    pub meanings: Vec<Meaning>,
}

/// Everything `parse_dictionary_entry` returns: one meaning holding the
/// translation and, when distinct, the detail, under the given part of
/// speech or `"unknown"`.
pub open spec fn parsed_entry_ok(
    word: Seq<char>,
    translation: Option<String>,
    pos: Option<String>,
    detail: Option<String>,
    r: DictionaryResponse,
) -> bool {
    &&& r.word@ == word
    &&& r.meanings@.len() == 1
    &&& r.meanings@[0].part_of_speech@ == (match pos {
        Some(p) => p@,
        None => "unknown"@,
    })
    &&& r.meanings@[0].definitions@.map_values(|d: Definition| d.definition@) == (match (
        translation,
        detail,
    ) {
        (Some(t), Some(d)) => if d@ == t@ {
            seq![t@]
        } else {
            seq![t@, d@]
        },
        (Some(t), None) => seq![t@],
        (None, Some(d)) => seq![d@],
        (None, None) => Seq::empty(),
    })
    &&& forall|i: int|
        0 <= i < r.meanings@[0].definitions@.len() ==> r.meanings@[0].definitions@[i].example
            is None
}

/// Builds a dictionary response from the raw columns of one looked-up row:
/// the translation first, then the detail unless it repeats it.
pub fn parse_dictionary_entry(
    word: &str,
    translation: Option<String>,
    pos: Option<String>,
    detail: Option<String>,
) -> (r: DictionaryResponse)
    ensures
        parsed_entry_ok(word@, translation, pos, detail, r),
{
    let ghost gt = translation;
    let ghost gd = detail;
    let mut definitions: Vec<Definition> = Vec::new();
    let mut seen: Option<String> = None;
    match translation {
        Some(t) => {
            seen = Some(t.clone());
            definitions.push(Definition { definition: t, example: None });
        },
        None => {},
    }
    match detail {
        Some(d) => {
            let dup = match &seen {
                Some(t) => *t == d,
                None => false,
            };
            if !dup {
                definitions.push(Definition { definition: d, example: None });
            }
        },
        None => {},
    }
    let part_of_speech = match pos {
        Some(p) => p,
        None => String::from_str("unknown"),
    };
    let mut meanings_vec: Vec<Meaning> = Vec::new();
    meanings_vec.push(Meaning { part_of_speech, definitions });
    let r = DictionaryResponse { word: word.to_owned(), meanings: meanings_vec };
    proof {
        let mapped = r.meanings@[0].definitions@.map_values(|d: Definition| d.definition@);
        match (gt, gd) {
            (Some(t), Some(d)) => {
                if d@ == t@ {
                    assert(mapped =~= seq![t@]);
                } else {
                    assert(mapped =~= seq![t@, d@]);
                }
            },
            (Some(t), None) => {
                assert(mapped =~= seq![t@]);
            },
            (None, Some(d)) => {
                assert(mapped =~= seq![d@]);
            },
            (None, None) => {
                assert(mapped =~= Seq::<Seq<char>>::empty());
            },
        }
    }
    r
}

/// Index of the first newline at or after `from`, or the length.
pub open spec fn find_newline(s: Seq<char>, from: int) -> int
    decreases s.len() - from,
{
    if from >= s.len() {
        s.len() as int
    } else if s[from] == '\n' {
        from
    } else {
        find_newline(s, from + 1)
    }
}

/// A line with a trailing carriage return stripped.
pub open spec fn strip_cr(l: Seq<char>) -> Seq<char> {
    if l.len() > 0 && l.last() == '\r' {
        l.drop_last()
    } else {
        l
    }
}

/// The `n`-th line of the text from position `start` on, as `str::lines`
/// yields them: split at newlines, carriage returns stripped, no line after
/// a trailing newline.
pub open spec fn nth_line_from(s: Seq<char>, start: int, n: int) -> Option<Seq<char>>
    decreases n,
{
    if start >= s.len() || start < 0 || n < 0 {
        None
    } else {
        let e = find_newline(s, start);
        if n == 0 {
            Some(strip_cr(s.subrange(start, e)))
        } else {
            nth_line_from(s, e + 1, n - 1)
        }
    }
}

/// The `n`-th line of the text.
pub open spec fn nth_line(s: Seq<char>, n: int) -> Option<Seq<char>> {
    nth_line_from(s, 0, n)
}

/// Whether a character belongs to a word under the cursor.
pub open spec fn wordy(c: char) -> bool {
    is_alpha_char(c) || is_cjk(c)
}

/// Start of the word run ending at `i`: scans left over word characters.
pub open spec fn scan_back(l: Seq<char>, i: int) -> int
    decreases i,
{
    if i <= 0 {
        0
    } else if wordy(l[i - 1]) {
        scan_back(l, i - 1)
    } else {
        i
    }
}

/// End of the word run starting at `i`: scans right over word characters.
pub open spec fn scan_fwd(l: Seq<char>, i: int) -> int
    decreases l.len() - i,
{
    if i >= l.len() {
        i
    } else if wordy(l[i]) {
        scan_fwd(l, i + 1)
    } else {
        i
    }
}

/// The word under position `pos` of line `l`, if any.
pub open spec fn word_at(l: Seq<char>, pos: int) -> Option<Seq<char>> {
    if pos >= l.len() || pos < 0 {
        None
    } else {
        let start = scan_back(l, pos);
        let end = scan_fwd(l, pos);
        if start == end {
            None
        } else {
            Some(l.subrange(start, end))
        }
    }
}

/// Everything `extract_word_at_position` returns.
pub open spec fn word_at_position_spec(content: Seq<char>, line: int, character: int) -> Option<
    Seq<char>,
> {
    match nth_line(content, line) {
        Some(l) => word_at(l, character),
        None => None,
    }
}

/// Finds the `n`-th line of the text.
pub fn nth_line_vec(content: &Vec<char>, n: u32) -> (r: Option<Vec<char>>)
    requires
        content@.len() < usize::MAX,
    ensures
        match r {
            Some(l) => nth_line(content@, n as int) == Some(l@),
            None => nth_line(content@, n as int) is None,
        },
{
    let len: usize = content.len();
    let mut start: usize = 0;
    let mut k: u32 = n;
    while start < len
        invariant
            len == content@.len(),
            len < usize::MAX,
            start <= len + 1,
            nth_line(content@, n as int) == nth_line_from(content@, start as int, k as int),
        decreases len + 1 - start,
    {
        let mut e: usize = start;
        while e < len && content[e] != '\n'
            invariant
                len == content@.len(),
                start <= e <= len,
                find_newline(content@, start as int) == find_newline(content@, e as int),
            decreases len - e,
        {
            e = e + 1;
        }
        proof {
            assert(find_newline(content@, start as int) == e as int);
        }
        if k == 0 {
            let mut l: Vec<char> = Vec::new();
            let mut j: usize = start;
            while j < e
                invariant
                    len == content@.len(),
                    start <= j <= e <= len,
                    l@ == content@.subrange(start as int, j as int),
                decreases e - j,
            {
                l.push(content[j]);
                proof {
                    assert(l@ =~= content@.subrange(start as int, j as int + 1));
                }
                j = j + 1;
            }
            if l.len() > 0 && l[l.len() - 1] == '\r' {
                let _ = l.pop();
                proof {
                    assert(l@ =~= strip_cr(content@.subrange(start as int, e as int)));
                }
            }
            proof {
                assert(l@ == strip_cr(content@.subrange(start as int, e as int)));
            }
            return Some(l);
        }
        start = e + 1;
        k = k - 1;
    }
    None
}

/// Extracts the word at a given line and character position of the text:
/// the maximal run of alphabetic or CJK characters around the cursor.
pub fn extract_word_at_position(content: &str, line: u32, character: u32) -> (r: Option<String>)
    requires
        content@.len() < usize::MAX,
    ensures
        match r {
            Some(w) => word_at_position_spec(content@, line as int, character as int) == Some(w@),
            None => word_at_position_spec(content@, line as int, character as int) is None,
        },
{
    let cv = crate::text::str_to_chars(content);
    let l = match nth_line_vec(&cv, line) {
        Some(l) => l,
        None => {
            return None;
        },
    };
    let pos: usize = character as usize;
    if pos >= l.len() {
        return None;
    }
    let start = scan_back_exec(&l, pos);
    let end = scan_fwd_exec(&l, pos);
    if start == end {
        return None;
    }
    let mut word: Vec<char> = Vec::new();
    let mut j: usize = start;
    while j < end
        invariant
            start <= j <= end <= l@.len(),
            word@ == l@.subrange(start as int, j as int),
        decreases end - j,
    {
        word.push(l[j]);
        proof {
            assert(word@ =~= l@.subrange(start as int, j as int + 1));
        }
        j = j + 1;
    }
    Some(crate::text::chars_to_string(&word))
}

/// The edit distance between the first `i` characters of `a` and the first
/// `j` characters of `b`: insertions, deletions and substitutions, each
/// costing one.
pub open spec fn lev(a: Seq<char>, b: Seq<char>, i: int, j: int) -> int
    decreases i + j,
{
    if i <= 0 {
        if j <= 0 {
            0
        } else {
            j
        }
    } else if j <= 0 {
        i
    } else {
        let cost: int = if a[i - 1] == b[j - 1] {
            0
        } else {
            1
        };
        min3(lev(a, b, i - 1, j) + 1, lev(a, b, i, j - 1) + 1, lev(a, b, i - 1, j - 1) + cost)
    }
}

/// The least of three values.
pub open spec fn min3(x: int, y: int, z: int) -> int {
    if x <= y && x <= z {
        x
    } else if y <= z {
        y
    } else {
        z
    }
}

/// The edit distance never exceeds the two lengths together.
proof fn lemma_lev_bound(a: Seq<char>, b: Seq<char>, i: int, j: int)
    requires
        i >= 0,
        j >= 0,
    ensures
        0 <= lev(a, b, i, j) <= i + j,
    decreases i + j,
{
    if i > 0 && j > 0 {
        lemma_lev_bound(a, b, i - 1, j);
        lemma_lev_bound(a, b, i, j - 1);
        lemma_lev_bound(a, b, i - 1, j - 1);
    }
}

/// The least of three values, executable.
fn min3_exec(x: usize, y: usize, z: usize) -> (r: usize)
    ensures
        r as int == min3(x as int, y as int, z as int),
{
    if x <= y && x <= z {
        x
    } else if y <= z {
        y
    } else {
        z
    }
}

/// Calculates the Levenshtein distance between two strings, character by
/// character.
pub fn levenshtein_distance(s1: &str, s2: &str) -> (r: usize)
    requires
        s1@.len() + s2@.len() < usize::MAX,
    ensures
        r as int == lev(s1@, s2@, s1@.len() as int, s2@.len() as int),
{
    let a = crate::text::str_to_chars(s1);
    let b = crate::text::str_to_chars(s2);
    let len1: usize = a.len();
    let len2: usize = b.len();
    let mut matrix: Vec<Vec<usize>> = Vec::new();
    let mut first: Vec<usize> = Vec::new();
    let mut j0: usize = 0;
    while j0 <= len2
        invariant
            len2 == b@.len(),
            len2 < usize::MAX,
            j0 <= len2 + 1,
            first@.len() == j0,
            forall|q: int| 0 <= q < j0 ==> first@[q] as int == lev(a@, b@, 0, q),
        decreases len2 + 1 - j0,
    {
        first.push(j0);
        j0 = j0 + 1;
    }
    matrix.push(first);
    let mut i: usize = 1;
    while i <= len1
        invariant
            len1 == a@.len(),
            len2 == b@.len(),
            len1 + len2 < usize::MAX,
            1 <= i <= len1 + 1,
            matrix@.len() == i,
            forall|r: int| 0 <= r < i ==> #[trigger] matrix@[r]@.len() == len2 + 1,
            forall|r: int, q: int|
                0 <= r < i && 0 <= q <= len2 ==> #[trigger] matrix@[r]@[q] as int == lev(
                    a@,
                    b@,
                    r,
                    q,
                ),
        decreases len1 + 1 - i,
    {
        let mut row: Vec<usize> = Vec::new();
        row.push(i);
        proof {
            lemma_lev_bound(a@, b@, i as int, 0);
        }
        let mut j: usize = 1;
        while j <= len2
            invariant
                len1 == a@.len(),
                len2 == b@.len(),
                len1 + len2 < usize::MAX,
                1 <= i <= len1,
                1 <= j <= len2 + 1,
                matrix@.len() == i,
                forall|r: int| 0 <= r < i ==> #[trigger] matrix@[r]@.len() == len2 + 1,
                forall|r: int, q: int|
                    0 <= r < i && 0 <= q <= len2 ==> #[trigger] matrix@[r]@[q] as int == lev(
                        a@,
                        b@,
                        r,
                        q,
                    ),
                row@.len() == j,
                forall|q: int| 0 <= q < j ==> row@[q] as int == lev(a@, b@, i as int, q),
            decreases len2 + 1 - j,
        {
            let cost: usize = if a[i - 1] == b[j - 1] {
                0
            } else {
                1
            };
            proof {
                lemma_lev_bound(a@, b@, i as int - 1, j as int);
                lemma_lev_bound(a@, b@, i as int, j as int - 1);
                lemma_lev_bound(a@, b@, i as int - 1, j as int - 1);
            }
            let del = matrix[i - 1][j] + 1;
            let ins = row[j - 1] + 1;
            let sub = matrix[i - 1][j - 1] + cost;
            row.push(min3_exec(del, ins, sub));
            j = j + 1;
        }
        matrix.push(row);
        i = i + 1;
    }
    matrix[len1][len2]
}

/// Whether the character belongs to a word, executable.
fn is_wordy_exec(c: char) -> (r: bool)
    ensures
        r == wordy(c),
{
    alphabetic_char(c) || is_cjk_char(c)
}

/// Scans left from the cursor over word characters.
pub(crate) fn scan_back_exec(l: &Vec<char>, pos: usize) -> (start: usize)
    requires
        pos <= l@.len(),
    ensures
        start as int == scan_back(l@, pos as int),
        start <= pos,
{
    let mut start: usize = pos;
    while start > 0
        invariant
            start <= pos <= l@.len(),
            scan_back(l@, pos as int) == scan_back(l@, start as int),
        decreases start,
    {
        let c = l[start - 1];
        let w = is_wordy_exec(c);
        if w {
            start = start - 1;
        } else {
            return start;
        }
    }
    start
}

/// Scans right from the cursor over word characters.
pub(crate) fn scan_fwd_exec(l: &Vec<char>, pos: usize) -> (end: usize)
    requires
        pos <= l@.len(),
    ensures
        end as int == scan_fwd(l@, pos as int),
        pos <= end <= l@.len(),
{
    let n: usize = l.len();
    let mut end: usize = pos;
    while end < n
        invariant
            n == l@.len(),
            pos <= end <= n,
            scan_fwd(l@, pos as int) == scan_fwd(l@, end as int),
        decreases n - end,
    {
        let c = l[end];
        let w = is_wordy_exec(c);
        if w {
            end = end + 1;
        } else {
            return end;
        }
    }
    end
}

} // verus!
