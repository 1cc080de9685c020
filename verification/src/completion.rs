//! Extracting the word being typed at a cursor position, for the completion
//! handler: plain alphabetic words, and the English run a user types
//! directly after CJK text without an intervening space.

use vstd::prelude::*;
use crate::dictionary_data::{is_cjk, is_cjk_char, nth_line};
use crate::text::{alphabetic_char, is_alpha_char};

verus! {

/// The scan state over the first `i` characters: whether CJK text has been
/// seen, and where the English run after the last CJK character starts.
pub open spec fn scan_ec(text: Seq<char>, i: int) -> (bool, Option<int>)
    decreases i,
{
    if i <= 0 {
        (false, None)
    } else {
        let prev = scan_ec(text, i - 1);
        let c = text[i - 1];
        if is_cjk(c) {
            (true, None)
        } else if prev.0 && is_alpha_char(c) && prev.1 is None {
            (prev.0, Some(i - 1))
        } else {
            prev
        }
    }
}

/// Whether every character of the sequence is alphabetic.
pub open spec fn all_alpha(s: Seq<char>) -> bool {
    forall|j: int| 0 <= j < s.len() ==> is_alpha_char(#[trigger] s[j])
}

/// The English run typed directly after CJK text, with its starting
/// position, if the whole run is alphabetic.
pub open spec fn english_after_chinese_spec(text: Seq<char>) -> Option<(Seq<char>, int)> {
    match scan_ec(text, text.len() as int).1 {
        Some(st) => {
            let part = text.skip(st);
            if part.len() > 0 && all_alpha(part) {
                Some((part, st))
            } else {
                None
            }
        },
        None => None,
    }
}

/// Start of the purely alphabetic run ending at `i`.
pub open spec fn alpha_scan_back(l: Seq<char>, i: int) -> int
    decreases i,
{
    if i <= 0 {
        0
    } else if is_alpha_char(l[i - 1]) {
        alpha_scan_back(l, i - 1)
    } else {
        i
    }
}

/// The alphabetic word ending at the cursor, with its starting position.
pub open spec fn alphabetic_word_spec(before: Seq<char>) -> Option<(Seq<char>, int)> {
    let start = alpha_scan_back(before, before.len() as int);
    let word = before.skip(start);
    if word.len() == 0 {
        None
    } else {
        Some((word, start))
    }
}

/// Everything `get_current_word_and_start` returns: the word being typed
/// before the cursor on the given line, and where it starts.
pub open spec fn current_word_spec(content: Seq<char>, line: int, char_pos: int) -> Option<
    (Seq<char>, int),
> {
    match nth_line(content, line) {
        None => None,
        Some(l) => {
            if char_pos > l.len() || char_pos < 0 {
                None
            } else {
                let before = l.take(char_pos);
                match english_after_chinese_spec(before) {
                    Some(p) => Some(p),
                    None => {
                        if before.len() > 0 && is_cjk(before.last()) {
                            None
                        } else {
                            alphabetic_word_spec(before)
                        }
                    },
                }
            }
        },
    }
}

/// Extracts the English run typed directly after CJK text, if any.
pub fn extract_english_after_chinese(text: &Vec<char>) -> (r: Option<(String, u32)>)
    requires
        text@.len() <= u32::MAX,
    ensures
        match r {
            Some(p) => english_after_chinese_spec(text@) == Some((p.0@, p.1 as int)),
            None => english_after_chinese_spec(text@) is None,
        },
{
    let n: usize = text.len();
    let mut has_chinese = false;
    let mut english_start: Option<usize> = None;
    let mut i: usize = 0;
    while i < n
        invariant
            n == text@.len(),
            i <= n,
            scan_ec(text@, i as int) == (
                has_chinese,
                match english_start {
                    Some(s) => Some(s as int),
                    None => None,
                },
            ),
            english_start matches Some(s) ==> s < i,
        decreases n - i,
    {
        let c = text[i];
        if is_cjk_char(c) {
            has_chinese = true;
            english_start = None;
        } else {
            let alpha = alphabetic_char(c);
            if has_chinese && alpha && english_start.is_none() {
                english_start = Some(i);
            }
        }
        i = i + 1;
    }
    let st: usize = match english_start {
        Some(s) => s,
        None => {
            return None;
        },
    };
    // check that the run from the start is wholly alphabetic
    let mut j: usize = st;
    while j < n
        invariant
            n == text@.len(),
            st <= j <= n,
            scan_ec(text@, n as int).1 == Some(st as int),
            forall|k: int| st <= k < j ==> is_alpha_char(#[trigger] text@[k]),
        decreases n - j,
    {
        let alpha = alphabetic_char(text[j]);
        if !alpha {
            proof {
                assert(!all_alpha(text@.skip(st as int))) by {
                    assert(text@.skip(st as int)[j - st] == text@[j as int]);
                }
            }
            return None;
        }
        j = j + 1;
    }
    let mut part: Vec<char> = Vec::new();
    let mut k: usize = st;
    while k < n
        invariant
            n == text@.len(),
            st <= k <= n,
            part@ == text@.subrange(st as int, k as int),
        decreases n - k,
    {
        part.push(text[k]);
        proof {
            assert(part@ =~= text@.subrange(st as int, k as int + 1));
        }
        k = k + 1;
    }
    if part.len() == 0 {
        return None;
    }
    proof {
        assert(part@ =~= text@.skip(st as int));
        assert(all_alpha(text@.skip(st as int))) by {
            assert forall|q: int| 0 <= q < text@.skip(st as int).len() implies is_alpha_char(
                #[trigger] text@.skip(st as int)[q],
            ) by {
                assert(text@.skip(st as int)[q] == text@[q + st]);
            }
        }
    }
    Some((crate::text::chars_to_string(&part), st as u32))
}

/// Extracts the alphabetic word directly before the cursor, if any.
pub fn extract_alphabetic_word_before_cursor(before: &Vec<char>) -> (r: Option<(String, u32)>)
    requires
        before@.len() <= u32::MAX,
    ensures
        match r {
            Some(p) => alphabetic_word_spec(before@) == Some((p.0@, p.1 as int)),
            None => alphabetic_word_spec(before@) is None,
        },
{
    let n: usize = before.len();
    let start = alpha_scan_back_exec(before, n);
    if start == n {
        proof {
            assert(before@.skip(start as int).len() == 0);
        }
        return None;
    }
    let mut word: Vec<char> = Vec::new();
    let mut k: usize = start;
    while k < n
        invariant
            n == before@.len(),
            start <= k <= n,
            word@ == before@.subrange(start as int, k as int),
        decreases n - k,
    {
        word.push(before[k]);
        proof {
            assert(word@ =~= before@.subrange(start as int, k as int + 1));
        }
        k = k + 1;
    }
    proof {
        assert(word@ =~= before@.skip(start as int));
    }
    Some((crate::text::chars_to_string(&word), start as u32))
}

/// Scans left from the cursor over alphabetic characters.
fn alpha_scan_back_exec(l: &Vec<char>, pos: usize) -> (start: usize)
    requires
        pos <= l@.len(),
    ensures
        start as int == alpha_scan_back(l@, pos as int),
        start <= pos,
{
    let mut start: usize = pos;
    while start > 0
        invariant
            start <= pos <= l@.len(),
            alpha_scan_back(l@, pos as int) == alpha_scan_back(l@, start as int),
        decreases start,
    {
        let alpha = alphabetic_char(l[start - 1]);
        if alpha {
            start = start - 1;
        } else {
            return start;
        }
    }
    start
}

/// Extracts the word being typed before the cursor: first the English run
/// typed after CJK text, else — unless the cursor sits on CJK text — the
/// alphabetic word ending at the cursor.  Returns the word and the
/// character position it starts at.
pub fn get_current_word_and_start(content: &str, line: u32, character: u32) -> (r: Option<
    (String, u32),
>)
    requires
        content@.len() < usize::MAX,
    ensures
        match r {
            Some(p) => current_word_spec(content@, line as int, character as int) == Some(
                (p.0@, p.1 as int),
            ),
            None => current_word_spec(content@, line as int, character as int) is None,
        },
{
    let cv = crate::text::str_to_chars(content);
    let l = match crate::dictionary_data::nth_line_vec(&cv, line) {
        Some(l) => l,
        None => {
            return None;
        },
    };
    let pos: usize = character as usize;
    if pos > l.len() {
        return None;
    }
    let mut before: Vec<char> = Vec::new();
    let mut i: usize = 0;
    while i < pos
        invariant
            pos <= l@.len(),
            i <= pos,
            before@ == l@.subrange(0, i as int),
        decreases pos - i,
    {
        before.push(l[i]);
        proof {
            assert(before@ =~= l@.subrange(0, i as int + 1));
        }
        i = i + 1;
    }
    proof {
        assert(before@ =~= l@.take(pos as int));
    }
    match extract_english_after_chinese(&before) {
        Some(p) => Some(p),
        None => {
            if before.len() > 0 {
                let last = before[before.len() - 1];
                if is_cjk_char(last) {
                    return None;
                }
            }
            extract_alphabetic_word_before_cursor(&before)
        },
    }
}

} // verus!
