//! Character-level primitives shared by the whole engine: conversions between
//! `String` and `Vec<char>`, comparisons over character sequences, and the
//! few Unicode classifications that only the standard library can compute.

use vstd::prelude::*;

verus! {

/// What `str::to_lowercase` returns, as a function of the characters alone.
pub uninterp spec fn lower_of(s: Seq<char>) -> Seq<char>;

/// What `char::to_uppercase` yields for one character, as a function of the
/// character alone.
pub uninterp spec fn upper_char_of(c: char) -> Seq<char>;

/// Whether `char::is_alphabetic` holds of the character.
pub uninterp spec fn is_alpha_char(c: char) -> bool;

/// Whether `char::is_uppercase` holds of the character.
pub uninterp spec fn is_upper_char(c: char) -> bool;

/// Relies on `str::to_lowercase`: full Unicode lowercasing, a function of the
/// characters alone; per its documentation the result is empty exactly when
/// the input is.
#[verifier::external_body]
pub fn lowercase_str(s: &str) -> (r: String)
    ensures
        r@ == lower_of(s@),
        s@.len() == 0 ==> r@.len() == 0,
        s@.len() > 0 ==> r@.len() > 0,
{
    s.to_lowercase()
}

/// Relies on `char::to_uppercase`: the Unicode uppercase mapping of one
/// character, a function of the character alone; per its documentation it
/// yields at least one character.
#[verifier::external_body]
pub fn uppercase_char(c: char) -> (r: Vec<char>)
    ensures
        r@ == upper_char_of(c),
        r@.len() >= 1,
{
    c.to_uppercase().collect()
}

/// Relies on `char::is_alphabetic`, a function of the character alone.
#[verifier::external_body]
pub fn alphabetic_char(c: char) -> (r: bool)
    ensures
        r == is_alpha_char(c),
{
    c.is_alphabetic()
}

/// Relies on `char::is_uppercase`, a function of the character alone.
#[verifier::external_body]
pub fn uppercase_test_char(c: char) -> (r: bool)
    ensures
        r == is_upper_char(c),
{
    c.is_uppercase()
}

/// Relies on `FromIterator<char> for String`: collecting characters
/// concatenates them in order.
#[verifier::external_body]
pub fn chars_to_string(v: &Vec<char>) -> (s: String)
    ensures
        s@ == v@,
{
    v.iter().collect()
}

/// Collects the characters of a string slice into a vector.
pub fn str_to_chars(s: &str) -> (r: Vec<char>)
    ensures
        r@ == s@,
{
    let n: usize = s.unicode_len();
    let mut r: Vec<char> = Vec::new();
    let mut i: usize = 0;
    while i < n
        invariant
            n == s@.len(),
            i <= n,
            r@ == s@.take(i as int),
        decreases n - i,
    {
        let c = s.get_char(i);
        r.push(c);
        i = i + 1;
        proof {
            assert(r@ =~= s@.take(i as int));
        }
    }
    proof {
        assert(r@ =~= s@);
    }
    r
}

/// Copies a character vector.
pub fn clone_chars(v: &Vec<char>) -> (r: Vec<char>)
    ensures
        r@ == v@,
{
    let n: usize = v.len();
    let mut r: Vec<char> = Vec::new();
    let mut i: usize = 0;
    while i < n
        invariant
            n == v@.len(),
            i <= n,
            r@ == v@.take(i as int),
        decreases n - i,
    {
        r.push(v[i]);
        i = i + 1;
        proof {
            assert(r@ =~= v@.take(i as int));
        }
    }
    proof {
        assert(r@ =~= v@);
    }
    r
}

/// Whether two character vectors hold the same characters.
pub fn chars_eq(a: &Vec<char>, b: &Vec<char>) -> (r: bool)
    ensures
        r <==> a@ == b@,
{
    if a.len() != b.len() {
        proof {
            assert(a@.len() != b@.len());
        }
        return false;
    }
    let n: usize = a.len();
    let mut i: usize = 0;
    while i < n
        invariant
            n == a@.len(),
            n == b@.len(),
            i <= n,
            forall|j: int| 0 <= j < i ==> a@[j] == b@[j],
        decreases n - i,
    {
        if a[i] != b[i] {
            return false;
        }
        i = i + 1;
    }
    proof {
        assert(a@ =~= b@);
    }
    true
}

/// Whether `p` is a prefix of `w`, character by character.
pub fn starts_with_chars(w: &Vec<char>, p: &Vec<char>) -> (r: bool)
    ensures
        r <==> p@.is_prefix_of(w@),
{
    if p.len() > w.len() {
        return false;
    }
    let n: usize = p.len();
    let mut i: usize = 0;
    while i < n
        invariant
            n == p@.len(),
            n <= w@.len(),
            i <= n,
            forall|j: int| 0 <= j < i ==> w@[j] == p@[j],
        decreases n - i,
    {
        if w[i] != p[i] {
            proof {
                assert(!p@.is_prefix_of(w@)) by {
                    assert(w@.take(n as int)[i as int] != p@[i as int]);
                }
            }
            return false;
        }
        i = i + 1;
    }
    proof {
        assert(p@ =~= w@.take(n as int));
    }
    true
}

/// Whether the vector already holds this word.
pub fn contains_word(v: &Vec<Vec<char>>, w: &Vec<char>) -> (r: bool)
    ensures
        r <==> v.deep_view().contains(w@),
{
    let n: usize = v.len();
    let mut i: usize = 0;
    while i < n
        invariant
            n == v@.len(),
            i <= n,
            forall|j: int| 0 <= j < i ==> v.deep_view()[j] != w@,
        decreases n - i,
    {
        let hit = chars_eq(&v[i], w);
        proof {
            assert(v.deep_view()[i as int] == v@[i as int]@);
        }
        if hit {
            return true;
        }
        i = i + 1;
    }
    proof {
        if v.deep_view().contains(w@) {
            let j = choose|j: int| 0 <= j < v.deep_view().len() && v.deep_view()[j] == w@;
            assert(v.deep_view()[j] != w@);
        }
    }
    false
}

} // verus!
