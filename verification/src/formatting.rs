//! Rendering dictionary responses as Markdown, under configurable format
//! templates with `{word}`-style placeholders.

use vstd::prelude::*;
use crate::dictionary_data::{Definition, DictionaryResponse, Meaning};
use crate::text::{chars_to_string, str_to_chars};

verus! {

/// Left-to-right, non-overlapping replacement of every occurrence of `pat`
/// in `s` by `sub`; what was substituted in is not rescanned.
pub open spec fn replace_spec(s: Seq<char>, pat: Seq<char>, sub: Seq<char>) -> Seq<char>
    decreases s.len(),
{
    if pat.len() == 0 || s.len() < pat.len() {
        s
    } else if s.take(pat.len() as int) == pat {
        sub + replace_spec(s.skip(pat.len() as int), pat, sub)
    } else {
        seq![s[0]] + replace_spec(s.skip(1), pat, sub)
    }
}

/// The decimal digit character for `d`.
pub open spec fn dec_digit(d: int) -> char {
    ((48 + d) as u8) as char
}

/// The decimal notation of `n`.
pub open spec fn dec_str(n: int) -> Seq<char>
    decreases n,
{
    if n < 0 {
        Seq::empty()
    } else if n < 10 {
        seq![dec_digit(n)]
    } else {
        dec_str(n / 10).push(dec_digit(n % 10))
    }
}

/// The format templates, as contracts speak of them.
pub struct FormattingView {
    pub word_format: Seq<char>,
    pub part_of_speech_format: Seq<char>,
    pub definition_format: Seq<char>,
    pub example_format: Seq<char>,
    pub add_spacing: bool,
}

/// Configuration for markdown formatting styles: each template carries a
/// placeholder that the corresponding value replaces.
#[derive(Debug, Clone)]
pub struct FormattingConfig {
    /// Format for the word title, with `{word}`.
    pub word_format: String,
    /// Format for a part of speech, with `{part}`.
    pub part_of_speech_format: String,
    /// Format for a numbered definition, with `{num}` and `{definition}`.
    pub definition_format: String,
    /// Format for an example, with `{example}`.
    pub example_format: String,
    /// Whether to add extra spacing between parts of speech.
    pub add_spacing: bool,
}

impl View for FormattingConfig {
    type V = FormattingView;

    open spec fn view(&self) -> FormattingView {
        FormattingView {
            word_format: self.word_format@,
            part_of_speech_format: self.part_of_speech_format@,
            definition_format: self.definition_format@,
            example_format: self.example_format@,
            add_spacing: self.add_spacing,
        }
    }
}

/// The default templates.
pub open spec fn default_formatting() -> FormattingView {
    FormattingView {
        word_format: "**{word}**"@,
        part_of_speech_format: "_{part}_"@,
        definition_format: "{num}. {definition}"@,
        example_format: "   > Example: _{example}_"@,
        add_spacing: false,
    }
}

impl Default for FormattingConfig {
    /// The default styling.
    fn default() -> (r: FormattingConfig)
        ensures
            r@ == default_formatting(),
    {
        FormattingConfig {
            word_format: String::from_str("**{word}**"),
            part_of_speech_format: String::from_str("_{part}_"),
            definition_format: String::from_str("{num}. {definition}"),
            example_format: String::from_str("   > Example: _{example}_"),
            add_spacing: false,
        }
    }
}

/// The rendered block for an example, if any.
pub open spec fn example_block(cfg: FormattingView, d: Definition) -> Seq<char> {
    match d.example {
        Some(e) => replace_spec(cfg.example_format, "{example}"@, e@) + seq!['\n'],
        None => Seq::empty(),
    }
}

/// The rendered block for the `i`-th definition (numbered from 1).
pub open spec fn def_block(cfg: FormattingView, i: int, d: Definition) -> Seq<char> {
    replace_spec(
        replace_spec(cfg.definition_format, "{num}"@, dec_str(i + 1)),
        "{definition}"@,
        d.definition@,
    ) + seq!['\n'] + example_block(cfg, d)
}

/// The rendered blocks of the first `i` definitions.
pub open spec fn defs_upto(cfg: FormattingView, defs: Seq<Definition>, i: int) -> Seq<char>
    decreases i,
{
    if i <= 0 {
        Seq::empty()
    } else {
        defs_upto(cfg, defs, i - 1) + def_block(cfg, i - 1, defs[i - 1])
    }
}

/// The rendered block for one meaning.
pub open spec fn meaning_block(cfg: FormattingView, m: Meaning) -> Seq<char> {
    (if cfg.add_spacing {
        seq!['\n']
    } else {
        Seq::empty()
    }) + replace_spec(cfg.part_of_speech_format, "{part}"@, m.part_of_speech@) + seq!['\n']
        + defs_upto(cfg, m.definitions@, m.definitions@.len() as int)
}

/// The rendered blocks of the first `i` meanings.
pub open spec fn meanings_upto(cfg: FormattingView, ms: Seq<Meaning>, i: int) -> Seq<char>
    decreases i,
{
    if i <= 0 {
        Seq::empty()
    } else {
        meanings_upto(cfg, ms, i - 1) + meaning_block(cfg, ms[i - 1])
    }
}

/// The whole rendered Markdown document for one response.
pub open spec fn markdown_spec(
    word: Seq<char>,
    resp: DictionaryResponse,
    cfg: FormattingView,
) -> Seq<char> {
    replace_spec(cfg.word_format, "{word}"@, word) + seq!['\n'] + meanings_upto(
        cfg,
        resp.meanings@,
        resp.meanings@.len() as int,
    )
}

/// Whether `pat` occurs in `s` at position `i`.
fn window_eq(s: &Vec<char>, i: usize, pat: &Vec<char>) -> (r: bool)
    requires
        i + pat@.len() <= s@.len(),
    ensures
        r <==> s@.subrange(i as int, i as int + pat@.len() as int) == pat@,
{
    let m: usize = pat.len();
    let nn: usize = s.len();
    let mut j: usize = 0;
    while j < m
        invariant
            m == pat@.len(),
            nn == s@.len(),
            i + m <= nn,
            j <= m,
            forall|q: int| 0 <= q < j ==> s@[i + q] == pat@[q],
        decreases m - j,
    {
        if s[i + j] != pat[j] {
            proof {
                assert(s@.subrange(i as int, i as int + m as int)[j as int] != pat@[j as int]);
            }
            return false;
        }
        j = j + 1;
    }
    proof {
        assert(s@.subrange(i as int, i as int + m as int) =~= pat@);
    }
    true
}

/// Appends all of `add` to `out`.
fn append_chars(out: &mut Vec<char>, add: &Vec<char>)
    ensures
        final(out)@ == old(out)@ + add@,
{
    let m: usize = add.len();
    let mut j: usize = 0;
    while j < m
        invariant
            m == add@.len(),
            j <= m,
            out@ == old(out)@ + add@.take(j as int),
        decreases m - j,
    {
        out.push(add[j]);
        proof {
            assert(out@ =~= old(out)@ + add@.take(j as int + 1));
        }
        j = j + 1;
    }
    proof {
        assert(out@ =~= old(out)@ + add@);
    }
}

/// Replaces every occurrence of `pat` in `s` by `sub`, left to right.
fn replace_chars(s: &Vec<char>, pat: &Vec<char>, sub: &Vec<char>) -> (r: Vec<char>)
    requires
        pat@.len() >= 1,
    ensures
        r@ == replace_spec(s@, pat@, sub@),
{
    let n: usize = s.len();
    let m: usize = pat.len();
    let mut out: Vec<char> = Vec::new();
    let mut i: usize = 0;
    proof {
        assert(s@.skip(0) =~= s@);
    }
    while i < n
        invariant
            n == s@.len(),
            m == pat@.len(),
            m >= 1,
            i <= n,
            replace_spec(s@, pat@, sub@) == out@ + replace_spec(s@.skip(i as int), pat@, sub@),
        decreases n - i,
    {
        let ghost tail = s@.skip(i as int);
        let mut matched = false;
        if m <= n - i {
            matched = window_eq(s, i, pat);
        }
        if matched {
            proof {
                assert(tail.take(m as int) =~= s@.subrange(i as int, i as int + m as int));
                assert(tail.skip(m as int) =~= s@.skip(i as int + m as int));
                assert(replace_spec(tail, pat@, sub@) == sub@ + replace_spec(
                    s@.skip(i as int + m as int),
                    pat@,
                    sub@,
                ));
            }
            append_chars(&mut out, sub);
            i = i + m;
        } else {
            proof {
                if i + m <= n {
                    assert(tail.take(m as int) =~= s@.subrange(i as int, i as int + m as int));
                    assert(tail.take(m as int) != pat@);
                }
                assert(tail.skip(1) =~= s@.skip(i as int + 1));
                if tail.len() >= m {
                    assert(replace_spec(tail, pat@, sub@) == seq![s@[i as int]] + replace_spec(
                        s@.skip(i as int + 1),
                        pat@,
                        sub@,
                    ));
                } else {
                    assert(replace_spec(tail, pat@, sub@) == tail);
                    assert(replace_spec(s@.skip(i as int + 1), pat@, sub@) == s@.skip(
                        i as int + 1,
                    ));
                    assert(tail =~= seq![s@[i as int]] + s@.skip(i as int + 1));
                }
            }
            out.push(s[i]);
            proof {
                assert(out@ =~= (out@.drop_last() + seq![s@[i as int]]));
            }
            i = i + 1;
        }
    }
    proof {
        assert(s@.skip(n as int) =~= Seq::<char>::empty());
        assert(replace_spec(s@.skip(n as int), pat@, sub@) == s@.skip(n as int));
        assert(out@ =~= out@ + Seq::<char>::empty());
    }
    out
}

/// The decimal notation of `n`.
fn usize_to_chars(n: usize) -> (r: Vec<char>)
    ensures
        r@ == dec_str(n as int),
    decreases n,
{
    if n < 10 {
        let mut r: Vec<char> = Vec::new();
        r.push((48u8 + n as u8) as char);
        proof {
            assert(r@ =~= seq![dec_digit(n as int)]);
        }
        r
    } else {
        let mut r = usize_to_chars(n / 10);
        r.push((48u8 + (n % 10) as u8) as char);
        r
    }
}

/// Formats a dictionary response as Markdown text with custom styling.
pub fn format_definition_as_markdown_with_config(
    word: &str,
    response: &DictionaryResponse,
    config: &FormattingConfig,
) -> (r: String)
    ensures
        r@ == markdown_spec(word@, *response, config@),
{
    proof {
        reveal_strlit("{word}");
        reveal_strlit("{part}");
        reveal_strlit("{num}");
        reveal_strlit("{definition}");
        reveal_strlit("{example}");
    }
    let word_pat = str_to_chars("{word}");
    let part_pat = str_to_chars("{part}");
    let num_pat = str_to_chars("{num}");
    let def_pat = str_to_chars("{definition}");
    let ex_pat = str_to_chars("{example}");
    let wtpl = str_to_chars(config.word_format.as_str());
    let wval = str_to_chars(word);
    let mut out = replace_chars(&wtpl, &word_pat, &wval);
    out.push('\n');
    let ghost head = replace_spec(config@.word_format, "{word}"@, word@) + seq!['\n'];
    proof {
        assert(out@ =~= head);
    }
    let ghost ms = response.meanings@;
    let mcount: usize = response.meanings.len();
    let mut mi: usize = 0;
    while mi < mcount
        invariant
            mcount == response.meanings@.len(),
            ms == response.meanings@,
            head == replace_spec(config@.word_format, "{word}"@, word@) + seq!['\n'],
            mi <= mcount,
            word_pat@ == "{word}"@,
            part_pat@ == "{part}"@,
            num_pat@ == "{num}"@,
            def_pat@ == "{definition}"@,
            ex_pat@ == "{example}"@,
            "{part}"@.len() >= 1,
            "{num}"@.len() >= 1,
            "{definition}"@.len() >= 1,
            "{example}"@.len() >= 1,
            out@ == head + meanings_upto(config@, ms, mi as int),
        decreases mcount - mi,
    {
        let ghost before_meaning = out@;
        if config.add_spacing {
            out.push('\n');
        }
        let ptpl = str_to_chars(config.part_of_speech_format.as_str());
        let pval = str_to_chars(response.meanings[mi].part_of_speech.as_str());
        let pblock = replace_chars(&ptpl, &part_pat, &pval);
        append_chars(&mut out, &pblock);
        out.push('\n');
        let ghost meaning_head = before_meaning + (if config@.add_spacing {
            seq!['\n']
        } else {
            Seq::<char>::empty()
        }) + replace_spec(config@.part_of_speech_format, "{part}"@, ms[mi as int].part_of_speech@)
            + seq!['\n'];
        proof {
            assert(out@ =~= meaning_head);
        }
        let ghost defs = ms[mi as int].definitions@;
        let dcount: usize = response.meanings[mi].definitions.len();
        let mut di: usize = 0;
        while di < dcount
            invariant
                mi < response.meanings@.len(),
                ms == response.meanings@,
                dcount == ms[mi as int].definitions@.len(),
                defs == ms[mi as int].definitions@,
                di <= dcount,
                num_pat@ == "{num}"@,
                def_pat@ == "{definition}"@,
                ex_pat@ == "{example}"@,
                "{num}"@.len() >= 1,
                "{definition}"@.len() >= 1,
                "{example}"@.len() >= 1,
                out@ == meaning_head + defs_upto(config@, defs, di as int),
            decreases dcount - di,
        {
            let dtpl = str_to_chars(config.definition_format.as_str());
            let num = usize_to_chars(di + 1);
            let t1 = replace_chars(&dtpl, &num_pat, &num);
            let dval = str_to_chars(response.meanings[mi].definitions[di].definition.as_str());
            let t2 = replace_chars(&t1, &def_pat, &dval);
            append_chars(&mut out, &t2);
            out.push('\n');
            match &response.meanings[mi].definitions[di].example {
                Some(e) => {
                    let etpl = str_to_chars(config.example_format.as_str());
                    let eval_chars = str_to_chars(e.as_str());
                    let eblock = replace_chars(&etpl, &ex_pat, &eval_chars);
                    append_chars(&mut out, &eblock);
                    out.push('\n');
                },
                None => {},
            }
            proof {
                assert(out@ =~= meaning_head + defs_upto(config@, defs, di as int + 1));
            }
            di = di + 1;
        }
        proof {
            assert(out@ =~= head + meanings_upto(config@, ms, mi as int + 1));
        }
        mi = mi + 1;
    }
    proof {
        assert(out@ =~= markdown_spec(word@, *response, config@));
    }
    chars_to_string(&out)
}

/// Formats a dictionary response as Markdown text using default styling.
pub fn format_definition_as_markdown(word: &str, response: &DictionaryResponse) -> (r: String)
    ensures
        r@ == markdown_spec(word@, *response, default_formatting()),
{
    let config = FormattingConfig::default();
    format_definition_as_markdown_with_config(word, response, &config)
}

} // verus!
