use vstd::prelude::*;

use crate::date::{valid_hms, valid_ymd, NaiveDate};
use crate::decimal::{all_digits, digits_value, is_digit, pow10, sub_vec};
use crate::models::ZhangString;
use crate::strings::{str_eq_chars, string_from_chars};
use crate::utils::quoted_text;

verus! {

/// What `snailquote::unescape` gives for a text: the text with its quoting and escapes
/// removed, or nothing when an escape is invalid.
pub uninterp spec fn snailquote_unescape(s: Seq<char>) -> Option<Seq<char>>;

/// `snailquote::unescape`. Its result depends on the text alone. Its source undoes every
/// escape that `quoted_text` writes (`\"`, `\\`, `\$`, `` \` ``, `\a \b \v \f \e`, `\t \r \n`
/// and `\u{..}`) and keeps every other character between the quotes, so that the text
/// `quoted_text(t)` gives back `t`; its own tests check the same of the crate's `escape`.
#[verifier::external_body]
fn unescape_quoted(s: &str) -> (r: Option<String>)
    ensures
        match r {
            Some(t) => snailquote_unescape(s@) == Some(t@),
            None => snailquote_unescape(s@) is None,
        },
        forall|t: Seq<char>| #[trigger] quoted_text(t) == s@ ==> r is Some && r.unwrap()@ == t,
{
    match snailquote::unescape(s) {
        Ok(t) => Some(t),
        Err(_) => None,
    }
}

/// A word of a line of a ledger file.
#[derive(Debug, Clone, PartialEq, Eq)]
pub struct Token {
    pub text: Vec<char>,
    pub quoted: bool,
}

/// Characters that separate words.
pub open spec fn is_blank(c: char) -> bool {
    c == ' ' || c == '\t' || c == '\r'
}

/// Characters that are words on their own.
pub open spec fn is_single(c: char) -> bool {
    c == '{' || c == '}' || c == ','
}

pub open spec fn is_word_char(c: char) -> bool {
    !is_blank(c) && !is_single(c) && c != '"'
}

/// A word: a quoted string with its quotes, a single separator character, or a run of
/// other characters.
pub open spec fn token_wf(t: Token) -> bool {
    &&& t.text@.len() > 0
    &&& if t.quoted {
        t.text@.len() >= 2 && t.text@[0] == '"' && t.text@.last() == '"'
    } else {
        (t.text@.len() == 1 && is_single(t.text@[0])) || forall|i: int|
            0 <= i < t.text@.len() ==> is_word_char(#[trigger] t.text@[i])
    }
}

fn is_blank_char(c: char) -> (r: bool)
    ensures
        r == is_blank(c),
{
    c == ' ' || c == '\t' || c == '\r'
}

fn is_single_char(c: char) -> (r: bool)
    ensures
        r == is_single(c),
{
    c == '{' || c == '}' || c == ','
}

/// Whether the line holds only blanks.
pub fn is_blank_line(line: &Vec<char>) -> (r: bool)
    ensures
        r == forall|i: int| 0 <= i < line@.len() ==> is_blank(#[trigger] line@[i]),
{
    let mut i: usize = 0;
    while i < line.len()
        invariant
            i <= line@.len(),
            forall|j: int| 0 <= j < i ==> is_blank(#[trigger] line@[j]),
        decreases line@.len() - i,
    {
        if !is_blank_char(line[i]) {
            return false;
        }
        i = i + 1;
    }
    true
}

/// A word as the grammar reads it: its text and whether it is quoted.
pub open spec fn tview(t: Token) -> (Seq<char>, bool) {
    (t.text@, t.quoted)
}

pub open spec fn tviews(ts: Seq<Token>) -> Seq<(Seq<char>, bool)> {
    ts.map_values(|t: Token| tview(t))
}

/// Where a quoted string that runs on from `j` closes: the first double quote from `j` on
/// that no backslash escapes; none when the line ends first.
pub open spec fn quote_close(line: Seq<char>, j: int) -> Option<int>
    decreases line.len() - j,
{
    if j < 0 || j >= line.len() {
        None
    } else if line[j] == '\\' {
        if j + 1 < line.len() {
            quote_close(line, j + 2)
        } else {
            None
        }
    } else if line[j] == '"' {
        Some(j)
    } else {
        quote_close(line, j + 1)
    }
}

/// Where a run of word characters from `j` ends.
pub open spec fn word_end(line: Seq<char>, j: int) -> int
    decreases line.len() - j,
{
    if 0 <= j < line.len() && is_word_char(line[j]) {
        word_end(line, j + 1)
    } else {
        j
    }
}

pub proof fn lemma_word_end(line: Seq<char>, j: int)
    requires
        0 <= j <= line.len(),
    ensures
        j <= word_end(line, j) <= line.len(),
        forall|k: int| j <= k < word_end(line, j) ==> is_word_char(#[trigger] line[k]),
    decreases line.len() - j,
{
    if 0 <= j < line.len() && is_word_char(line[j]) {
        lemma_word_end(line, j + 1);
    }
}

pub proof fn lemma_quote_close(line: Seq<char>, j: int)
    ensures
        quote_close(line, j) matches Some(k) ==> j <= k < line.len() && line[k] == '"',
    decreases line.len() - j,
{
    if 0 <= j < line.len() {
        if line[j] == '\\' {
            if j + 1 < line.len() {
                lemma_quote_close(line, j + 2);
            }
        } else if line[j] != '"' {
            lemma_quote_close(line, j + 1);
        }
    }
}

/// The words of a line from position `i` on: blanks separate words; `{`, `}` and `,` are
/// words of their own; a double quote opens a quoted word that runs to its closing quote
/// (none when it is left open); any other character starts a word of word characters.
pub open spec fn tokens_from(line: Seq<char>, i: int) -> Option<Seq<(Seq<char>, bool)>>
    decreases line.len() - i,
{
    if i < 0 || i >= line.len() {
        Some(Seq::empty())
    } else {
        let c = line[i];
        if is_blank(c) {
            tokens_from(line, i + 1)
        } else if is_single(c) {
            match tokens_from(line, i + 1) {
                Some(r) => Some(seq![(seq![c], false)] + r),
                None => None,
            }
        } else if c == '"' {
            match quote_close(line, i + 1) {
                Some(j) => {
                    proof {
                        lemma_quote_close(line, i + 1);
                    }
                    match tokens_from(line, j + 1) {
                        Some(r) => Some(seq![(line.subrange(i, j + 1), true)] + r),
                        None => None,
                    }
                },
                None => None,
            }
        } else {
            let j = word_end(line, i);
            proof {
                lemma_word_end(line, i + 1);
            }
            match tokens_from(line, j) {
                Some(r) => Some(seq![(line.subrange(i, j), false)] + r),
                None => None,
            }
        }
    }
}

/// The words of a line; none when a quoted word is left open.
pub open spec fn line_tokens(line: Seq<char>) -> Option<Seq<(Seq<char>, bool)>> {
    tokens_from(line, 0)
}

/// `whole` is the words `pre` followed by `rest`, none when `rest` is none.
pub open spec fn follows(
    whole: Option<Seq<(Seq<char>, bool)>>,
    pre: Seq<(Seq<char>, bool)>,
    rest: Option<Seq<(Seq<char>, bool)>>,
) -> bool {
    match rest {
        Some(r) => whole == Some(pre + r),
        None => whole is None,
    }
}

/// Splits a line into words (see `line_tokens`).
pub fn tokenize(line: &Vec<char>) -> (r: Option<Vec<Token>>)
    ensures
        match r {
            Some(ts) => line_tokens(line@) == Some(tviews(ts@)) && forall|i: int|
                0 <= i < ts@.len() ==> token_wf(#[trigger] ts@[i]),
            None => line_tokens(line@) is None,
        },
{
    let mut tokens: Vec<Token> = Vec::new();
    let n = line.len();
    let mut i: usize = 0;
    proof {
        match tokens_from(line@, 0) {
            Some(r) => assert(tviews(tokens@) + r =~= r),
            None => {},
        }
    }
    while i < n
        invariant
            n == line@.len(),
            i <= n,
            forall|k: int| 0 <= k < tokens@.len() ==> token_wf(#[trigger] tokens@[k]),
            follows(line_tokens(line@), tviews(tokens@), tokens_from(line@, i as int)),
        decreases n - i,
    {
        let c = line[i];
        let ghost pre = tviews(tokens@);
        if is_blank_char(c) {
            i = i + 1;
        } else if is_single_char(c) {
            let mut text: Vec<char> = Vec::new();
            text.push(c);
            tokens.push(Token { text, quoted: false });
            proof {
                assert(tviews(tokens@) =~= pre.push((seq![c], false)));
                match tokens_from(line@, i + 1) {
                    Some(r) => assert(pre + (seq![(seq![c], false)] + r) =~= pre.push((seq![c], false)) + r),
                    None => {},
                }
            }
            i = i + 1;
        } else if c == '"' {
            let mut j: usize = i + 1;
            let mut closed = false;
            while j < n
                invariant_except_break
                    n == line@.len(),
                    i < j <= n,
                    !closed,
                    quote_close(line@, i + 1) == quote_close(line@, j as int),
                ensures
                    i < j <= n,
                    closed ==> j < n && line@[j as int] == '"' && quote_close(line@, i + 1) == Some(j as int),
                    !closed ==> quote_close(line@, i + 1) is None,
                decreases n - j,
            {
                if line[j] == '\\' {
                    if j + 1 < n {
                        j = j + 2;
                    } else {
                        j = n;
                    }
                } else if line[j] == '"' {
                    closed = true;
                    break;
                } else {
                    j = j + 1;
                }
            }
            if !closed {
                return None;
            }
            let text = sub_vec(line, i, j + 1);
            tokens.push(Token { text, quoted: true });
            proof {
                let t = (line@.subrange(i as int, j + 1), true);
                assert(tviews(tokens@) =~= pre.push(t));
                match tokens_from(line@, j + 1) {
                    Some(r) => assert(pre + (seq![t] + r) =~= pre.push(t) + r),
                    None => {},
                }
            }
            i = j + 1;
        } else {
            let mut j: usize = i;
            while j < n && is_word_char_exec(line[j])
                invariant
                    n == line@.len(),
                    i <= j <= n,
                    forall|k: int| i <= k < j ==> is_word_char(#[trigger] line@[k]),
                    word_end(line@, i as int) == word_end(line@, j as int),
                decreases n - j,
            {
                j = j + 1;
            }
            let text = sub_vec(line, i, j);
            proof {
                assert(is_word_char(line@[i as int]));
                assert forall|k: int| 0 <= k < text@.len() implies is_word_char(#[trigger] text@[k]) by {
                    assert(text@[k] == line@[i + k]);
                }
                let t = (line@.subrange(i as int, j as int), false);
                assert(tviews(tokens@.push(Token { text, quoted: false })) =~= pre.push(t));
                match tokens_from(line@, j as int) {
                    Some(r) => assert(pre + (seq![t] + r) =~= pre.push(t) + r),
                    None => {},
                }
            }
            tokens.push(Token { text, quoted: false });
            i = j;
        }
    }
    proof {
        assert(tviews(tokens@) + Seq::<(Seq<char>, bool)>::empty() =~= tviews(tokens@));
    }
    Some(tokens)
}

fn is_word_char_exec(c: char) -> (r: bool)
    ensures
        r == is_word_char(c),
{
    !is_blank_char(c) && !is_single_char(c) && c != '"'
}

/// Whether the word is the bare word `s`.
pub fn is_word(t: &Token, s: &str) -> (r: bool)
    ensures
        r == (!t.quoted && t.text@ == s@),
{
    !t.quoted && str_eq_chars(s, &t.text)
}

/// Reads a word as a string: a bare word as it is, a quoted word unescaped.
pub fn string_of_token(t: &Token) -> (r: Option<ZhangString>)
    ensures
        !t.quoted ==> r is Some && r.unwrap() is UnquoteString && r.unwrap().content() == t.text@,
        t.quoted ==> match r {
            Some(z) => z is QuoteString && snailquote_unescape(t.text@) == Some(z.content()),
            None => snailquote_unescape(t.text@) is None,
        },
        forall|s: Seq<char>| t.quoted && #[trigger] quoted_text(s) == t.text@ ==> r is Some && r.unwrap().content() == s,
{
    let s = string_from_chars(&t.text);
    if t.quoted {
        match unescape_quoted(s.as_str()) {
            Some(u) => Some(ZhangString::QuoteString(u)),
            None => None,
        }
    } else {
        Some(ZhangString::UnquoteString(s))
    }
}

} // verus!

verus! {

/// The value of at most four decimal digits `v[lo..hi]`.
fn small_number(v: &Vec<char>, lo: usize, hi: usize) -> (r: u32)
    requires
        lo <= hi <= v@.len(),
        hi - lo <= 4,
        all_digits(v@.subrange(lo as int, hi as int)),
    ensures
        r == digits_value(v@.subrange(lo as int, hi as int)),
{
    let mut acc: u32 = 0;
    let mut k: usize = lo;
    proof {
        assert(v@.subrange(lo as int, lo as int) =~= Seq::<char>::empty());
    }
    while k < hi
        invariant
            lo <= k <= hi,
            hi <= v@.len(),
            hi - lo <= 4,
            all_digits(v@.subrange(lo as int, hi as int)),
            acc == digits_value(v@.subrange(lo as int, k as int)),
            acc < pow10((k - lo) as nat),
        decreases hi - k,
    {
        assert(v@.subrange(lo as int, hi as int)[k - lo] == v@[k as int]);
        assert(is_digit(v@[k as int]));
        let d = v[k] as u32 - 48;
        proof {
            assert(v@.subrange(lo as int, k + 1).drop_last() =~= v@.subrange(lo as int, k as int));
            assert(pow10(0) == 1);
            assert(pow10(1) == 10);
            assert(pow10(2) == 100);
            assert(pow10(3) == 1000);
            assert(acc < 1000);
        }
        acc = acc * 10 + d;
        k = k + 1;
    }
    acc
}

/// A date word has the shape `dddd-dd-dd`.
pub open spec fn date_token_shape(s: Seq<char>) -> bool {
    &&& s.len() == 10
    &&& s[4] == '-'
    &&& s[7] == '-'
    &&& all_digits(s.subrange(0, 4))
    &&& all_digits(s.subrange(5, 7))
    &&& all_digits(s.subrange(8, 10))
}

pub open spec fn date_token_year(s: Seq<char>) -> int {
    digits_value(s.subrange(0, 4))
}

pub open spec fn date_token_month(s: Seq<char>) -> int {
    digits_value(s.subrange(5, 7))
}

pub open spec fn date_token_day(s: Seq<char>) -> int {
    digits_value(s.subrange(8, 10))
}

fn digits_between(v: &Vec<char>, lo: usize, hi: usize) -> (r: bool)
    requires
        lo <= hi <= v@.len(),
    ensures
        r == all_digits(v@.subrange(lo as int, hi as int)),
{
    let mut k = lo;
    while k < hi
        invariant
            lo <= k <= hi,
            hi <= v@.len(),
            forall|j: int| lo <= j < k ==> is_digit(#[trigger] v@[j]),
        decreases hi - k,
    {
        if !('0' <= v[k] && v[k] <= '9') {
            proof {
                assert(v@.subrange(lo as int, hi as int)[k - lo] == v@[k as int]);
            }
            return false;
        }
        k = k + 1;
    }
    proof {
        assert forall|j: int| 0 <= j < hi - lo implies is_digit(#[trigger] v@.subrange(lo as int, hi as int)[j]) by {
            assert(v@.subrange(lo as int, hi as int)[j] == v@[lo + j]);
        }
    }
    true
}

/// Reads a `YYYY-MM-DD` word as a calendar day.
pub fn parse_date_token(t: &Vec<char>) -> (r: Option<NaiveDate>)
    ensures
        match r {
            Some(d) => date_token_shape(t@) && d.year == date_token_year(t@) && d.month == date_token_month(t@)
                && d.day == date_token_day(t@) && valid_ymd(d.year as int, d.month as int, d.day as int),
            None => !(date_token_shape(t@) && valid_ymd(
                date_token_year(t@),
                date_token_month(t@),
                date_token_day(t@),
            )),
        },
{
    if t.len() != 10 || t[4] != '-' || t[7] != '-' {
        return None;
    }
    if !digits_between(t, 0, 4) || !digits_between(t, 5, 7) || !digits_between(t, 8, 10) {
        return None;
    }
    let y = small_number(t, 0, 4);
    let m = small_number(t, 5, 7);
    let d = small_number(t, 8, 10);
    proof {
        crate::decimal::lemma_pow10_positive(4);
    }
    assert(y < 10000) by {
        small_number_bound(t@.subrange(0, 4));
    }
    NaiveDate::from_ymd_opt(y as i32, m, d)
}

/// Four digits spell a number below ten thousand.
proof fn small_number_bound(s: Seq<char>)
    requires
        s.len() == 4,
        all_digits(s),
    ensures
        0 <= digits_value(s) < 10000,
{
    let s3 = s.drop_last();
    let s2 = s3.drop_last();
    let s1 = s2.drop_last();
    let s0 = s1.drop_last();
    assert(s0.len() == 0);
    assert(is_digit(s[3]) && is_digit(s3[2]) && is_digit(s2[1]) && is_digit(s1[0]));
    assert(s3.last() == s[2] && s2.last() == s[1] && s1.last() == s[0] && s.last() == s[3]);
    assert(digits_value(s0) == 0);
    assert(0 <= digits_value(s1) < 10);
    assert(0 <= digits_value(s2) < 100);
    assert(0 <= digits_value(s3) < 1000);
    assert(digits_value(s) == digits_value(s3) * 10 + crate::decimal::char_digit(s[3]));
}

/// A time word has the shape `dd:dd` or `dd:dd:dd`.
pub open spec fn time_token_short(s: Seq<char>) -> bool {
    &&& s.len() == 5
    &&& s[2] == ':'
    &&& all_digits(s.subrange(0, 2))
    &&& all_digits(s.subrange(3, 5))
}

pub open spec fn time_token_long(s: Seq<char>) -> bool {
    &&& s.len() == 8
    &&& s[2] == ':'
    &&& s[5] == ':'
    &&& all_digits(s.subrange(0, 2))
    &&& all_digits(s.subrange(3, 5))
    &&& all_digits(s.subrange(6, 8))
}

/// The hour, minute and second a time word spells; the second is zero in the short shape.
pub open spec fn time_token_value(s: Seq<char>) -> (int, int, int) {
    (
        digits_value(s.subrange(0, 2)),
        digits_value(s.subrange(3, 5)),
        if s.len() == 8 {
            digits_value(s.subrange(6, 8))
        } else {
            0
        },
    )
}

/// Reads an `HH:MM` or `HH:MM:SS` word: the hour, minute and second, and whether the
/// seconds were written.
pub fn parse_time_token(t: &Vec<char>) -> (r: Option<(u32, u32, u32, bool)>)
    ensures
        match r {
            Some((h, m, s, long)) => (if long {
                time_token_long(t@)
            } else {
                time_token_short(t@)
            }) && (h as int, m as int, s as int) == time_token_value(t@) && valid_hms(h as int, m as int, s as int),
            None => !((time_token_short(t@) || time_token_long(t@)) && valid_hms(
                time_token_value(t@).0,
                time_token_value(t@).1,
                time_token_value(t@).2,
            )),
        },
{
    if t.len() == 5 && t[2] == ':' && digits_between(t, 0, 2) && digits_between(t, 3, 5) {
        let h = small_number(t, 0, 2);
        let m = small_number(t, 3, 5);
        if h < 24 && m < 60 {
            Some((h, m, 0, false))
        } else {
            None
        }
    } else if t.len() == 8 && t[2] == ':' && t[5] == ':' && digits_between(t, 0, 2) && digits_between(t, 3, 5)
        && digits_between(t, 6, 8) {
        let h = small_number(t, 0, 2);
        let m = small_number(t, 3, 5);
        let s = small_number(t, 6, 8);
        if h < 24 && m < 60 && s < 60 {
            Some((h, m, s, true))
        } else {
            None
        }
    } else {
        None
    }
}

} // verus!
