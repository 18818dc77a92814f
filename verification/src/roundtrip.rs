use vstd::prelude::*;

use crate::lexer::{is_blank, is_single, is_word_char, line_tokens, quote_close, tokens_from, word_end, lemma_quote_close, lemma_word_end};
use crate::strings::join_parts;
use crate::account::Account;
use crate::date::{date_text, padded_digits, valid_ymd, NaiveDate};
use crate::decimal::{
    all_digits, decimal_text, digits_value, first_index_of, fits_mantissa, is_digit, lemma_first_index_bounds,
    lemma_nat_digits_all_digits, lemma_pow10_positive, lemma_zeros_value, law_decimal_text_round_trip, nat_digits,
    number_body, number_frac_part, number_int_part, number_mantissa, number_syntax, pow10,
};
use crate::grammar::{
    account_named, balance_reads, commodity_reads, dated_reads, is_kw, item_reads, lines_tokens, meta_empty, meta_map,
    meta_of_pairs, meta_view, open_reads, price_reads, word_account, word_commodity, word_day, word_number,
    word_time, words_amount, words_date, StringView, Word,
};
use crate::strings::string_views;
use crate::grammar::marked_names;
use crate::decimal::lemma_scale_bound;
use crate::amount::{amount_text, Amount};
use crate::data::{Balance, BalanceCheck, BalancePad, Close, Commodity, Meta, Open, Price};
use crate::date::Date;
use crate::models::Directive;
use crate::text::{directive_text, meta_of};
use crate::multi_value_map::flatten_pairs;
use crate::lexer::{date_token_day, date_token_month, date_token_shape, date_token_year, time_token_long, time_token_short};

verus! {

/// A word of word characters only.
pub open spec fn plain_word(w: Seq<char>) -> bool {
    w.len() > 0 && forall|i: int| 0 <= i < w.len() ==> is_word_char(#[trigger] w[i])
}

pub proof fn lemma_word_end_shift(x: Seq<char>, y: Seq<char>, j: int)
    requires
        0 <= j <= y.len(),
    ensures
        word_end(x + y, x.len() + j) == x.len() + word_end(y, j),
    decreases y.len() - j,
{
    let line = x + y;
    if j < y.len() {
        assert(line[x.len() + j] == y[j]);
        if is_word_char(y[j]) {
            lemma_word_end_shift(x, y, j + 1);
        }
    }
}

pub proof fn lemma_quote_close_shift(x: Seq<char>, y: Seq<char>, j: int)
    requires
        0 <= j,
    ensures
        quote_close(x + y, x.len() + j) == match quote_close(y, j) {
            Some(k) => Some(x.len() + k),
            None => None,
        },
    decreases y.len() - j,
{
    let line = x + y;
    if j < y.len() {
        assert(line[x.len() + j] == y[j]);
        if y[j] == '\\' {
            if j + 1 < y.len() {
                lemma_quote_close_shift(x, y, j + 2);
            }
        } else if y[j] != '"' {
            lemma_quote_close_shift(x, y, j + 1);
        }
    }
}

/// The words of a line from a position depend on the rest of the line only.
pub proof fn lemma_tokens_shift(x: Seq<char>, y: Seq<char>, i: int)
    requires
        0 <= i,
    ensures
        tokens_from(x + y, x.len() + i) == tokens_from(y, i),
    decreases y.len() - i,
{
    let line = x + y;
    if i < y.len() {
        let c = y[i];
        assert(line[x.len() + i] == c);
        if is_blank(c) {
            lemma_tokens_shift(x, y, i + 1);
        } else if is_single(c) {
            lemma_tokens_shift(x, y, i + 1);
        } else if c == '"' {
            lemma_quote_close_shift(x, y, i + 1);
            lemma_quote_close(y, i + 1);
            match quote_close(y, i + 1) {
                Some(k) => {
                    lemma_tokens_shift(x, y, k + 1);
                    assert(line.subrange(x.len() + i, x.len() + k + 1) =~= y.subrange(i, k + 1));
                },
                None => {},
            }
        } else {
            lemma_word_end_shift(x, y, i);
            lemma_word_end(y, i + 1);
            let j = word_end(y, i);
            lemma_tokens_shift(x, y, j);
            assert(line.subrange(x.len() + i, x.len() + j) =~= y.subrange(i, j));
        }
    }
}

/// A run of word characters ends at the end of a part that a blank follows.
proof fn lemma_word_end_prefix(a: Seq<char>, s: Seq<char>, j: int)
    requires
        0 <= j <= a.len(),
        s.len() > 0,
        is_blank(s[0]),
    ensures
        word_end(a + s, j) == word_end(a, j),
    decreases a.len() - j,
{
    let line = a + s;
    if j < a.len() {
        assert(line[j] == a[j]);
        if is_word_char(a[j]) {
            lemma_word_end_prefix(a, s, j + 1);
        }
    } else {
        assert(line[j] == s[0]);
    }
}

/// The words of a part without quotes, then a part that starts with a blank, are the words
/// of each.
pub proof fn lemma_tokens_concat(a: Seq<char>, s: Seq<char>, i: int)
    requires
        0 <= i <= a.len(),
        forall|k: int| 0 <= k < a.len() ==> #[trigger] a[k] != '"',
        s.len() > 0,
        is_blank(s[0]),
    ensures
        tokens_from(a + s, i) == match (tokens_from(a, i), tokens_from(s, 0)) {
            (Some(x), Some(y)) => Some(x + y),
            _ => None,
        },
    decreases a.len() - i,
{
    let line = a + s;
    if i == a.len() {
        lemma_tokens_shift(a, s, 0);
        match tokens_from(s, 0) {
            Some(y) => assert(Seq::<(Seq<char>, bool)>::empty() + y =~= y),
            None => {},
        }
    } else {
        let c = a[i];
        assert(line[i] == c);
        if is_blank(c) {
            lemma_tokens_concat(a, s, i + 1);
        } else if is_single(c) {
            lemma_tokens_concat(a, s, i + 1);
            match (tokens_from(a, i + 1), tokens_from(s, 0)) {
                (Some(x), Some(y)) => assert(seq![(seq![c], false)] + (x + y) =~= (seq![(seq![c], false)] + x) + y),
                _ => {},
            }
        } else {
            lemma_word_end_prefix(a, s, i);
            lemma_word_end(a, i + 1);
            let j = word_end(a, i);
            lemma_tokens_concat(a, s, j);
            assert(line.subrange(i, j) =~= a.subrange(i, j));
            match (tokens_from(a, j), tokens_from(s, 0)) {
                (Some(x), Some(y)) => assert(seq![(a.subrange(i, j), false)] + (x + y) =~= (seq![(a.subrange(i, j), false)] + x) + y),
                _ => {},
            }
        }
    }
}

/// A word of word characters alone reads as itself.
pub proof fn lemma_tokens_word(w: Seq<char>)
    requires
        plain_word(w),
    ensures
        tokens_from(w, 0) == Some(seq![(w, false)]),
{
    lemma_word_end(w, 1);
    assert(word_end(w, 0) == word_end(w, 1));
    assert(word_end(w, 0) == w.len()) by {
        lemma_word_end_all(w, 0);
    }
    assert(w.subrange(0, w.len() as int) =~= w);
    assert(tokens_from(w, w.len() as int) == Some(Seq::<(Seq<char>, bool)>::empty()));
    assert(is_word_char(w[0]));
    assert(seq![(w, false)] + Seq::<(Seq<char>, bool)>::empty() =~= seq![(w, false)]);
}

proof fn lemma_word_end_all(w: Seq<char>, j: int)
    requires
        0 <= j <= w.len(),
        forall|i: int| 0 <= i < w.len() ==> is_word_char(#[trigger] w[i]),
    ensures
        word_end(w, j) == w.len(),
    decreases w.len() - j,
{
    if j < w.len() {
        lemma_word_end_all(w, j + 1);
    }
}

/// Words of word characters joined by single spaces read as those words.
pub proof fn lemma_tokens_joined(ws: Seq<Seq<char>>)
    requires
        ws.len() >= 1,
        forall|i: int| 0 <= i < ws.len() ==> plain_word(#[trigger] ws[i]),
    ensures
        line_tokens(join_parts(ws, ' ')) == Some(ws.map_values(|w: Seq<char>| (w, false))),
        forall|k: int| 0 <= k < join_parts(ws, ' ').len() ==> #[trigger] join_parts(ws, ' ')[k] != '"',
    decreases ws.len(),
{
    if ws.len() == 1 {
        assert(plain_word(ws[0]));
        lemma_tokens_word(ws[0]);
        assert(ws.map_values(|w: Seq<char>| (w, false)) =~= seq![(ws[0], false)]);
    } else {
        let a = join_parts(ws.drop_last(), ' ');
        let last = ws.last();
        assert forall|i: int| 0 <= i < ws.drop_last().len() implies plain_word(#[trigger] ws.drop_last()[i]) by {
            assert(ws.drop_last()[i] == ws[i]);
        }
        lemma_tokens_joined(ws.drop_last());
        assert(plain_word(ws[ws.len() - 1]));
        let s = seq![' '] + last;
        assert(join_parts(ws, ' ') == a + seq![' '] + last);
        assert(a + seq![' '] + last =~= a + s);
        lemma_tokens_concat(a, s, 0);
        lemma_tokens_shift(seq![' '], last, 0);
        lemma_tokens_word(last);
        assert(tokens_from(s, 0) == tokens_from(s, 1));
        assert(ws.map_values(|w: Seq<char>| (w, false)) =~= ws.drop_last().map_values(|w: Seq<char>| (w, false)).push(
            (last, false),
        ));
        assert(ws.drop_last().map_values(|w: Seq<char>| (w, false)) + seq![(last, false)] =~= ws.drop_last().map_values(
            |w: Seq<char>| (w, false),
        ).push((last, false)));
        assert forall|k: int| 0 <= k < join_parts(ws, ' ').len() implies #[trigger] join_parts(ws, ' ')[k] != '"' by {
            if k < a.len() {
                assert(join_parts(ws, ' ')[k] == a[k]);
            } else if k > a.len() {
                assert(join_parts(ws, ' ')[k] == last[k - a.len() - 1]);
            }
        }
    }
}

/// A number below `10^w` has at most `w` digits.
proof fn lemma_nat_digits_len_bound(n: nat, w: nat)
    requires
        w >= 1,
        n < pow10(w),
    ensures
        nat_digits(n).len() <= w,
    decreases n,
{
    if n >= 10 {
        assert(pow10(w) == 10 * pow10((w - 1) as nat));
        assert(n / 10 < pow10((w - 1) as nat));
        if w == 1 {
            assert(pow10(0) == 1);
        } else {
            lemma_nat_digits_len_bound(n / 10, (w - 1) as nat);
        }
    }
}

/// A number below `10^w` is written in exactly `w` digits, zeros first.
pub proof fn lemma_padded_digits(n: nat, w: nat)
    requires
        w >= 1,
        n < pow10(w),
    ensures
        padded_digits(n, w).len() == w,
        all_digits(padded_digits(n, w)),
        digits_value(padded_digits(n, w)) == n,
{
    lemma_nat_digits_len_bound(n, w);
    lemma_nat_digits_all_digits(n);
    let ds = nat_digits(n);
    if ds.len() < w {
        let z = Seq::new((w - ds.len()) as nat, |i: int| '0');
        lemma_zeros_value(z, ds);
        assert forall|i: int| 0 <= i < (z + ds).len() implies is_digit(#[trigger] (z + ds)[i]) by {
            if i >= z.len() {
                assert((z + ds)[i] == ds[i - z.len()]);
            }
        }
    }
}

/// A day of the calendar with a year of four digits is written as a plain word that reads
/// back as that day.
pub proof fn lemma_day_reads(d: NaiveDate)
    requires
        valid_ymd(d.year as int, d.month as int, d.day as int),
        0 <= d.year <= 9999,
    ensures
        plain_word(date_text(d)),
        date_text(d)[0] != ';',
        is_digit(date_text(d)[0]),
        word_day((date_text(d), false)) == Some(d),
{
    assert(pow10(4) == 10000) by {
        assert(pow10(0) == 1);
        assert(pow10(1) == 10);
        assert(pow10(2) == 100);
        assert(pow10(3) == 1000);
    }
    assert(pow10(2) == 100) by {
        assert(pow10(0) == 1);
        assert(pow10(1) == 10);
    }
    lemma_padded_digits(d.year as nat, 4);
    lemma_padded_digits(d.month as nat, 2);
    lemma_padded_digits(d.day as nat, 2);
    let y = padded_digits(d.year as nat, 4);
    let m = padded_digits(d.month as nat, 2);
    let dd = padded_digits(d.day as nat, 2);
    let t = date_text(d);
    assert(t =~= y + seq!['-'] + m + seq!['-'] + dd);
    assert(t.subrange(0, 4) =~= y);
    assert(t.subrange(5, 7) =~= m);
    assert(t.subrange(8, 10) =~= dd);
    assert(date_token_shape(t));
    assert(is_digit(y[0]));
    assert forall|i: int| 0 <= i < t.len() implies is_word_char(#[trigger] t[i]) by {
        if i < 4 {
            assert(t[i] == y[i]);
            assert(is_digit(y[i]));
        } else if 4 < i < 7 {
            assert(t[i] == m[i - 5]);
            assert(is_digit(m[i - 5]));
        } else if i > 7 {
            assert(t[i] == dd[i - 8]);
            assert(is_digit(dd[i - 8]));
        }
    }
}

/// The text of a number is a plain word.
proof fn lemma_number_chars(t: Seq<char>)
    requires
        number_syntax(t),
    ensures
        plain_word(t),
{
    let b = number_body(t);
    lemma_first_index_bounds(b, '.');
    let p = first_index_of(b, '.');
    assert forall|k: int| 0 <= k < b.len() implies is_word_char(#[trigger] b[k]) by {
        if p < 0 {
            assert(b[k] == number_int_part(t)[k]);
            assert(is_digit(number_int_part(t)[k]));
        } else if k < p {
            assert(b[k] == number_int_part(t)[k]);
            assert(is_digit(number_int_part(t)[k]));
        } else if k > p {
            assert(b[k] == number_frac_part(t)[k - p - 1]);
            assert(is_digit(number_frac_part(t)[k - p - 1]));
        }
    }
    assert forall|k: int| 0 <= k < t.len() implies is_word_char(#[trigger] t[k]) by {
        if t.len() > 0 && t[0] == '-' {
            if k > 0 {
                assert(t[k] == b[k - 1]);
            }
        } else {
            assert(t[k] == b[k]);
        }
    }
}

/// A number is written as a plain word that reads back as its digits and scale.
pub proof fn lemma_number_reads(m: int, s: nat)
    requires
        fits_mantissa(m),
        s <= u32::MAX,
    ensures
        plain_word(decimal_text(m, s)),
        word_number((decimal_text(m, s), false)) == Some((m, s)),
{
    law_decimal_text_round_trip(m, s);
    lemma_number_chars(decimal_text(m, s));
}

/// An account named by a plain word reads back from it.
pub proof fn lemma_account_reads(a: Account)
    requires
        account_named(a, a.content@),
        plain_word(a.content@),
    ensures
        word_account((a.content@, false)) == Some(a.content@),
{
    assert(join_parts(a.segments(), ':') == a.content@);
}

/// A commodity named by a plain word reads back from it.
pub proof fn lemma_commodity_reads(c: Seq<char>)
    requires
        plain_word(c),
    ensures
        word_commodity((c, false)) == Some(c),
{
    assert(is_word_char(c[0]));
}

/// A word whose third character is no colon is no time of day.
pub proof fn lemma_no_time(w: Seq<char>)
    requires
        w.len() > 2,
        w[2] != ':',
    ensures
        word_time((w, false)) is None,
{
}

/// The date is a day of the calendar with a four-digit year, written without a time.
pub open spec fn plain_date(d: Date) -> bool {
    d matches Date::Date(day) && valid_ymd(day.year as int, day.month as int, day.day as int) && 0 <= day.year <= 9999
}

/// The account is named by its name, a plain word.
pub open spec fn plain_account(a: Account) -> bool {
    account_named(a, a.content@) && plain_word(a.content@)
}

/// The amount's number fits and its commodity is a plain word.
pub open spec fn plain_amount(a: Amount) -> bool {
    fits_mantissa(a.number.mant()) && plain_word(a.currency@)
}

/// The directive is written on one line of plain words: `open` without commodities,
/// `close`, `commodity`, `price`, or `balance`, with no metadata and nothing computed yet.
pub open spec fn one_line_directive(d: Directive) -> bool {
    match d {
        Directive::Open(o) => plain_date(o.date) && plain_account(o.account) && o.commodities@.len() == 0
            && meta_empty(o.meta),
        Directive::Close(c) => plain_date(c.date) && plain_account(c.account) && meta_empty(c.meta),
        Directive::Commodity(c) => plain_date(c.date) && plain_word(c.currency@) && meta_empty(c.meta),
        Directive::Price(p) => plain_date(p.date) && plain_word(p.currency@) && plain_amount(p.amount) && meta_empty(
            p.meta,
        ),
        Directive::Balance(Balance::BalanceCheck(b)) => plain_date(b.date) && plain_account(b.account) && plain_amount(
            b.amount,
        ) && b.tolerance is None && b.distance is None && b.current_amount is None && meta_empty(b.meta),
        Directive::Balance(Balance::BalancePad(b)) => plain_date(b.date) && plain_account(b.account) && plain_amount(
            b.amount,
        ) && plain_account(b.pad) && b.tolerance is None && b.diff_amount is None && meta_empty(b.meta),
        _ => false,
    }
}

pub open spec fn bare_words(ws: Seq<Seq<char>>) -> Seq<Word> {
    ws.map_values(|w: Seq<char>| (w, false))
}

/// A line of plain words that starts with a day and a word that is no time reads as what
/// those words read as.
proof fn lemma_dated_line(ws: Seq<Seq<char>>, day: NaiveDate)
    requires
        ws.len() >= 2,
        ws[0] == date_text(day),
        valid_ymd(day.year as int, day.month as int, day.day as int),
        0 <= day.year <= 9999,
        forall|i: int| 0 <= i < ws.len() ==> plain_word(#[trigger] ws[i]),
        ws[1].len() > 2,
        ws[1][2] != ':',
    ensures
        words_date(bare_words(ws)) == Some((Date::Date(day), 1int)),
        forall|r: Option<Directive>|
            #[trigger] item_reads(seq![join_parts(ws, ' ')], r) == dated_reads(bare_words(ws), Seq::empty(), r),
{
    reveal(item_reads);
    lemma_day_reads(day);
    lemma_tokens_joined(ws);
    lemma_no_time(ws[1]);
    let text = join_parts(ws, ' ');
    let h = bare_words(ws);
    assert(text[0] == ws[0][0]) by {
        lemma_join_first(ws);
    }
    let ls = seq![text];
    assert(ls.drop_first() =~= Seq::<Seq<char>>::empty());
    assert(lines_tokens(Seq::<Seq<char>>::empty()) == Some(Seq::<Seq<Word>>::empty()));
    assert(h[0] == (date_text(day), false));
    assert(h[1] == (ws[1], false));
}

/// A join begins with its first part.
proof fn lemma_join_first(ws: Seq<Seq<char>>)
    requires
        ws.len() >= 1,
        ws[0].len() > 0,
    ensures
        join_parts(ws, ' ').len() > 0,
        join_parts(ws, ' ')[0] == ws[0][0],
    decreases ws.len(),
{
    if ws.len() > 1 {
        lemma_join_first(ws.drop_last());
        assert(ws.drop_last()[0] == ws[0]);
    }
}

/// Metadata with nothing in it is written as nothing.
proof fn lemma_meta_empty_text(m: Meta)
    requires
        meta_empty(m),
    ensures
        meta_of(m) == Seq::<char>::empty(),
{
    assert(flatten_pairs(m.key_order(), m.value_lists()) =~= Seq::empty());
}

/// A directive written on one line of plain words reads back as itself: the words of its
/// text read as a directive equal to it in every part that is read.
pub proof fn law_one_line_directive_reads_back(d: Directive)
    requires
        one_line_directive(d),
    ensures
        item_reads(seq![directive_text(d)], Some(d)),
{
    match d {
        Directive::Close(c) => lemma_close_reads_back(c),
        Directive::Open(o) => lemma_open_reads_back(o),
        Directive::Commodity(c) => lemma_commodity_reads_back(c),
        Directive::Price(p) => lemma_price_reads_back(p),
        Directive::Balance(Balance::BalanceCheck(b)) => lemma_balance_check_reads_back(b),
        Directive::Balance(Balance::BalancePad(b)) => lemma_balance_pad_reads_back(b),
        _ => {},
    }
}

proof fn lemma_close_reads_back(c: Close)
    requires
        one_line_directive(Directive::Close(c)),
    ensures
        item_reads(seq![directive_text(Directive::Close(c))], Some(Directive::Close(c))),
{
    reveal_strlit("open");
    reveal_strlit("close");
    reveal_strlit("commodity");
    reveal_strlit("balance");
    reveal_strlit("note");
    reveal_strlit("document");
    reveal_strlit("price");
    reveal_strlit("event");
    reveal_strlit("custom");
    reveal_strlit("with");
    reveal_strlit("pad");
    reveal_strlit(" open ");
    reveal_strlit(" close ");
    reveal_strlit(" commodity ");
    reveal_strlit(" balance ");
    reveal_strlit(" price ");
    reveal_strlit(" ");
    reveal_strlit(" with pad ");
    let day = c.date->Date_0;
    let ws = seq![date_text(day), "close"@, c.account.content@];
    assert(plain_word("close"@));
    assert forall|i: int| 0 <= i < ws.len() implies plain_word(#[trigger] ws[i]) by {
        lemma_day_reads(day);
    }
    lemma_dated_line(ws, day);
    lemma_account_reads(c.account);
    lemma_join3(date_text(day), "close"@, c.account.content@);
    assert(directive_text(Directive::Close(c)) =~= join_parts(ws, ' '));
    assert(bare_words(ws)[2] == (c.account.content@, false));
    assert(dated_reads(bare_words(ws), Seq::empty(), Some(Directive::Close(c))));
    assert(item_reads(seq![join_parts(ws, ' ')], Some(Directive::Close(c))));
    assert(seq![directive_text(Directive::Close(c))] == seq![join_parts(ws, ' ')]);
}

proof fn lemma_open_reads_back(o: Open)
    requires
        one_line_directive(Directive::Open(o)),
    ensures
        item_reads(seq![directive_text(Directive::Open(o))], Some(Directive::Open(o))),
{
    reveal_strlit("open");
    reveal_strlit("close");
    reveal_strlit("commodity");
    reveal_strlit("balance");
    reveal_strlit("note");
    reveal_strlit("document");
    reveal_strlit("price");
    reveal_strlit("event");
    reveal_strlit("custom");
    reveal_strlit("with");
    reveal_strlit("pad");
    reveal_strlit(" open ");
    reveal_strlit(" close ");
    reveal_strlit(" commodity ");
    reveal_strlit(" balance ");
    reveal_strlit(" price ");
    reveal_strlit(" ");
    reveal_strlit(" with pad ");
    let day = o.date->Date_0;
    let ws = seq![date_text(day), "open"@, o.account.content@];
    assert(plain_word("open"@));
    assert forall|i: int| 0 <= i < ws.len() implies plain_word(#[trigger] ws[i]) by {
        lemma_day_reads(day);
    }
    lemma_dated_line(ws, day);
    lemma_account_reads(o.account);
    lemma_meta_empty_text(o.meta);
    lemma_join3(date_text(day), "open"@, o.account.content@);
    assert(directive_text(Directive::Open(o)) =~= join_parts(ws, ' '));
    let h = bare_words(ws);
    assert(h[2] == (o.account.content@, false));
    assert(string_views(o.commodities@) =~= Seq::<Seq<char>>::empty());
    lemma_meta_empty_view(o.meta);
    assert(open_reads(Date::Date(day), h, 1, Seq::empty(), Some(Directive::Open(o))));
    assert(dated_reads(h, Seq::empty(), Some(Directive::Open(o))));
    assert(item_reads(seq![join_parts(ws, ' ')], Some(Directive::Open(o))));
    assert(seq![directive_text(Directive::Open(o))] == seq![join_parts(ws, ' ')]);
}

proof fn lemma_commodity_reads_back(c: Commodity)
    requires
        one_line_directive(Directive::Commodity(c)),
    ensures
        item_reads(seq![directive_text(Directive::Commodity(c))], Some(Directive::Commodity(c))),
{
    reveal_strlit("open");
    reveal_strlit("close");
    reveal_strlit("commodity");
    reveal_strlit("balance");
    reveal_strlit("note");
    reveal_strlit("document");
    reveal_strlit("price");
    reveal_strlit("event");
    reveal_strlit("custom");
    reveal_strlit("with");
    reveal_strlit("pad");
    reveal_strlit(" open ");
    reveal_strlit(" close ");
    reveal_strlit(" commodity ");
    reveal_strlit(" balance ");
    reveal_strlit(" price ");
    reveal_strlit(" ");
    reveal_strlit(" with pad ");
    let day = c.date->Date_0;
    let ws = seq![date_text(day), "commodity"@, c.currency@];
    assert(plain_word("commodity"@));
    assert forall|i: int| 0 <= i < ws.len() implies plain_word(#[trigger] ws[i]) by {
        lemma_day_reads(day);
    }
    lemma_dated_line(ws, day);
    lemma_commodity_reads(c.currency@);
    lemma_meta_empty_text(c.meta);
    lemma_join3(date_text(day), "commodity"@, c.currency@);
    assert(directive_text(Directive::Commodity(c)) =~= join_parts(ws, ' '));
    let h = bare_words(ws);
    assert(h[2] == (c.currency@, false));
    lemma_meta_empty_view(c.meta);
    assert(commodity_reads(Date::Date(day), h, 1, Seq::empty(), Some(Directive::Commodity(c))));
    assert(dated_reads(h, Seq::empty(), Some(Directive::Commodity(c))));
    assert(item_reads(seq![join_parts(ws, ' ')], Some(Directive::Commodity(c))));
    assert(seq![directive_text(Directive::Commodity(c))] == seq![join_parts(ws, ' ')]);
}

proof fn lemma_price_reads_back(p: Price)
    requires
        one_line_directive(Directive::Price(p)),
    ensures
        item_reads(seq![directive_text(Directive::Price(p))], Some(Directive::Price(p))),
{
    reveal_strlit("open");
    reveal_strlit("close");
    reveal_strlit("commodity");
    reveal_strlit("balance");
    reveal_strlit("note");
    reveal_strlit("document");
    reveal_strlit("price");
    reveal_strlit("event");
    reveal_strlit("custom");
    reveal_strlit("with");
    reveal_strlit("pad");
    reveal_strlit(" open ");
    reveal_strlit(" close ");
    reveal_strlit(" commodity ");
    reveal_strlit(" balance ");
    reveal_strlit(" price ");
    reveal_strlit(" ");
    reveal_strlit(" with pad ");
    let day = p.date->Date_0;
    lemma_scale_bound(p.amount.number);
    let num = decimal_text(p.amount.number.mant(), p.amount.number.scl());
    let ws = seq![date_text(day), "price"@, p.currency@, num, p.amount.currency@];
    assert(plain_word("price"@));
    lemma_number_reads(p.amount.number.mant(), p.amount.number.scl());
    assert forall|i: int| 0 <= i < ws.len() implies plain_word(#[trigger] ws[i]) by {
        lemma_day_reads(day);
    }
    lemma_dated_line(ws, day);
    lemma_commodity_reads(p.currency@);
    lemma_commodity_reads(p.amount.currency@);
    lemma_join5(date_text(day), "price"@, p.currency@, num, p.amount.currency@);
    assert(directive_text(Directive::Price(p)) =~= join_parts(ws, ' '));
    let h = bare_words(ws);
    assert(h[2] == (p.currency@, false));
    assert(h[3] == (num, false));
    assert(h[4] == (p.amount.currency@, false));
    assert(h[1].0[0] == 'p' && "close"@[0] == 'c' && "commodity"@[0] == 'c' && "balance"@[0] == 'b');
    assert(price_reads(Date::Date(day), h, 1, Seq::empty(), Some(Directive::Price(p))));
    assert(dated_reads(h, Seq::empty(), Some(Directive::Price(p))));
    assert(item_reads(seq![join_parts(ws, ' ')], Some(Directive::Price(p))));
    assert(seq![directive_text(Directive::Price(p))] == seq![join_parts(ws, ' ')]);
}

proof fn lemma_balance_check_reads_back(b: BalanceCheck)
    requires
        one_line_directive(Directive::Balance(Balance::BalanceCheck(b))),
    ensures
        item_reads(seq![directive_text(Directive::Balance(Balance::BalanceCheck(b)))], Some(Directive::Balance(Balance::BalanceCheck(b)))),
{
    reveal_strlit("open");
    reveal_strlit("close");
    reveal_strlit("commodity");
    reveal_strlit("balance");
    reveal_strlit("note");
    reveal_strlit("document");
    reveal_strlit("price");
    reveal_strlit("event");
    reveal_strlit("custom");
    reveal_strlit("with");
    reveal_strlit("pad");
    reveal_strlit(" open ");
    reveal_strlit(" close ");
    reveal_strlit(" commodity ");
    reveal_strlit(" balance ");
    reveal_strlit(" price ");
    reveal_strlit(" ");
    reveal_strlit(" with pad ");
    let day = b.date->Date_0;
    lemma_scale_bound(b.amount.number);
    let num = decimal_text(b.amount.number.mant(), b.amount.number.scl());
    let ws = seq![date_text(day), "balance"@, b.account.content@, num, b.amount.currency@];
    assert(plain_word("balance"@));
    lemma_number_reads(b.amount.number.mant(), b.amount.number.scl());
    assert forall|i: int| 0 <= i < ws.len() implies plain_word(#[trigger] ws[i]) by {
        lemma_day_reads(day);
    }
    lemma_dated_line(ws, day);
    lemma_account_reads(b.account);
    lemma_commodity_reads(b.amount.currency@);
    lemma_join5(date_text(day), "balance"@, b.account.content@, num, b.amount.currency@);
    assert(directive_text(Directive::Balance(Balance::BalanceCheck(b))) =~= join_parts(ws, ' '));
    let h = bare_words(ws);
    assert(h[2] == (b.account.content@, false));
    assert(h[3] == (num, false));
    assert(h[4] == (b.amount.currency@, false));
    assert(balance_reads(Date::Date(day), h, 1, Seq::empty(), Some(Directive::Balance(Balance::BalanceCheck(b)))));
    assert(dated_reads(h, Seq::empty(), Some(Directive::Balance(Balance::BalanceCheck(b)))));
    assert(item_reads(seq![join_parts(ws, ' ')], Some(Directive::Balance(Balance::BalanceCheck(b)))));
    assert(seq![directive_text(Directive::Balance(Balance::BalanceCheck(b)))] == seq![join_parts(ws, ' ')]);
}

proof fn lemma_balance_pad_reads_back(b: BalancePad)
    requires
        one_line_directive(Directive::Balance(Balance::BalancePad(b))),
    ensures
        item_reads(seq![directive_text(Directive::Balance(Balance::BalancePad(b)))], Some(Directive::Balance(Balance::BalancePad(b)))),
{
    reveal_strlit("open");
    reveal_strlit("close");
    reveal_strlit("commodity");
    reveal_strlit("balance");
    reveal_strlit("note");
    reveal_strlit("document");
    reveal_strlit("price");
    reveal_strlit("event");
    reveal_strlit("custom");
    reveal_strlit("with");
    reveal_strlit("pad");
    reveal_strlit(" open ");
    reveal_strlit(" close ");
    reveal_strlit(" commodity ");
    reveal_strlit(" balance ");
    reveal_strlit(" price ");
    reveal_strlit(" ");
    reveal_strlit(" with pad ");
    let day = b.date->Date_0;
    lemma_scale_bound(b.amount.number);
    let num = decimal_text(b.amount.number.mant(), b.amount.number.scl());
    let ws = seq![
        date_text(day),
        "balance"@,
        b.account.content@,
        num,
        b.amount.currency@,
        "with"@,
        "pad"@,
        b.pad.content@,
    ];
    assert(plain_word("balance"@));
    assert(plain_word("with"@));
    assert(plain_word("pad"@));
    lemma_number_reads(b.amount.number.mant(), b.amount.number.scl());
    assert forall|i: int| 0 <= i < ws.len() implies plain_word(#[trigger] ws[i]) by {
        lemma_day_reads(day);
    }
    lemma_dated_line(ws, day);
    lemma_account_reads(b.account);
    lemma_account_reads(b.pad);
    lemma_commodity_reads(b.amount.currency@);
    lemma_join8(
        date_text(day),
        "balance"@,
        b.account.content@,
        num,
        b.amount.currency@,
        "with"@,
        "pad"@,
        b.pad.content@,
    );
    assert(" with pad "@ =~= seq![' '] + "with"@ + seq![' '] + "pad"@ + seq![' ']);
    assert(directive_text(Directive::Balance(Balance::BalancePad(b))) =~= join_parts(ws, ' '));
    let h = bare_words(ws);
    assert(h[2] == (b.account.content@, false));
    assert(h[3] == (num, false));
    assert(h[4] == (b.amount.currency@, false));
    assert(h[5] == ("with"@, false));
    assert(h[6] == ("pad"@, false));
    assert(h[7] == (b.pad.content@, false));
    assert(balance_reads(Date::Date(day), h, 1, Seq::empty(), Some(Directive::Balance(Balance::BalancePad(b)))));
    assert(dated_reads(h, Seq::empty(), Some(Directive::Balance(Balance::BalancePad(b)))));
    assert(item_reads(seq![join_parts(ws, ' ')], Some(Directive::Balance(Balance::BalancePad(b)))));
    assert(seq![directive_text(Directive::Balance(Balance::BalancePad(b)))] == seq![join_parts(ws, ' ')]);
}

/// Metadata with nothing in it reads as no pairs.
proof fn lemma_meta_empty_view(m: Meta)
    requires
        meta_empty(m),
    ensures
        meta_view(m) == meta_of_pairs(Seq::empty()),
{
    assert(meta_view(m).0 =~= meta_map(Seq::<(Seq<char>, StringView)>::empty()));
}

/// Three parts joined with spaces.
proof fn lemma_join3(a: Seq<char>, b: Seq<char>, c: Seq<char>)
    ensures
        join_parts(seq![a, b, c], ' ') == a + seq![' '] + b + seq![' '] + c,
{
    let ws = seq![a, b, c];
    assert(ws.drop_last() =~= seq![a, b]);
    assert(seq![a, b].drop_last() =~= seq![a]);
    assert(join_parts(seq![a], ' ') == a);
    assert(join_parts(seq![a, b], ' ') == join_parts(seq![a], ' ') + seq![' '] + b);
    assert(join_parts(ws, ' ') == join_parts(seq![a, b], ' ') + seq![' '] + c);
}

/// Five parts joined with spaces.
proof fn lemma_join5(a: Seq<char>, b: Seq<char>, c: Seq<char>, x: Seq<char>, y: Seq<char>)
    ensures
        join_parts(seq![a, b, c, x, y], ' ') == a + seq![' '] + b + seq![' '] + c + seq![' '] + x + seq![' '] + y,
{
    let ws = seq![a, b, c, x, y];
    assert(ws.drop_last() =~= seq![a, b, c, x]);
    assert(seq![a, b, c, x].drop_last() =~= seq![a, b, c]);
    lemma_join3(a, b, c);
    assert(join_parts(seq![a, b, c, x], ' ') == join_parts(seq![a, b, c], ' ') + seq![' '] + x);
    assert(join_parts(ws, ' ') == join_parts(seq![a, b, c, x], ' ') + seq![' '] + y);
}

/// Eight parts joined with spaces.
proof fn lemma_join8(
    a: Seq<char>,
    b: Seq<char>,
    c: Seq<char>,
    x: Seq<char>,
    y: Seq<char>,
    z: Seq<char>,
    u: Seq<char>,
    v: Seq<char>,
)
    ensures
        join_parts(seq![a, b, c, x, y, z, u, v], ' ') == a + seq![' '] + b + seq![' '] + c + seq![' '] + x + seq![' ']
            + y + seq![' '] + z + seq![' '] + u + seq![' '] + v,
{
    let ws = seq![a, b, c, x, y, z, u, v];
    assert(ws.drop_last() =~= seq![a, b, c, x, y, z, u]);
    assert(seq![a, b, c, x, y, z, u].drop_last() =~= seq![a, b, c, x, y, z]);
    assert(seq![a, b, c, x, y, z].drop_last() =~= seq![a, b, c, x, y]);
    lemma_join5(a, b, c, x, y);
    assert(join_parts(seq![a, b, c, x, y, z], ' ') == join_parts(seq![a, b, c, x, y], ' ') + seq![' '] + z);
    assert(join_parts(seq![a, b, c, x, y, z, u], ' ') == join_parts(seq![a, b, c, x, y, z], ' ') + seq![' '] + u);
    assert(join_parts(ws, ' ') == join_parts(seq![a, b, c, x, y, z, u], ' ') + seq![' '] + v);
}

} // verus!

verus! {

/// A time of day whose hour, minute and second are written as two digits each, between
/// colons: the word reads back as that time, with its seconds.
#[verifier::spinoff_prover]
proof fn lemma_long_time_reads(h: nat, m: nat, s: nat)
    requires
        h < 24,
        m < 60,
        s < 60,
    ensures
        ({
            let w = padded_digits(h, 2) + seq![':'] + padded_digits(m, 2) + seq![':'] + padded_digits(s, 2);
            word_time((w, false)) == Some((h as u32, m as u32, s as u32, true))
        }),
{
    assert(pow10(2) == 100) by {
        assert(pow10(0) == 1);
        assert(pow10(1) == 10);
    }
    lemma_padded_digits(h, 2);
    lemma_padded_digits(m, 2);
    lemma_padded_digits(s, 2);
    let hh = padded_digits(h, 2);
    let mm = padded_digits(m, 2);
    let ss = padded_digits(s, 2);
    let w = hh + seq![':'] + mm + seq![':'] + ss;
    assert(w.subrange(0, 2) =~= hh);
    assert(w.subrange(3, 5) =~= mm);
    assert(w.subrange(6, 8) =~= ss);
    assert(w[2] == ':');
    assert(w[5] == ':');
    assert(time_token_long(w));
    assert(!time_token_short(w));
    assert(crate::date::valid_hms(h as int, m as int, s as int));
}

/// A moment written with its seconds, `YYYY-MM-DD HH:MM:SS`, is the day's word, a space,
/// and a time word; read back, the two words give that very moment, seconds included.
#[verifier::spinoff_prover]
pub proof fn law_datetime_text_reads_back(t: crate::date::NaiveDateTime)
    requires
        valid_ymd(t.date.year as int, t.date.month as int, t.date.day as int),
        0 <= t.date.year <= 9999,
        crate::date::valid_hms(t.hour as int, t.minute as int, t.second as int),
    ensures
        ({
            let dt = date_text(t.date);
            let w = crate::date::datetime_text(t).skip(dt.len() as int + 1);
            &&& crate::date::datetime_text(t) == dt + seq![' '] + w
            &&& words_date(seq![(dt, false), (w, false)]) == Some((Date::Datetime(t), 2int))
        }),
{
    lemma_day_reads(t.date);
    lemma_long_time_reads(t.hour as nat, t.minute as nat, t.second as nat);
    let dt = date_text(t.date);
    let w = padded_digits(t.hour as nat, 2) + seq![':'] + padded_digits(t.minute as nat, 2) + seq![':']
        + padded_digits(t.second as nat, 2);
    let full = crate::date::datetime_text(t);
    assert(full =~= dt + seq![' '] + w);
    assert(full.skip(dt.len() as int + 1) =~= w);
    let h = seq![(dt, false), (w, false)];
    assert(h[0] == (dt, false));
    assert(h[1] == (w, false));
}


/// A time of day written as two-digit hour and minute between a colon reads back as that
/// time, without seconds.
#[verifier::spinoff_prover]
proof fn lemma_short_time_reads(h: nat, m: nat)
    requires
        h < 24,
        m < 60,
    ensures
        ({
            let w = padded_digits(h, 2) + seq![':'] + padded_digits(m, 2);
            word_time((w, false)) == Some((h as u32, m as u32, 0u32, false))
        }),
{
    assert(pow10(2) == 100) by {
        assert(pow10(0) == 1);
        assert(pow10(1) == 10);
    }
    lemma_padded_digits(h, 2);
    lemma_padded_digits(m, 2);
    let hh = padded_digits(h, 2);
    let mm = padded_digits(m, 2);
    let w = hh + seq![':'] + mm;
    assert(w.subrange(0, 2) =~= hh);
    assert(w.subrange(3, 5) =~= mm);
    assert(w[2] == ':');
    assert(time_token_short(w));
    assert(!time_token_long(w));
}


#[verifier::spinoff_prover]
proof fn lemma_date_hour_reads_back(t: crate::date::NaiveDateTime)
    requires
        valid_ymd(t.date.year as int, t.date.month as int, t.date.day as int),
        0 <= t.date.year <= 9999,
        crate::date::valid_hms(t.hour as int, t.minute as int, 0),
        t.second == 0,
    ensures
        exists|ws: Seq<Seq<char>>|
            #![trigger bare_words(ws)]
            ws.len() >= 1 && crate::date::spec_date_text(Date::DateHour(t)) == join_parts(ws, ' ') && words_date(bare_words(ws))
                == Some((Date::DateHour(t), ws.len() as int)),
{
    lemma_day_reads(t.date);
    lemma_short_time_reads(t.hour as nat, t.minute as nat);
    let w = padded_digits(t.hour as nat, 2) + seq![':'] + padded_digits(t.minute as nat, 2);
    let ws = seq![date_text(t.date), w];
    assert(bare_words(ws) =~= seq![(date_text(t.date), false), (w, false)]);
    assert(ws.drop_last() =~= seq![date_text(t.date)]);
    assert(join_parts(ws.drop_last(), ' ') == date_text(t.date));
    assert(ws.last() == w);
    assert(join_parts(ws, ' ') == date_text(t.date) + seq![' '] + w);
    assert(date_text(t.date) + seq![' '] + w =~= crate::date::date_hour_text(t));
    assert(bare_words(ws)[1] == (w, false));
    assert(words_date(bare_words(ws)) == Some((Date::DateHour(t), 2int)));
}

#[verifier::spinoff_prover]
proof fn lemma_datetime_words_read_back(t: crate::date::NaiveDateTime)
    requires
        valid_ymd(t.date.year as int, t.date.month as int, t.date.day as int),
        0 <= t.date.year <= 9999,
        crate::date::valid_hms(t.hour as int, t.minute as int, t.second as int),
    ensures
        exists|ws: Seq<Seq<char>>|
            #![trigger bare_words(ws)]
            ws.len() >= 1 && crate::date::spec_date_text(Date::Datetime(t)) == join_parts(ws, ' ') && words_date(bare_words(ws))
                == Some((Date::Datetime(t), ws.len() as int)),
{
    lemma_day_reads(t.date);
    lemma_long_time_reads(t.hour as nat, t.minute as nat, t.second as nat);
    let w = padded_digits(t.hour as nat, 2) + seq![':'] + padded_digits(t.minute as nat, 2) + seq![':']
        + padded_digits(t.second as nat, 2);
    let ws = seq![date_text(t.date), w];
    assert(bare_words(ws) =~= seq![(date_text(t.date), false), (w, false)]);
    assert(ws.drop_last() =~= seq![date_text(t.date)]);
    assert(join_parts(ws.drop_last(), ' ') == date_text(t.date));
    assert(ws.last() == w);
    assert(join_parts(ws, ' ') == date_text(t.date) + seq![' '] + w);
    assert(date_text(t.date) + seq![' '] + w =~= crate::date::datetime_text(t));
    assert(bare_words(ws)[1] == (w, false));
    assert(words_date(bare_words(ws)) == Some((Date::Datetime(t), 2int)));
}

/// How a date of a directive is written reads back as that date: the day alone as one
/// word, a day with an hour and minute as two words, and a full moment as two words with
/// the seconds; the words are joined by a space.
#[verifier::spinoff_prover]
pub proof fn law_date_text_reads_back(d: Date)
    requires
        valid_ymd(d.spec_naive_date().year as int, d.spec_naive_date().month as int, d.spec_naive_date().day as int),
        0 <= d.spec_naive_date().year <= 9999,
        match d {
            Date::Date(_) => true,
            Date::DateHour(t) => crate::date::valid_hms(t.hour as int, t.minute as int, 0),
            Date::Datetime(t) => crate::date::valid_hms(t.hour as int, t.minute as int, t.second as int),
        },
        d matches Date::DateHour(t) ==> t.second == 0,
    ensures
        exists|ws: Seq<Seq<char>>|
            #![trigger bare_words(ws)]
            ws.len() >= 1 && crate::date::spec_date_text(d) == join_parts(ws, ' ') && words_date(bare_words(ws)) == Some(
                (d, ws.len() as int),
            ),
{
    match d {
        Date::Date(day) => {
            lemma_day_reads(day);
            let ws = seq![date_text(day)];
            assert(bare_words(ws) =~= seq![(date_text(day), false)]);
            assert(join_parts(ws, ' ') == date_text(day));
            assert(words_date(bare_words(ws)) == Some((d, 1int)));
        },
        Date::DateHour(t) => lemma_date_hour_reads_back(t),
        Date::Datetime(t) => lemma_datetime_words_read_back(t),
    }
}

/// The names, each after the mark `c`.
pub open spec fn marked(names: Seq<Seq<char>>, c: char) -> Seq<Seq<char>> {
    names.map_values(|n: Seq<char>| seq![c] + n)
}

/// No name occurs twice.
pub open spec fn distinct_names(names: Seq<Seq<char>>) -> bool {
    forall|i: int, j: int| 0 <= i < j < names.len() ==> #[trigger] names[i] != #[trigger] names[j]
}

proof fn lemma_prefixed_marked(names: Seq<Seq<char>>, c: char)
    ensures
        crate::text::prefixed(names, seq![' ', c]) == crate::text::prefixed(marked(names, c), seq![' ']),
    decreases names.len(),
{
    if names.len() > 0 {
        lemma_prefixed_marked(names.drop_last(), c);
        assert(marked(names, c).drop_last() =~= marked(names.drop_last(), c));
        assert(marked(names, c).last() == seq![c] + names.last());
        assert(crate::text::prefixed(names.drop_last(), seq![' ', c]) + seq![' ', c] + names.last() =~= crate::text::prefixed(
            marked(names.drop_last(), c),
            seq![' '],
        ) + seq![' '] + (seq![c] + names.last()));
    }
}

proof fn lemma_prefixed_concat(a: Seq<Seq<char>>, b: Seq<Seq<char>>, p: Seq<char>)
    ensures
        crate::text::prefixed(a + b, p) == crate::text::prefixed(a, p) + crate::text::prefixed(b, p),
    decreases b.len(),
{
    if b.len() == 0 {
        assert(a + b =~= a);
        assert(crate::text::prefixed(a, p) + Seq::<char>::empty() =~= crate::text::prefixed(a, p));
    } else {
        lemma_prefixed_concat(a, b.drop_last(), p);
        assert((a + b).drop_last() =~= a + b.drop_last());
        assert((a + b).last() == b.last());
        assert(crate::text::prefixed(a, p) + crate::text::prefixed(b.drop_last(), p) + p + b.last() =~= crate::text::prefixed(a, p)
            + (crate::text::prefixed(b.drop_last(), p) + p + b.last()));
    }
}

/// Names written after a mark read back as those names, in order.
proof fn lemma_marked_names_back(names: Seq<Seq<char>>, c: char)
    requires
        distinct_names(names),
    ensures
        marked_names(bare_words(marked(names, c)), c) == names,
    decreases names.len(),
{
    if names.len() > 0 {
        let ws = bare_words(marked(names, c));
        lemma_marked_names_back(names.drop_last(), c);
        assert(ws.drop_last() =~= bare_words(marked(names.drop_last(), c)));
        let w = ws.last();
        assert(w == (seq![c] + names.last(), false));
        assert(w.0[0] == c);
        assert(w.0.drop_first() =~= names.last());
        let r = names.drop_last();
        assert(!r.contains(names.last())) by {
            if r.contains(names.last()) {
                let q = choose|q: int| 0 <= q < r.len() && r[q] == names.last();
                assert(names[q] != names[names.len() - 1]);
            }
        }
        assert(r.push(names.last()) =~= names);
    } else {
        assert(bare_words(marked(names, c)) =~= Seq::<Word>::empty());
    }
}

/// Words marked with `c` hold no name marked with another mark.
proof fn lemma_marked_names_other(names: Seq<Seq<char>>, c: char, d: char)
    requires
        c != d,
    ensures
        marked_names(bare_words(marked(names, c)), d) == Seq::<Seq<char>>::empty(),
    decreases names.len(),
{
    if names.len() > 0 {
        lemma_marked_names_other(names.drop_last(), c, d);
        assert(bare_words(marked(names, c)).drop_last() =~= bare_words(marked(names.drop_last(), c)));
        assert(bare_words(marked(names, c)).last().0[0] == c);
    } else {
        assert(bare_words(marked(names, c)) =~= Seq::<Word>::empty());
    }
}

/// Words after others that hold no name marked with `c` give their own names.
proof fn lemma_marked_names_after(a: Seq<Word>, b: Seq<Word>, c: char)
    requires
        marked_names(a, c) == Seq::<Seq<char>>::empty(),
    ensures
        marked_names(a + b, c) == marked_names(b, c),
    decreases b.len(),
{
    if b.len() == 0 {
        assert(a + b =~= a);
    } else {
        lemma_marked_names_after(a, b.drop_last(), c);
        assert((a + b).drop_last() =~= a + b.drop_last());
        assert((a + b).last() == b.last());
    }
}

/// Words before others that hold no name marked with `c` keep their names.
proof fn lemma_marked_names_before(a: Seq<Word>, b: Seq<Word>, c: char)
    requires
        marked_names(b, c) == Seq::<Seq<char>>::empty(),
    ensures
        marked_names(a + b, c) == marked_names(a, c),
    decreases b.len(),
{
    if b.len() == 0 {
        assert(a + b =~= a);
    } else {
        let r0 = marked_names(b.drop_last(), c);
        assert(marked_names(b.drop_last(), c) == Seq::<Seq<char>>::empty()) by {
            let w = b.last();
            if w.0.len() > 0 && w.0[0] == c && !r0.contains(w.0.drop_first()) {
                assert(marked_names(b, c).len() == r0.len() + 1);
            }
        }
        lemma_marked_names_before(a, b.drop_last(), c);
        assert((a + b).drop_last() =~= a + b.drop_last());
        assert((a + b).last() == b.last());
        let w = b.last();
        if w.0.len() > 0 && w.0[0] == c {
            assert(Seq::<Seq<char>>::empty().contains(w.0.drop_first()) == false);
            assert(false);
        }
    }
}

/// The tags and links of a transaction are written as words `#tag` and `^link` after a
/// space each, and those words read back as the same tags and links, in order.
pub proof fn law_tags_and_links_read_back(tags: Seq<Seq<char>>, links: Seq<Seq<char>>)
    requires
        distinct_names(tags),
        distinct_names(links),
    ensures
        crate::text::prefixed(tags, " #"@) + crate::text::prefixed(links, " ^"@) == crate::text::prefixed(
            marked(tags, '#') + marked(links, '^'),
            " "@,
        ),
        marked_names(bare_words(marked(tags, '#') + marked(links, '^')), '#') == tags,
        marked_names(bare_words(marked(tags, '#') + marked(links, '^')), '^') == links,
{
    reveal_strlit(" #");
    reveal_strlit(" ^");
    reveal_strlit(" ");
    assert(" #"@ =~= seq![' ', '#']);
    assert(" ^"@ =~= seq![' ', '^']);
    assert(" "@ =~= seq![' ']);
    lemma_prefixed_marked(tags, '#');
    lemma_prefixed_marked(links, '^');
    lemma_prefixed_concat(marked(tags, '#'), marked(links, '^'), seq![' ']);
    let a = bare_words(marked(tags, '#'));
    let b = bare_words(marked(links, '^'));
    assert(bare_words(marked(tags, '#') + marked(links, '^')) =~= a + b);
    lemma_marked_names_back(tags, '#');
    lemma_marked_names_back(links, '^');
    lemma_marked_names_other(links, '^', '#');
    lemma_marked_names_other(tags, '#', '^');
    lemma_marked_names_before(a, b, '#');
    lemma_marked_names_after(a, b, '^');
}

/// The first line of a transaction ends with its tags and links written as the words
/// `#tag` and `^link`, each after a space; those words read back as the transaction's tags
/// and links.
pub proof fn law_transaction_tags_read_back(t: crate::data::Transaction)
    requires
        distinct_names(string_views(t.tags@)),
        distinct_names(string_views(t.links@)),
    ensures
        ({
            let words = marked(string_views(t.tags@), '#') + marked(string_views(t.links@), '^');
            &&& crate::text::transaction_header(t) == crate::date::spec_date_text(t.date) + (match t.flag {
                Some(f) => " "@ + crate::models::flag_text(f),
                None => Seq::empty(),
            }) + crate::text::opt_string_text(t.payee) + crate::text::opt_string_text(t.narration)
                + crate::text::prefixed(words, " "@)
            &&& marked_names(bare_words(words), '#') == string_views(t.tags@)
            &&& marked_names(bare_words(words), '^') == string_views(t.links@)
        }),
{
    law_tags_and_links_read_back(string_views(t.tags@), string_views(t.links@));
    let head = crate::date::spec_date_text(t.date) + (match t.flag {
        Some(f) => " "@ + crate::models::flag_text(f),
        None => Seq::empty(),
    }) + crate::text::opt_string_text(t.payee) + crate::text::opt_string_text(t.narration);
    let tg = crate::text::prefixed(string_views(t.tags@), " #"@);
    let lk = crate::text::prefixed(string_views(t.links@), " ^"@);
    assert(crate::text::transaction_header(t) == head + tg + lk);
    assert(head + tg + lk =~= head + (tg + lk));
}
} // verus!
