use vstd::prelude::*;

use crate::account::{account_type_of_name, has_no_colon, Account};
use crate::amount::Amount;
use crate::data::{Meta, Posting};
use crate::models::{Directive, StringOrAccount};
use crate::data::{Balance, Transaction};
use crate::strings::string_views;
use crate::decimal::is_digit;
use crate::date::{valid_hms, valid_ymd, Date, NaiveDate, NaiveDateTime};
use crate::decimal::{fits_mantissa, number_frac_part, number_mantissa, number_syntax};
use crate::lexer::{
    Token, tviews, line_tokens,
    date_token_day, date_token_month, date_token_shape, date_token_year, snailquote_unescape, time_token_long,
    time_token_short, time_token_value,
};
use crate::models::{flag_of_text, Flag, SingleTotalPrice, ZhangString};
use crate::strings::join_parts;

verus! {

/// A word of a line: its text, and whether it is quoted.
pub type Word = (Seq<char>, bool);

/// A string as it reads: whether it was quoted, and its characters.
pub type StringView = (bool, Seq<char>);

/// An amount as it reads: its digits and scale, and its commodity.
pub type AmountView = ((int, nat), Seq<char>);

pub open spec fn zview(z: ZhangString) -> StringView {
    (z is QuoteString, z.content())
}

pub open spec fn aview(a: Amount) -> AmountView {
    ((a.number.mant(), a.number.scl()), a.currency@)
}

pub open spec fn oaview(a: Option<Amount>) -> Option<AmountView> {
    match a {
        Some(a) => Some(aview(a)),
        None => None,
    }
}

/// A price as it reads: whether it is the total price, and its amount.
pub open spec fn pview(p: Option<SingleTotalPrice>) -> Option<(bool, AmountView)> {
    match p {
        Some(SingleTotalPrice::Single(a)) => Some((false, aview(a))),
        Some(SingleTotalPrice::Total(a)) => Some((true, aview(a))),
        None => None,
    }
}

/// The word is the bare word `w`.
pub open spec fn is_kw(t: Word, w: Seq<char>) -> bool {
    !t.1 && t.0 == w
}

/// A word as a string: bare as written, or quoted with its escapes undone.
pub open spec fn word_string(t: Word) -> Option<StringView> {
    if t.1 {
        match snailquote_unescape(t.0) {
            Some(c) => Some((true, c)),
            None => None,
        }
    } else {
        Some((false, t.0))
    }
}

/// A name made of segments separated by `:`, the first one an account type.
pub open spec fn account_name_ok(v: Seq<char>) -> bool {
    exists|parts: Seq<Seq<char>>|
        #![trigger join_parts(parts, ':')]
        parts.len() >= 1 && join_parts(parts, ':') == v && (forall|i: int|
            0 <= i < parts.len() ==> has_no_colon(#[trigger] parts[i])) && account_type_of_name(parts[0]) is Some
}

/// The account is the one that the name `v` names: its segments and type come from it.
pub open spec fn account_named(a: Account, v: Seq<char>) -> bool {
    &&& a.content@ == v
    &&& a.wf()
    &&& a.segments().len() >= 1
    &&& forall|i: int| 0 <= i < a.segments().len() ==> has_no_colon(#[trigger] a.segments()[i])
    &&& account_type_of_name(a.segments()[0]) == Some(a.account_type)
}

/// A bare word that names an account.
pub open spec fn word_account(t: Word) -> Option<Seq<char>> {
    if !t.1 && account_name_ok(t.0) {
        Some(t.0)
    } else {
        None
    }
}

/// A bare word that can name a commodity: not a separator.
pub open spec fn word_commodity(t: Word) -> Option<Seq<char>> {
    if !t.1 && t.0.len() > 0 && t.0[0] != '{' && t.0[0] != '}' && t.0[0] != ',' {
        Some(t.0)
    } else {
        None
    }
}

/// A bare word that writes a number: its digits and scale.
pub open spec fn word_number(t: Word) -> Option<(int, nat)> {
    if !t.1 && number_syntax(t.0) && fits_mantissa(number_mantissa(t.0)) && number_frac_part(t.0).len()
        <= u32::MAX {
        Some((number_mantissa(t.0), number_frac_part(t.0).len()))
    } else {
        None
    }
}

/// A number word and a commodity word.
pub open spec fn words_amount(num: Word, cur: Word) -> Option<AmountView> {
    if word_number(num) is Some && word_commodity(cur) is Some {
        Some((word_number(num)->0, word_commodity(cur)->0))
    } else {
        None
    }
}

/// A bare `YYYY-MM-DD` word of a day of the calendar.
pub open spec fn word_day(t: Word) -> Option<NaiveDate> {
    if !t.1 && date_token_shape(t.0) && valid_ymd(date_token_year(t.0), date_token_month(t.0), date_token_day(t.0)) {
        Some(
            NaiveDate {
                year: date_token_year(t.0) as i32,
                month: date_token_month(t.0) as u32,
                day: date_token_day(t.0) as u32,
            },
        )
    } else {
        None
    }
}

/// A bare `HH:MM` or `HH:MM:SS` word of a time of day, and whether its seconds are written.
pub open spec fn word_time(t: Word) -> Option<(u32, u32, u32, bool)> {
    if !t.1 && (time_token_short(t.0) || time_token_long(t.0)) && valid_hms(
        time_token_value(t.0).0,
        time_token_value(t.0).1,
        time_token_value(t.0).2,
    ) {
        Some(
            (
                time_token_value(t.0).0 as u32,
                time_token_value(t.0).1 as u32,
                time_token_value(t.0).2 as u32,
                time_token_long(t.0),
            ),
        )
    } else {
        None
    }
}

/// The date that a line starts with, and the number of its words: a day, and a time when the
/// next word is one.
pub open spec fn words_date(h: Seq<Word>) -> Option<(Date, int)> {
    if h.len() == 0 || word_day(h[0]) is None {
        None
    } else {
        let day = word_day(h[0])->0;
        if h.len() > 1 && word_time(h[1]) is Some {
            let (hh, mm, ss, long) = word_time(h[1])->0;
            let t = NaiveDateTime { date: day, hour: hh, minute: mm, second: ss };
            if long {
                Some((Date::Datetime(t), 2))
            } else {
                Some((Date::DateHour(t), 2))
            }
        } else {
            Some((Date::Date(day), 1))
        }
    }
}

/// A metadata line `key: value`: its key and value.
pub open spec fn meta_words(ts: Seq<Word>) -> Option<(Seq<char>, StringView)> {
    if ts.len() == 2 && !ts[0].1 && ts[0].0.len() >= 2 && ts[0].0.last() == ':' && word_string(ts[1]) is Some {
        Some((ts[0].0.drop_last(), word_string(ts[1])->0))
    } else {
        None
    }
}

/// The values under each key after inserting the pairs in order.
pub open spec fn meta_map(pairs: Seq<(Seq<char>, StringView)>) -> Map<Seq<char>, Seq<StringView>>
    decreases pairs.len(),
{
    if pairs.len() == 0 {
        Map::empty()
    } else {
        let m = meta_map(pairs.drop_last());
        let (k, v) = pairs.last();
        m.insert(
            k,
            if m.dom().contains(k) {
                m[k].push(v)
            } else {
                seq![v]
            },
        )
    }
}

/// The keys in order of first insertion.
pub open spec fn meta_keys(pairs: Seq<(Seq<char>, StringView)>) -> Seq<Seq<char>>
    decreases pairs.len(),
{
    if pairs.len() == 0 {
        Seq::empty()
    } else {
        let ks = meta_keys(pairs.drop_last());
        if meta_map(pairs.drop_last()).dom().contains(pairs.last().0) {
            ks
        } else {
            ks.push(pairs.last().0)
        }
    }
}

/// The metadata as it reads: the values under each key, and the keys in order.
pub open spec fn meta_view(m: Meta) -> (Map<Seq<char>, Seq<StringView>>, Seq<Seq<char>>) {
    (m@.map_values(|vs: Seq<ZhangString>| vs.map_values(|z: ZhangString| zview(z))), m.key_order())
}

/// The metadata made of the pairs.
pub open spec fn meta_of_pairs(pairs: Seq<(Seq<char>, StringView)>) -> (
    Map<Seq<char>, Seq<StringView>>,
    Seq<Seq<char>>,
) {
    (meta_map(pairs), meta_keys(pairs))
}

/// The pairs of lines that are all metadata lines.
pub open spec fn meta_lines(body: Seq<Seq<Word>>) -> Option<Seq<(Seq<char>, StringView)>>
    decreases body.len(),
{
    if body.len() == 0 {
        Some(Seq::empty())
    } else {
        match (meta_lines(body.drop_last()), meta_words(body.last())) {
            (Some(ps), Some(p)) => Some(ps.push(p)),
            _ => None,
        }
    }
}

/// A posting as it reads: flag, account name, units, cost, cost date and price.
pub type PostingView = (
    Option<Flag>,
    Seq<char>,
    Option<AmountView>,
    Option<AmountView>,
    Option<Date>,
    Option<(bool, AmountView)>,
);

/// The posting is the one that reads as `v`, with no metadata of its own.
pub open spec fn posting_reads(p: Posting, v: PostingView) -> bool {
    &&& p.flag == v.0
    &&& account_named(p.account, v.1)
    &&& oaview(p.units) == v.2
    &&& oaview(p.cost) == v.3
    &&& p.cost_date == v.4
    &&& pview(p.price) == v.5
    &&& p.meta@ == Map::<Seq<char>, Seq<ZhangString>>::empty()
    &&& p.meta.key_order() == Seq::<Seq<char>>::empty()
}

/// Optional units `N C` at position `k` of a posting line: the units and the position after
/// them; none when the words there start units but are no amount.
pub open spec fn units_words(ts: Seq<Word>, k: int) -> Option<(Option<AmountView>, int)> {
    let n = ts.len();
    if k < n && !is_kw(ts[k], "{"@) && !is_kw(ts[k], "@"@) && !is_kw(ts[k], "@@"@) {
        if n - k < 2 || words_amount(ts[k], ts[k + 1]) is None {
            None
        } else {
            Some((words_amount(ts[k], ts[k + 1]), k + 2))
        }
    } else {
        Some((None, k))
    }
}

/// An optional cost `{ N C }` or `{ N C , YYYY-MM-DD }` at position `k`: the cost, its date
/// and the position after it.
pub open spec fn cost_words(ts: Seq<Word>, k: int) -> Option<(Option<AmountView>, Option<Date>, int)> {
    let n = ts.len();
    if k < n && is_kw(ts[k], "{"@) {
        if n - k < 4 || words_amount(ts[k + 1], ts[k + 2]) is None {
            None
        } else {
            let c = k + 3;
            if is_kw(ts[c], ","@) {
                if n - c < 3 || ts[c + 1].1 || word_day(ts[c + 1]) is None || !is_kw(ts[c + 2], "}"@) {
                    None
                } else {
                    Some((words_amount(ts[k + 1], ts[k + 2]), Some(Date::Date(word_day(ts[c + 1])->0)), c + 3))
                }
            } else if !is_kw(ts[c], "}"@) {
                None
            } else {
                Some((words_amount(ts[k + 1], ts[k + 2]), None, c + 1))
            }
        }
    } else {
        Some((None, None, k))
    }
}

/// An optional price `@ N C` or total price `@@ N C` at position `k`, ending the line.
pub open spec fn price_words(ts: Seq<Word>, k: int) -> Option<Option<(bool, AmountView)>> {
    let n = ts.len();
    if k < n {
        let total = is_kw(ts[k], "@@"@);
        if (!total && !is_kw(ts[k], "@"@)) || n - k < 3 || words_amount(ts[k + 1], ts[k + 2]) is None || k + 3
            != n {
            None
        } else {
            Some(Some((total, words_amount(ts[k + 1], ts[k + 2])->0)))
        }
    } else if k == n {
        Some(None)
    } else {
        None
    }
}

/// The flag that a posting line starts with, if any.
pub open spec fn posting_flag(ts: Seq<Word>) -> Option<Flag> {
    if ts.len() > 0 && !ts[0].1 {
        flag_of_text(ts[0].0)
    } else {
        None
    }
}

/// A posting line: an optional flag, an account, then optional units, cost and price, and
/// nothing more.
pub open spec fn posting_words(ts: Seq<Word>) -> Option<PostingView> {
    let fl = posting_flag(ts);
    let a: int = if fl is Some {
        1
    } else {
        0
    };
    if a >= ts.len() || word_account(ts[a]) is None {
        None
    } else {
        match units_words(ts, a + 1) {
            None => None,
            Some((units, k2)) => match cost_words(ts, k2) {
                None => None,
                Some((cost, cost_date, k5)) => match price_words(ts, k5) {
                    None => None,
                    Some(price) => Some((fl, ts[a].0, units, cost, cost_date, price)),
                },
            },
        }
    }
}

/// A line that is no metadata line leaves the lines up to it and all lines with none.
pub proof fn lemma_meta_lines_prefix(lw: Seq<Seq<Word>>, i: int)
    requires
        0 <= i < lw.len(),
        meta_words(lw[i]) is None,
    ensures
        meta_lines(lw) is None,
    decreases lw.len() - i,
{
    if i == lw.len() - 1 {
    } else {
        lemma_meta_lines_prefix(lw.drop_last(), i);
        assert(lw.drop_last()[i] == lw[i]);
    }
}

/// The words of each line.
pub open spec fn lines_words(body: Seq<Vec<Token>>) -> Seq<Seq<Word>> {
    body.map_values(|ts: Vec<Token>| tviews(ts@))
}

/// Inserting a pair into metadata that reads as some pairs gives metadata that reads as
/// those pairs and the new one.
pub proof fn lemma_meta_insert(
    before: Meta,
    after: Meta,
    k: String,
    v: ZhangString,
    pairs: Seq<(Seq<char>, StringView)>,
)
    requires
        meta_view(before) == meta_of_pairs(pairs),
        after@ == before@.insert(
            k@,
            if before@.dom().contains(k@) {
                before@[k@].push(v)
            } else {
                seq![v]
            },
        ),
        after.key_order() == if before@.dom().contains(k@) {
            before.key_order()
        } else {
            before.key_order().push(k@)
        },
    ensures
        meta_view(after) == meta_of_pairs(pairs.push((k@, zview(v)))),
{
    let np = pairs.push((k@, zview(v)));
    assert(np.drop_last() =~= pairs);
    let f = |vs: Seq<ZhangString>| vs.map_values(|z: ZhangString| zview(z));
    let mm = meta_map(pairs);
    assert(before@.map_values(f) == mm);
    assert(mm.dom() =~= before@.dom());
    assert(after@.map_values(f) =~= meta_map(np)) by {
        assert forall|x: Seq<char>| #[trigger] after@.map_values(f).dom().contains(x) == meta_map(np).dom().contains(x) by {}
        assert forall|x: Seq<char>| after@.map_values(f).dom().contains(x) implies #[trigger] after@.map_values(f)[x]
            == meta_map(np)[x] by {
            if x == k@ {
                if before@.dom().contains(k@) {
                    assert(before@[k@].push(v).map_values(|z: ZhangString| zview(z)) =~= before@[k@].map_values(
                        |z: ZhangString| zview(z),
                    ).push(zview(v)));
                    assert(mm[k@] == before@.map_values(f)[k@]);
                } else {
                    assert(seq![v].map_values(|z: ZhangString| zview(z)) =~= seq![zview(v)]);
                }
            } else {
                assert(mm[x] == before@.map_values(f)[x]);
            }
        }
    }
}

/// The words of each of the lines; none when a line has a quoted word left open.
pub open spec fn lines_tokens(ls: Seq<Seq<char>>) -> Option<Seq<Seq<Word>>>
    decreases ls.len(),
{
    if ls.len() == 0 {
        Some(Seq::empty())
    } else {
        match (lines_tokens(ls.drop_last()), line_tokens(ls.last())) {
            (Some(a), Some(b)) => Some(a.push(b)),
            _ => None,
        }
    }
}

/// The words as strings; none when one of them is no string.
pub open spec fn words_strings(ws: Seq<Word>) -> Option<Seq<StringView>>
    decreases ws.len(),
{
    if ws.len() == 0 {
        Some(Seq::empty())
    } else {
        match (words_strings(ws.drop_last()), word_string(ws.last())) {
            (Some(a), Some(b)) => Some(a.push(b)),
            _ => None,
        }
    }
}

/// Commodity names from position `i` of the words, with a comma before each but the one at
/// `from`.
pub open spec fn commodities_from(h: Seq<Word>, i: int, from: int) -> Option<Seq<Seq<char>>>
    decreases h.len() - i,
{
    if i >= h.len() || i < 0 {
        Some(Seq::empty())
    } else if i > from {
        if !is_kw(h[i], ","@) || i + 1 >= h.len() {
            None
        } else {
            match (word_commodity(h[i + 1]), commodities_from(h, i + 2, from)) {
                (Some(c), Some(r)) => Some(seq![c] + r),
                _ => None,
            }
        }
    } else {
        match (word_commodity(h[i]), commodities_from(h, i + 1, from)) {
            (Some(c), Some(r)) => Some(seq![c] + r),
            _ => None,
        }
    }
}

/// The value reads the word: an account when the word names one, else a string.
pub open spec fn custom_value_reads(w: Word, x: StringOrAccount) -> bool {
    if word_account(w) is Some {
        x matches StringOrAccount::Account(a) && account_named(a, w.0)
    } else {
        x matches StringOrAccount::String(z) && word_string(w) == Some(zview(z))
    }
}

/// Every word reads as an account or a string.
pub open spec fn custom_words_ok(ws: Seq<Word>) -> bool {
    forall|i: int| 0 <= i < ws.len() ==> word_account(#[trigger] ws[i]) is Some || word_string(ws[i]) is Some
}

/// Metadata with nothing in it.
pub open spec fn meta_empty(m: Meta) -> bool {
    m@ == Map::<Seq<char>, Seq<ZhangString>>::empty() && m.key_order() == Seq::<Seq<char>>::empty()
}

pub open spec fn ozview(z: Option<ZhangString>) -> Option<StringView> {
    match z {
        Some(z) => Some(zview(z)),
        None => None,
    }
}

/// What a line without a date reads as: `option "key" "value"`, `plugin "module" "value"..`
/// or `include "file"`; `r` is none when it reads as none of them.
pub open spec fn undated_reads(h: Seq<Word>, r: Option<Directive>) -> bool {
    if h.len() > 0 && is_kw(h[0], "option"@) {
        if h.len() == 3 && word_string(h[1]) is Some && word_string(h[2]) is Some {
            r matches Some(Directive::Option(o)) && Some(zview(o.key)) == word_string(h[1]) && Some(zview(o.value))
                == word_string(h[2])
        } else {
            r is None
        }
    } else if h.len() > 0 && is_kw(h[0], "plugin"@) {
        if h.len() >= 2 && word_string(h[1]) is Some && words_strings(h.skip(2)) is Some {
            r matches Some(Directive::Plugin(p)) && Some(zview(p.module)) == word_string(h[1]) && Some(
                p.value@.map_values(|z: ZhangString| zview(z)),
            ) == words_strings(h.skip(2))
        } else {
            r is None
        }
    } else if h.len() > 0 && is_kw(h[0], "include"@) {
        if h.len() == 2 && h[1].1 && word_string(h[1]) is Some {
            r matches Some(Directive::Include(i)) && Some(zview(i.file)) == word_string(h[1])
        } else {
            r is None
        }
    } else {
        r is None
    }
}

/// A line without words leaves the lines with none.
pub proof fn lemma_lines_tokens_none(ls: Seq<Seq<char>>, i: int)
    requires
        0 <= i < ls.len(),
        line_tokens(ls[i]) is None,
    ensures
        lines_tokens(ls) is None,
    decreases ls.len() - i,
{
    if i < ls.len() - 1 {
        lemma_lines_tokens_none(ls.drop_last(), i);
        assert(ls.drop_last()[i] == ls[i]);
    }
}

/// A word that is no string leaves the words with none.
pub proof fn lemma_words_strings_none(ws: Seq<Word>, i: int)
    requires
        0 <= i < ws.len(),
        word_string(ws[i]) is None,
    ensures
        words_strings(ws) is None,
    decreases ws.len() - i,
{
    if i < ws.len() - 1 {
        lemma_words_strings_none(ws.drop_last(), i);
        assert(ws.drop_last()[i] == ws[i]);
    }
}

/// `whole` is the names `pre` followed by `rest`, none when `rest` is none.
pub open spec fn names_follow(
    whole: Option<Seq<Seq<char>>>,
    pre: Seq<Seq<char>>,
    rest: Option<Seq<Seq<char>>>,
) -> bool {
    match rest {
        Some(r) => whole == Some(pre + r),
        None => whole is None,
    }
}

/// The flag of a transaction line at position `k`, if one is written there.
pub open spec fn txn_flag(h: Seq<Word>, k: int) -> Option<Flag> {
    if 0 <= k < h.len() && is_kw(h[k], "*"@) {
        Some(Flag::Okay)
    } else if 0 <= k < h.len() && is_kw(h[k], "!"@) {
        Some(Flag::Warning)
    } else {
        None
    }
}

/// How many quoted words, two at most, follow from position `k`.
pub open spec fn quoted_run(h: Seq<Word>, k: int) -> int {
    if 0 <= k < h.len() && h[k].1 {
        if k + 1 < h.len() && h[k + 1].1 {
            2
        } else {
            1
        }
    } else {
        0
    }
}

/// Every word is a tag `#name` or a link `^name`.
pub open spec fn mark_words_ok(ws: Seq<Word>) -> bool {
    forall|i: int|
        0 <= i < ws.len() ==> !(#[trigger] ws[i]).1 && ws[i].0.len() >= 2 && (ws[i].0[0] == '#' || ws[i].0[0] == '^')
}

/// The names of the words marked with `c`, each once, in order of first appearance.
pub open spec fn marked_names(ws: Seq<Word>, c: char) -> Seq<Seq<char>>
    decreases ws.len(),
{
    if ws.len() == 0 {
        Seq::empty()
    } else {
        let r = marked_names(ws.drop_last(), c);
        let w = ws.last();
        if w.0.len() > 0 && w.0[0] == c && !r.contains(w.0.drop_first()) {
            r.push(w.0.drop_first())
        } else {
            r
        }
    }
}

/// Every indented line of a transaction is a metadata line or a posting line.
pub open spec fn body_ok(body: Seq<Seq<Word>>) -> bool {
    forall|i: int| 0 <= i < body.len() ==> meta_words(#[trigger] body[i]) is Some || posting_words(body[i]) is Some
}

/// The metadata pairs of the metadata lines.
pub open spec fn body_pairs(body: Seq<Seq<Word>>) -> Seq<(Seq<char>, StringView)>
    decreases body.len(),
{
    if body.len() == 0 {
        Seq::empty()
    } else {
        let r = body_pairs(body.drop_last());
        match meta_words(body.last()) {
            Some(p) => r.push(p),
            None => r,
        }
    }
}

/// The postings of the other lines.
pub open spec fn body_postings(body: Seq<Seq<Word>>) -> Seq<PostingView>
    decreases body.len(),
{
    if body.len() == 0 {
        Seq::empty()
    } else {
        let r = body_postings(body.drop_last());
        if meta_words(body.last()) is Some {
            r
        } else {
            match posting_words(body.last()) {
                Some(v) => r.push(v),
                None => r,
            }
        }
    }
}

/// A transaction line from position `k`, after its date: an optional flag `*` or `!`, up to
/// two quoted strings (with no flag there must be one), tags and links; then its metadata and
/// posting lines.
pub open spec fn txn_ok(h: Seq<Word>, k: int, body: Seq<Seq<Word>>) -> bool {
    let fl = txn_flag(h, k);
    let k1 = if fl is Some {
        k + 1
    } else {
        k
    };
    let q = quoted_run(h, k1);
    &&& q >= 1 ==> word_string(h[k1]) is Some
    &&& q >= 2 ==> word_string(h[k1 + 1]) is Some
    &&& q > 0 || fl is Some
    &&& mark_words_ok(h.subrange(k1 + q, h.len() as int))
    &&& body_ok(body)
}

/// The transaction is the one that the words read as: with one string, it is the payee when
/// no flag is written and the narration otherwise; with two, the payee and the narration.
pub open spec fn txn_reads(date: Date, h: Seq<Word>, k: int, body: Seq<Seq<Word>>, t: Transaction) -> bool {
    let fl = txn_flag(h, k);
    let k1 = if fl is Some {
        k + 1
    } else {
        k
    };
    let q = quoted_run(h, k1);
    let rest = h.subrange(k1 + q, h.len() as int);
    let ps = body_postings(body);
    &&& t.date == date
    &&& t.flag == fl
    &&& ozview(t.payee) == if q == 0 || (q == 1 && fl is Some) {
        None
    } else {
        word_string(h[k1])
    }
    &&& ozview(t.narration) == if q == 0 || (q == 1 && fl is None) {
        None
    } else if q == 1 {
        word_string(h[k1])
    } else {
        word_string(h[k1 + 1])
    }
    &&& string_views(t.tags@) == marked_names(rest, '#')
    &&& string_views(t.links@) == marked_names(rest, '^')
    &&& t.postings@.len() == ps.len()
    &&& forall|i: int| 0 <= i < ps.len() ==> posting_reads(#[trigger] t.postings@[i], ps[i])
    &&& meta_view(t.meta) == meta_of_pairs(body_pairs(body))
}

/// Each name that the marked words give comes from a word of that mark followed by the name.
proof fn lemma_marked_names_from_words(ws: Seq<Word>, c: char)
    ensures
        forall|i: int|
            0 <= i < marked_names(ws, c).len() ==> exists|j: int|
                0 <= j < ws.len() && #[trigger] ws[j].0.len() > 0 && ws[j].0[0] == c && ws[j].0.drop_first()
                    == #[trigger] marked_names(ws, c)[i],
    decreases ws.len(),
{
    if ws.len() > 0 {
        lemma_marked_names_from_words(ws.drop_last(), c);
        let r = marked_names(ws.drop_last(), c);
        assert forall|i: int| 0 <= i < marked_names(ws, c).len() implies exists|j: int|
            0 <= j < ws.len() && #[trigger] ws[j].0.len() > 0 && ws[j].0[0] == c && ws[j].0.drop_first()
                == #[trigger] marked_names(ws, c)[i] by {
            if i < r.len() {
                assert(marked_names(ws, c)[i] == r[i]);
                let j = choose|j: int|
                    0 <= j < ws.drop_last().len() && #[trigger] ws.drop_last()[j].0.len() > 0 && ws.drop_last()[j].0[0] == c
                        && ws.drop_last()[j].0.drop_first() == #[trigger] r[i];
                assert(ws[j] == ws.drop_last()[j]);
            } else {
                assert(ws[ws.len() - 1] == ws.last());
            }
        }
    }
}

/// A name read from the words after `start` that carry the mark `c` comes from such a word
/// of the line.
proof fn lemma_name_in_line(h: Seq<Word>, start: int, c: char, names: Seq<String>, i: int)
    requires
        0 <= start <= h.len(),
        string_views(names) == marked_names(h.subrange(start, h.len() as int), c),
        0 <= i < names.len(),
    ensures
        exists|j: int| #![trigger h[j]] 0 <= j < h.len() && h[j].0.len() > 0 && h[j].0[0] == c && h[j].0.drop_first() == names[i]@,
{
    let rest = h.subrange(start, h.len() as int);
    lemma_marked_names_from_words(rest, c);
    assert(string_views(names)[i] == names[i]@);
    let ns = marked_names(rest, c);
    assert(ns[i] == names[i]@);
    let j = choose|j: int|
        0 <= j < rest.len() && #[trigger] rest[j].0.len() > 0 && rest[j].0[0] == c && rest[j].0.drop_first() == #[trigger] ns[i];
    assert(h[start + j] == rest[j]);
}

/// The tags of a transaction line are the names of its words `#name`, and its links those
/// of its words `^name`: the tag (and the link) at any position comes from a word of the
/// line with that mark.
pub proof fn law_transaction_marks(date: Date, h: Seq<Word>, k: int, body: Seq<Seq<Word>>, t: Transaction, i: int)
    requires
        0 <= k <= h.len(),
        txn_reads(date, h, k, body, t),
    ensures
        0 <= i < t.tags@.len() ==> exists|j: int|
            #![trigger h[j]]
            0 <= j < h.len() && h[j].0.len() > 0 && h[j].0[0] == '#' && h[j].0.drop_first() == t.tags@[i]@,
        0 <= i < t.links@.len() ==> exists|j: int|
            #![trigger h[j]]
            0 <= j < h.len() && h[j].0.len() > 0 && h[j].0[0] == '^' && h[j].0.drop_first() == t.links@[i]@,
{
    let fl = txn_flag(h, k);
    let k1 = if fl is Some {
        k + 1
    } else {
        k
    };
    let q = quoted_run(h, k1);
    if 0 <= i < t.tags@.len() {
        lemma_name_in_line(h, k1 + q, '#', t.tags@, i);
    }
    if 0 <= i < t.links@.len() {
        lemma_name_in_line(h, k1 + q, '^', t.links@, i);
    }
}

/// Which quoted strings of a transaction line are its payee and its narration: after a flag,
/// a single string is the narration and there is no payee; without a flag, a single string
/// is the payee and there is no narration; two strings are the payee and then the narration.
pub proof fn law_transaction_strings(date: Date, h: Seq<Word>, k: int, body: Seq<Seq<Word>>, t: Transaction)
    requires
        txn_ok(h, k, body),
        txn_reads(date, h, k, body, t),
    ensures
        txn_flag(h, k) is Some && quoted_run(h, k + 1) == 1 ==> t.payee is None && t.narration is Some && ozview(
            t.narration,
        ) == word_string(h[k + 1]),
        txn_flag(h, k) is None && quoted_run(h, k) == 1 ==> t.payee is Some && ozview(t.payee) == word_string(h[k])
            && t.narration is None,
        txn_flag(h, k) is Some && quoted_run(h, k + 1) == 2 ==> ozview(t.payee) == word_string(h[k + 1]) && ozview(
            t.narration,
        ) == word_string(h[k + 2]),
        txn_flag(h, k) is None && quoted_run(h, k) == 2 ==> ozview(t.payee) == word_string(h[k]) && ozview(t.narration)
            == word_string(h[k + 1]),
{
}

/// What a dated line and its indented lines read as, by the word after the date: `open`,
/// `close`, `commodity`, `balance`, `note`, `document`, `price`, `event` and `custom`
/// directives, and otherwise a transaction; `r` is none when they read as nothing.
pub open spec fn dated_reads(h: Seq<Word>, body: Seq<Seq<Word>>, r: Option<Directive>) -> bool {
    match words_date(h) {
        None => r is None,
        Some((date, k)) => {
            if k >= h.len() {
                r is None
            } else {
                let kw = h[k];
                if is_kw(kw, "open"@) {
                    open_reads(date, h, k, body, r)
                } else if is_kw(kw, "close"@) {
                    close_reads(date, h, k, body, r)
                } else if is_kw(kw, "commodity"@) {
                    commodity_reads(date, h, k, body, r)
                } else if is_kw(kw, "balance"@) {
                    balance_reads(date, h, k, body, r)
                } else if is_kw(kw, "note"@) || is_kw(kw, "document"@) {
                    note_reads(date, h, k, body, r)
                } else if is_kw(kw, "price"@) {
                    price_reads(date, h, k, body, r)
                } else if is_kw(kw, "event"@) {
                    event_reads(date, h, k, body, r)
                } else if is_kw(kw, "custom"@) {
                    custom_reads(date, h, k, body, r)
                } else if txn_ok(h, k, body) {
                    r matches Some(Directive::Transaction(t)) && txn_reads(date, h, k, body, t)
                } else {
                    r is None
                }
            }
        },
    }
}

/// `open Account C1, C2..` with metadata lines.
pub open spec fn open_reads(date: Date, h: Seq<Word>, k: int, body: Seq<Seq<Word>>, r: Option<Directive>) -> bool {
    if h.len() - k >= 2 && word_account(h[k + 1]) is Some && commodities_from(h, k + 2, k + 2) is Some && meta_lines(
        body,
    ) is Some {
        r matches Some(Directive::Open(o)) && o.date == date && account_named(o.account, h[k + 1].0) && Some(
            string_views(o.commodities@),
        ) == commodities_from(h, k + 2, k + 2) && meta_view(o.meta) == meta_of_pairs(meta_lines(body)->0)
    } else {
        r is None
    }
}

/// `close Account`, alone.
pub open spec fn close_reads(date: Date, h: Seq<Word>, k: int, body: Seq<Seq<Word>>, r: Option<Directive>) -> bool {
    if h.len() - k == 2 && body.len() == 0 && word_account(h[k + 1]) is Some {
        r matches Some(Directive::Close(c)) && c.date == date && account_named(c.account, h[k + 1].0) && meta_empty(
            c.meta,
        )
    } else {
        r is None
    }
}

/// `commodity C` with metadata lines.
pub open spec fn commodity_reads(date: Date, h: Seq<Word>, k: int, body: Seq<Seq<Word>>, r: Option<Directive>) -> bool {
    if h.len() - k == 2 && word_commodity(h[k + 1]) is Some && meta_lines(body) is Some {
        r matches Some(Directive::Commodity(c)) && c.date == date && Some(c.currency@) == word_commodity(h[k + 1])
            && meta_view(c.meta) == meta_of_pairs(meta_lines(body)->0)
    } else {
        r is None
    }
}

/// `balance Account N C`, or `balance Account N C with pad Account`, alone.
pub open spec fn balance_reads(date: Date, h: Seq<Word>, k: int, body: Seq<Seq<Word>>, r: Option<Directive>) -> bool {
    let n = h.len();
    if (n - k == 4 || n - k == 7) && body.len() == 0 && word_account(h[k + 1]) is Some && words_amount(h[k + 2], h[k + 3])
        is Some {
        if n - k == 4 {
            r matches Some(Directive::Balance(Balance::BalanceCheck(b))) && b.date == date && account_named(
                b.account,
                h[k + 1].0,
            ) && Some(aview(b.amount)) == words_amount(h[k + 2], h[k + 3]) && b.tolerance is None && b.distance is None
                && b.current_amount is None && meta_empty(b.meta)
        } else if is_kw(h[k + 4], "with"@) && is_kw(h[k + 5], "pad"@) && word_account(h[k + 6]) is Some {
            r matches Some(Directive::Balance(Balance::BalancePad(b))) && b.date == date && account_named(
                b.account,
                h[k + 1].0,
            ) && Some(aview(b.amount)) == words_amount(h[k + 2], h[k + 3]) && account_named(b.pad, h[k + 6].0)
                && b.tolerance is None && b.diff_amount is None && meta_empty(b.meta)
        } else {
            r is None
        }
    } else {
        r is None
    }
}

/// `note Account "text"` or `document Account "file"`, alone.
pub open spec fn note_reads(date: Date, h: Seq<Word>, k: int, body: Seq<Seq<Word>>, r: Option<Directive>) -> bool {
    if h.len() - k == 3 && body.len() == 0 && word_account(h[k + 1]) is Some && word_string(h[k + 2]) is Some {
        if is_kw(h[k], "note"@) {
            r matches Some(Directive::Note(x)) && x.date == date && account_named(x.account, h[k + 1].0) && Some(
                zview(x.comment),
            ) == word_string(h[k + 2]) && x.tags is None && x.links is None && meta_empty(x.meta)
        } else {
            r matches Some(Directive::Document(x)) && x.date == date && account_named(x.account, h[k + 1].0) && Some(
                zview(x.filename),
            ) == word_string(h[k + 2]) && x.tags is None && x.links is None && meta_empty(x.meta)
        }
    } else {
        r is None
    }
}

/// `price C N C`, alone.
pub open spec fn price_reads(date: Date, h: Seq<Word>, k: int, body: Seq<Seq<Word>>, r: Option<Directive>) -> bool {
    if h.len() - k == 4 && body.len() == 0 && word_commodity(h[k + 1]) is Some && words_amount(h[k + 2], h[k + 3]) is Some {
        r matches Some(Directive::Price(p)) && p.date == date && Some(p.currency@) == word_commodity(h[k + 1]) && Some(
            aview(p.amount),
        ) == words_amount(h[k + 2], h[k + 3]) && meta_empty(p.meta)
    } else {
        r is None
    }
}

/// `event "type" "description"`, alone.
pub open spec fn event_reads(date: Date, h: Seq<Word>, k: int, body: Seq<Seq<Word>>, r: Option<Directive>) -> bool {
    if h.len() - k == 3 && body.len() == 0 && word_string(h[k + 1]) is Some && word_string(h[k + 2]) is Some {
        r matches Some(Directive::Event(e)) && e.date == date && Some(zview(e.event_type)) == word_string(h[k + 1])
            && Some(zview(e.description)) == word_string(h[k + 2]) && meta_empty(e.meta)
    } else {
        r is None
    }
}

/// `custom "type" values..`, alone.
pub open spec fn custom_reads(date: Date, h: Seq<Word>, k: int, body: Seq<Seq<Word>>, r: Option<Directive>) -> bool {
    if h.len() - k >= 2 && body.len() == 0 && word_string(h[k + 1]) is Some && custom_words_ok(h.skip(k + 2)) {
        r matches Some(Directive::Custom(c)) && c.date == date && Some(zview(c.custom_type)) == word_string(h[k + 1])
            && c.values@.len() == h.len() - k - 2 && (forall|i: int|
            0 <= i < c.values@.len() ==> custom_value_reads(h[k + 2 + i], #[trigger] c.values@[i])) && meta_empty(
            c.meta,
        )
    } else {
        r is None
    }
}

/// What the lines of an item read as: a comment when its first line starts with `;` (and it
/// has no other line); otherwise, by the words of its lines, a dated directive when its first
/// word is bare and starts with a digit, else an undated one, which has no indented lines.
/// `r` is none when they read as nothing.
#[verifier::opaque]
pub open spec fn item_reads(ls: Seq<Seq<char>>, r: Option<Directive>) -> bool {
    if ls.len() > 0 && ls[0].len() > 0 && ls[0][0] == ';' {
        if ls.len() == 1 {
            r matches Some(Directive::Comment(c)) && c.content@ == ls[0]
        } else {
            r is None
        }
    } else if ls.len() == 0 {
        r is None
    } else {
        match (line_tokens(ls[0]), lines_tokens(ls.drop_first())) {
            (Some(h), Some(body)) => if h.len() == 0 {
                r is None
            } else if !h[0].1 && h[0].0.len() > 0 && is_digit(h[0].0[0]) {
                dated_reads(h, body, r)
            } else if body.len() != 0 {
                r is None
            } else {
                undated_reads(h, r)
            },
            _ => r is None,
        }
    }
}

/// Lines that read as a directive do not read as nothing.
pub proof fn lemma_item_reads_some(ls: Seq<Seq<char>>, d: Directive)
    requires
        item_reads(ls, Some(d)),
    ensures
        !item_reads(ls, None),
{
    reveal(item_reads);
}

} // verus!
