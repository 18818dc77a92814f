use vstd::prelude::*;

use crate::account::Account;
use crate::amount::Amount;
use crate::data::{
    Balance, BalanceCheck, BalancePad, Close, Comment, Commodity, Custom, Document, Event, Include, Meta, Note,
    Open, Options, Plugin, Posting, Price, Transaction,
};
use crate::date::{Date, NaiveDateTime};
use crate::decimal::{Decimal, sub_vec};
use crate::lexer::{
    is_blank, is_blank_line, is_word, is_word_char, parse_date_token, parse_time_token, string_of_token, token_wf,
    tokenize, Token,
};
use crate::models::{Directive, Flag, SingleTotalPrice, StringOrAccount, ZhangString};
use crate::span::{SpanInfo, Spanned};
use crate::strings::{chars_of, has_no_char, join_parts, split_on, string_from_chars, string_views};
use crate::account::{account_type_of_name, has_no_colon};
use crate::grammar::{
    account_name_ok, account_named, aview, lemma_meta_insert, lemma_meta_lines_prefix, lines_words, meta_lines,
    meta_map, meta_of_pairs, meta_view, meta_words, oaview, posting_flag, lines_tokens, lemma_lines_tokens_none,
    lemma_words_strings_none, words_strings, undated_reads, commodities_from, names_follow, custom_value_reads,
    custom_words_ok, word_string, StringView, txn_ok, txn_reads, txn_flag, quoted_run, marked_names, body_pairs,
    body_postings, mark_words_ok, posting_reads, posting_words, price_words,
    pview, units_words, cost_words, dated_reads, item_reads, lemma_item_reads_some, word_account, word_commodity, words_amount, words_date, zview, Word,
};
use crate::lexer::{tview, tviews};

verus! {

/// Why a text is no ledger: the number of the first line (from 1) that could not be read.
#[derive(Debug, Clone, Copy, PartialEq, Eq)]
pub struct ParseError {
    pub line: usize,
}

/// The parser of ledger files.
pub struct ZhangParser;

/// Reads a word as an account name.
fn account_of(t: &Token) -> (r: Option<Account>)
    ensures
        match r {
            Some(a) => word_account(tview(*t)) == Some(t.text@) && account_named(a, t.text@),
            None => word_account(tview(*t)) is None,
        },
{
    if t.quoted {
        return None;
    }
    match Account::from_chars(&t.text) {
        Ok(a) => {
            proof {
                assert(join_parts(a.segments(), ':') == t.text@);
            }
            Some(a)
        },
        Err(_) => {
            proof {
                if account_name_ok(t.text@) {
                    let parts = choose|parts: Seq<Seq<char>>|
                        #![trigger join_parts(parts, ':')]
                        parts.len() >= 1 && join_parts(parts, ':') == t.text@ && (forall|i: int|
                            0 <= i < parts.len() ==> has_no_colon(#[trigger] parts[i])) && account_type_of_name(parts[0]) is Some;
                    assert(forall|i: int| 0 <= i < parts.len() ==> has_no_colon(#[trigger] parts[i]));
                }
            }
            None
        },
    }
}

/// Whether a word can name a commodity.
fn is_commodity_word(t: &Token) -> (r: bool)
    requires
        token_wf(*t),
    ensures
        r == (word_commodity(tview(*t)) is Some),
        r ==> !t.quoted && forall|i: int| 0 <= i < t.text@.len() ==> is_word_char(#[trigger] t.text@[i]),
{
    !t.quoted && t.text[0] != '{' && t.text[0] != '}' && t.text[0] != ','
}

/// Reads a number word and a commodity word as an amount.
fn amount_of(num: &Token, cur: &Token) -> (r: Option<Amount>)
    requires
        token_wf(*cur),
    ensures
        match r {
            Some(a) => words_amount(tview(*num), tview(*cur)) == Some(aview(a)),
            None => words_amount(tview(*num), tview(*cur)) is None,
        },
{
    if num.quoted || !is_commodity_word(cur) {
        return None;
    }
    match Decimal::parse_chars(&num.text) {
        Some(n) => Some(Amount { number: n, currency: string_from_chars(&cur.text) }),
        None => None,
    }
}

/// Reads a word as a commodity name.
fn commodity_of(t: &Token) -> (r: Option<String>)
    requires
        token_wf(*t),
    ensures
        match r {
            Some(c) => word_commodity(tview(*t)) == Some(c@),
            None => word_commodity(tview(*t)) is None,
        },
{
    if is_commodity_word(t) {
        Some(string_from_chars(&t.text))
    } else {
        None
    }
}

/// Reads the date at the start of a line: a day, optionally followed by a time word.
/// Also gives the position of the next word.
fn date_of(tokens: &Vec<Token>) -> (r: Option<(Date, usize)>)
    ensures
        match r {
            Some((d, k)) => words_date(tviews(tokens@)) == Some((d, k as int)) && 1 <= k <= 2 && k <= tokens@.len(),
            None => words_date(tviews(tokens@)) is None,
        },
{
    if tokens.len() == 0 || tokens[0].quoted {
        return None;
    }
    let day = match parse_date_token(&tokens[0].text) {
        Some(d) => d,
        None => return None,
    };
    if tokens.len() > 1 && !tokens[1].quoted {
        match parse_time_token(&tokens[1].text) {
            Some((h, m, s, long)) => {
                let t = NaiveDateTime { date: day, hour: h, minute: m, second: s };
                if long {
                    return Some((Date::Datetime(t), 2));
                } else {
                    return Some((Date::DateHour(t), 2));
                }
            },
            None => {},
        }
    }
    Some((Date::Date(day), 1))
}

/// Reads a metadata line `key: value`.
fn meta_line(tokens: &Vec<Token>) -> (r: Option<(String, ZhangString)>)
    requires
        forall|i: int| 0 <= i < tokens@.len() ==> token_wf(#[trigger] tokens@[i]),
    ensures
        match r {
            Some((k, v)) => meta_words(tviews(tokens@)) == Some((k@, zview(v))),
            None => meta_words(tviews(tokens@)) is None,
        },
{
    if tokens.len() != 2 || tokens[0].quoted {
        return None;
    }
    let n = tokens[0].text.len();
    if n < 2 || tokens[0].text[n - 1] != ':' {
        return None;
    }
    let key = sub_vec(&tokens[0].text, 0, n - 1);
    let value = match string_of_token(&tokens[1]) {
        Some(v) => v,
        None => return None,
    };
    proof {
        assert(tokens@[0].text@ =~= key@ + seq![':']);
    }
    Some((string_from_chars(&key), value))
}

/// Reads optional units at position `k` of a posting line (see `units_words`).
fn units_at(tokens: &Vec<Token>, k: usize) -> (r: Option<(Option<Amount>, usize)>)
    requires
        k <= tokens@.len(),
        forall|i: int| 0 <= i < tokens@.len() ==> token_wf(#[trigger] tokens@[i]),
    ensures
        match r {
            Some((u, k2)) => units_words(tviews(tokens@), k as int) == Some((oaview(u), k2 as int)) && k2
                <= tokens@.len(),
            None => units_words(tviews(tokens@), k as int) is None,
        },
{
    proof {
        reveal_strlit("{");
        reveal_strlit("@");
        reveal_strlit("@@");
    }
    let n = tokens.len();
    if k < n && !is_word(&tokens[k], "{") && !is_word(&tokens[k], "@") && !is_word(&tokens[k], "@@") {
        if n - k < 2 {
            return None;
        }
        match amount_of(&tokens[k], &tokens[k + 1]) {
            Some(a) => Some((Some(a), k + 2)),
            None => None,
        }
    } else {
        Some((None, k))
    }
}

/// Reads an optional cost at position `k` of a posting line (see `cost_words`).
fn cost_at(tokens: &Vec<Token>, k: usize) -> (r: Option<(Option<Amount>, Option<Date>, usize)>)
    requires
        k <= tokens@.len(),
        forall|i: int| 0 <= i < tokens@.len() ==> token_wf(#[trigger] tokens@[i]),
    ensures
        match r {
            Some((c, d, k2)) => cost_words(tviews(tokens@), k as int) == Some((oaview(c), d, k2 as int)) && k2
                <= tokens@.len(),
            None => cost_words(tviews(tokens@), k as int) is None,
        },
{
    proof {
        reveal_strlit("{");
        reveal_strlit("}");
        reveal_strlit(",");
    }
    let n = tokens.len();
    if k < n && is_word(&tokens[k], "{") {
        if n - k < 4 {
            return None;
        }
        let cost = match amount_of(&tokens[k + 1], &tokens[k + 2]) {
            Some(a) => a,
            None => return None,
        };
        let c = k + 3;
        if is_word(&tokens[c], ",") {
            if n - c < 3 || tokens[c + 1].quoted {
                return None;
            }
            let day = match parse_date_token(&tokens[c + 1].text) {
                Some(d) => d,
                None => return None,
            };
            if !is_word(&tokens[c + 2], "}") {
                return None;
            }
            Some((Some(cost), Some(Date::Date(day)), c + 3))
        } else if !is_word(&tokens[c], "}") {
            None
        } else {
            Some((Some(cost), None, c + 1))
        }
    } else {
        Some((None, None, k))
    }
}

/// Reads an optional price at position `k`, which must end a posting line (see
/// `price_words`).
fn price_at(tokens: &Vec<Token>, k: usize) -> (r: Option<Option<SingleTotalPrice>>)
    requires
        k <= tokens@.len(),
        forall|i: int| 0 <= i < tokens@.len() ==> token_wf(#[trigger] tokens@[i]),
    ensures
        match r {
            Some(p) => price_words(tviews(tokens@), k as int) == Some(pview(p)),
            None => price_words(tviews(tokens@), k as int) is None,
        },
{
    proof {
        reveal_strlit("@");
        reveal_strlit("@@");
    }
    let n = tokens.len();
    if k < n {
        let total = is_word(&tokens[k], "@@");
        if !total && !is_word(&tokens[k], "@") {
            return None;
        }
        if n - k < 3 {
            return None;
        }
        let a = match amount_of(&tokens[k + 1], &tokens[k + 2]) {
            Some(a) => a,
            None => return None,
        };
        if k + 3 != n {
            return None;
        }
        if total {
            Some(Some(SingleTotalPrice::Total(a)))
        } else {
            Some(Some(SingleTotalPrice::Single(a)))
        }
    } else {
        Some(None)
    }
}

/// Reads a posting line: optional flag, account, optional units, cost and price (see
/// `posting_words`).
fn posting_of(tokens: &Vec<Token>) -> (r: Option<Posting>)
    requires
        forall|i: int| 0 <= i < tokens@.len() ==> token_wf(#[trigger] tokens@[i]),
    ensures
        match r {
            Some(p) => p.meta.wf() && posting_words(tviews(tokens@)) is Some && posting_reads(
                p,
                posting_words(tviews(tokens@))->0,
            ),
            None => posting_words(tviews(tokens@)) is None,
        },
{
    let ghost ts = tviews(tokens@);
    let n = tokens.len();
    let mut a: usize = 0;
    let mut flag: Option<Flag> = None;
    if n > 0 && !tokens[0].quoted {
        match Flag::from_chars(&tokens[0].text) {
            Some(f) => {
                flag = Some(f);
                a = 1;
            },
            None => {},
        }
    }
    proof {
        assert(flag == posting_flag(ts));
    }
    if a >= n {
        return None;
    }
    let account = match account_of(&tokens[a]) {
        Some(x) => x,
        None => return None,
    };
    let (units, k2) = match units_at(tokens, a + 1) {
        Some(x) => x,
        None => return None,
    };
    let (cost, cost_date, k5) = match cost_at(tokens, k2) {
        Some(x) => x,
        None => return None,
    };
    let price = match price_at(tokens, k5) {
        Some(x) => x,
        None => return None,
    };
    let meta = Meta::new();
    Some(Posting { flag, account, units, cost, cost_date, price, meta })
}

/// The words of each line `lines[lo..hi]`.
fn tokenize_lines(lines: &Vec<Vec<char>>, lo: usize, hi: usize) -> (r: Option<Vec<Vec<Token>>>)
    requires
        lo <= hi <= lines@.len(),
    ensures
        match r {
            Some(b) => lines_tokens(line_views(lines@).subrange(lo as int, hi as int)) == Some(lines_words(b@))
                && b@.len() == hi - lo && forall|i: int, j: int|
                0 <= i < b@.len() && 0 <= j < b@[i]@.len() ==> token_wf(#[trigger] b@[i]@[j]),
            None => lines_tokens(line_views(lines@).subrange(lo as int, hi as int)) is None,
        },
{
    let ghost lv = line_views(lines@);
    let mut out: Vec<Vec<Token>> = Vec::new();
    let mut i = lo;
    proof {
        assert(lv.subrange(lo as int, lo as int) =~= Seq::<Seq<char>>::empty());
        assert(lines_words(out@) =~= Seq::<Seq<Word>>::empty());
    }
    while i < hi
        invariant
            lo <= i <= hi,
            hi <= lines@.len(),
            lv == line_views(lines@),
            out@.len() == i - lo,
            forall|a: int, b: int| 0 <= a < out@.len() && 0 <= b < out@[a]@.len() ==> token_wf(#[trigger] out@[a]@[b]),
            lines_tokens(lv.subrange(lo as int, i as int)) == Some(lines_words(out@)),
        decreases hi - i,
    {
        proof {
            assert(lv.subrange(lo as int, i + 1).drop_last() =~= lv.subrange(lo as int, i as int));
            assert(lv.subrange(lo as int, i + 1).last() == lines@[i as int]@);
        }
        match tokenize(&lines[i]) {
            Some(t) => {
                let ghost before = out@;
                out.push(t);
                proof {
                    assert(lines_words(out@) =~= lines_words(before).push(tviews(t@)));
                }
            },
            None => {
                proof {
                    let whole = lv.subrange(lo as int, hi as int);
                    assert(whole[i - lo] == lines@[i as int]@);
                    lemma_lines_tokens_none(whole, i - lo);
                }
                return None;
            },
        }
        i = i + 1;
    }
    Some(out)
}

/// Reads metadata lines.
fn meta_of_lines(body: &Vec<Vec<Token>>) -> (r: Option<Meta>)
    requires
        forall|i: int, j: int| 0 <= i < body@.len() && 0 <= j < body@[i]@.len() ==> token_wf(#[trigger] body@[i]@[j]),
    ensures
        match r {
            Some(m) => m.wf() && meta_lines(lines_words(body@)) is Some && meta_view(m) == meta_of_pairs(
                meta_lines(lines_words(body@))->0,
            ),
            None => meta_lines(lines_words(body@)) is None,
        },
{
    let ghost lw = lines_words(body@);
    let mut meta = Meta::new();
    let mut i: usize = 0;
    proof {
        assert(lw.take(0) =~= Seq::<Seq<Word>>::empty());
        assert(meta_view(meta).0 =~= meta_map(Seq::empty()));
    }
    while i < body.len()
        invariant
            lw == lines_words(body@),
            i <= body@.len(),
            meta.wf(),
            forall|a: int, b: int| 0 <= a < body@.len() && 0 <= b < body@[a]@.len() ==> token_wf(#[trigger] body@[a]@[b]),
            meta_lines(lw.take(i as int)) is Some,
            meta_view(meta) == meta_of_pairs(meta_lines(lw.take(i as int))->0),
        decreases body@.len() - i,
    {
        proof {
            assert(lw.take(i + 1).drop_last() =~= lw.take(i as int));
            assert(lw[i as int] == tviews(body@[i as int]@));
        }
        match meta_line(&body[i]) {
            Some((k, v)) => {
                let ghost before = meta;
                meta.insert(k, v);
                proof {
                    lemma_meta_insert(before, meta, k, v, meta_lines(lw.take(i as int))->0);
                }
            },
            None => {
                proof {
                    lemma_meta_lines_prefix(lw, i as int);
                }
                return None;
            },
        }
        i = i + 1;
    }
    proof {
        assert(lw.take(i as int) =~= lw);
    }
    Some(meta)
}

/// Reads `option "key" "value"`, `plugin "module" "value"..` or `include "file"`.
fn undated_item(h: &Vec<Token>) -> (r: Option<Directive>)
    requires
        h@.len() >= 1,
        forall|i: int| 0 <= i < h@.len() ==> token_wf(#[trigger] h@[i]),
    ensures
        r is Some ==> r.unwrap().spec_datetime() is None && !(r.unwrap() is Comment),
        undated_reads(tviews(h@), r),
{
    let ghost hv = tviews(h@);
    proof {
        reveal_strlit("option");
        reveal_strlit("plugin");
        reveal_strlit("include");
    }
    if is_word(&h[0], "option") {
        if h.len() != 3 {
            return None;
        }
        let key = match string_of_token(&h[1]) {
            Some(s) => s,
            None => return None,
        };
        let value = match string_of_token(&h[2]) {
            Some(s) => s,
            None => return None,
        };
        Some(Directive::Option(Options { key, value }))
    } else if is_word(&h[0], "plugin") {
        if h.len() < 2 {
            return None;
        }
        let module = match string_of_token(&h[1]) {
            Some(s) => s,
            None => return None,
        };
        let mut value: Vec<ZhangString> = Vec::new();
        let mut i: usize = 2;
        let ghost rest = hv.skip(2);
        proof {
            assert(rest.take(0) =~= Seq::<Word>::empty());
            assert(value@.map_values(|z: ZhangString| zview(z)) =~= Seq::<StringView>::empty());
        }
        while i < h.len()
            invariant
                2 <= i <= h@.len(),
                hv == tviews(h@),
                rest == hv.skip(2),
                words_strings(rest.take(i - 2)) == Some(value@.map_values(|z: ZhangString| zview(z))),
            decreases h@.len() - i,
        {
            proof {
                assert(rest.take(i - 1).drop_last() =~= rest.take(i - 2));
                assert(rest.take(i - 1).last() == tview(h@[i as int]));
            }
            match string_of_token(&h[i]) {
                Some(s) => {
                    let ghost before = value@;
                    value.push(s);
                    proof {
                        assert(value@.map_values(|z: ZhangString| zview(z)) =~= before.map_values(
                            |z: ZhangString| zview(z),
                        ).push(zview(s)));
                    }
                },
                None => {
                    proof {
                        lemma_words_strings_none(rest, i - 2);
                    }
                    return None;
                },
            }
            i = i + 1;
        }
        proof {
            assert(rest.take(i - 2) =~= rest);
        }
        Some(Directive::Plugin(Plugin { module, value }))
    } else if is_word(&h[0], "include") {
        if h.len() != 2 || !h[1].quoted {
            return None;
        }
        match string_of_token(&h[1]) {
            Some(file) => Some(Directive::Include(Include { file })),
            None => None,
        }
    } else {
        None
    }
}

/// Reads the commodities of an `open` line: names separated by commas.
fn commodity_list(h: &Vec<Token>, from: usize) -> (r: Option<Vec<String>>)
    requires
        from <= h@.len(),
        forall|i: int| 0 <= i < h@.len() ==> token_wf(#[trigger] h@[i]),
    ensures
        match r {
            Some(v) => commodities_from(tviews(h@), from as int, from as int) == Some(string_views(v@)),
            None => commodities_from(tviews(h@), from as int, from as int) is None,
        },
{
    let ghost hv = tviews(h@);
    proof {
        reveal_strlit(",");
    }
    let mut out: Vec<String> = Vec::new();
    let mut i = from;
    proof {
        match commodities_from(hv, from as int, from as int) {
            Some(r) => assert(string_views(out@) + r =~= r),
            None => {},
        }
    }
    while i < h.len()
        invariant
            from <= i <= h@.len(),
            hv == tviews(h@),
            forall|j: int| 0 <= j < h@.len() ==> token_wf(#[trigger] h@[j]),
            names_follow(commodities_from(hv, from as int, from as int), string_views(out@), commodities_from(hv, i as int, from as int)),
        decreases h@.len() - i,
    {
        let ghost start = i;
        let ghost pre = string_views(out@);
        if i > from {
            if !is_word(&h[i], ",") || i + 1 >= h.len() {
                return None;
            }
            i = i + 1;
        }
        match commodity_of(&h[i]) {
            Some(c) => {
                out.push(c);
                proof {
                    assert(string_views(out@) =~= pre.push(c@));
                    match commodities_from(hv, i + 1, from as int) {
                        Some(r) => assert(pre + (seq![c@] + r) =~= pre.push(c@) + r),
                        None => {},
                    }
                }
            },
            None => return None,
        }
        i = i + 1;
    }
    proof {
        assert(string_views(out@) + Seq::<Seq<char>>::empty() =~= string_views(out@));
    }
    Some(out)
}

/// Reads the values of a `custom` line: accounts or strings.
fn custom_values(h: &Vec<Token>, from: usize) -> (r: Option<Vec<StringOrAccount>>)
    requires
        from <= h@.len(),
    ensures
        match r {
            Some(v) => custom_words_ok(tviews(h@).skip(from as int)) && v@.len() == h@.len() - from && forall|i: int|
                0 <= i < v@.len() ==> custom_value_reads(tviews(h@)[from + i], #[trigger] v@[i]),
            None => !custom_words_ok(tviews(h@).skip(from as int)),
        },
{
    let ghost hv = tviews(h@);
    let mut out: Vec<StringOrAccount> = Vec::new();
    let mut i = from;
    while i < h.len()
        invariant
            from <= i <= h@.len(),
            hv == tviews(h@),
            out@.len() == i - from,
            forall|j: int| 0 <= j < out@.len() ==> custom_value_reads(hv[from + j], #[trigger] out@[j]),
            forall|j: int| from <= j < i ==> word_account(#[trigger] hv[j]) is Some || word_string(hv[j]) is Some,
        decreases h@.len() - i,
    {
        proof {
            assert(hv[i as int] == tview(h@[i as int]));
        }
        match account_of(&h[i]) {
            Some(a) => out.push(StringOrAccount::Account(a)),
            None => match string_of_token(&h[i]) {
                Some(s) => out.push(StringOrAccount::String(s)),
                None => {
                    proof {
                        assert(hv.skip(from as int)[i - from] == hv[i as int]);
                    }
                    return None;
                },
            },
        }
        i = i + 1;
    }
    proof {
        assert forall|j: int| 0 <= j < hv.skip(from as int).len() implies word_account(#[trigger] hv.skip(from as int)[j])
            is Some || word_string(hv.skip(from as int)[j]) is Some by {
            assert(hv.skip(from as int)[j] == hv[from + j]);
        }
    }
    Some(out)
}

/// Reads a transaction: the words of its first line after the date, and its indented lines
/// (see `txn_ok` and `txn_reads`).
#[verifier::loop_isolation(false)]
#[verifier::spinoff_prover]
#[verifier::rlimit(50)]
fn transaction_item(date: Date, h: &Vec<Token>, from: usize, body: &Vec<Vec<Token>>) -> (r: Option<Transaction>)
    requires
        from <= h@.len(),
        forall|i: int| 0 <= i < h@.len() ==> token_wf(#[trigger] h@[i]),
        forall|i: int, j: int| 0 <= i < body@.len() && 0 <= j < body@[i]@.len() ==> token_wf(#[trigger] body@[i]@[j]),
    ensures
        match r {
            Some(t) => txn_ok(tviews(h@), from as int, lines_words(body@)) && txn_reads(
                date,
                tviews(h@),
                from as int,
                lines_words(body@),
                t,
            ),
            None => !txn_ok(tviews(h@), from as int, lines_words(body@)),
        },
{
    let ghost hv = tviews(h@);
    let ghost lw = lines_words(body@);
    proof {
        reveal_strlit("*");
        reveal_strlit("!");
    }
    let n = h.len();
    let mut k = from;
    let mut flag: Option<Flag> = None;
    if k < n && (is_word(&h[k], "*") || is_word(&h[k], "!")) {
        flag = if is_word(&h[k], "*") {
            Some(Flag::Okay)
        } else {
            Some(Flag::Warning)
        };
        k = k + 1;
    }
    let k1 = k;
    proof {
        assert(flag == txn_flag(hv, from as int));
        assert(k1 == if flag is Some { from + 1 } else { from as int });
    }
    let mut strings: Vec<ZhangString> = Vec::new();
    while k < n && h[k].quoted && strings.len() < 2
        invariant
            k1 <= k <= n,
            n == h@.len(),
            hv == tviews(h@),
            strings@.len() == k - k1,
            strings@.len() <= 2,
            forall|j: int| k1 <= j < k ==> (#[trigger] hv[j]).1,
            forall|j: int| 0 <= j < strings@.len() ==> word_string(hv[k1 + j]) == Some(zview(#[trigger] strings@[j])),
        decreases n - k,
    {
        proof {
            assert(hv[k as int] == tview(h@[k as int]));
        }
        match string_of_token(&h[k]) {
            Some(s) => strings.push(s),
            None => {
                proof {
                    assert(quoted_run(hv, k1 as int) > k - k1);
                    assert(word_string(hv[k as int]) is None);
                    if k == k1 {
                        assert(word_string(hv[k1 as int]) is None);
                    } else {
                        assert(word_string(hv[k1 + 1]) is None);
                    }
                    assert(!txn_ok(hv, from as int, lw));
                }
                return None;
            },
        }
        k = k + 1;
    }
    let ns = strings.len();
    proof {
        if k < n {
            assert(hv[k as int] == tview(h@[k as int]));
        }
        assert(quoted_run(hv, k1 as int) == ns);
    }
    let k2 = k;
    let ghost s0 = if ns >= 1 { Some(zview(strings@[0])) } else { None };
    let ghost s1 = if ns >= 2 { Some(zview(strings@[1])) } else { None };
    let (payee, narration) = if ns == 0 {
        if flag.is_none() {
            return None;
        }
        (None, None)
    } else if ns == 1 {
        let s = strings.pop().unwrap();
        if flag.is_none() {
            (Some(s), None)
        } else {
            (None, Some(s))
        }
    } else {
        let narration = strings.pop().unwrap();
        let payee = strings.pop().unwrap();
        (Some(payee), Some(narration))
    };
    let mut tags: Vec<String> = Vec::new();
    let mut links: Vec<String> = Vec::new();
    proof {
        assert(hv.subrange(k2 as int, k2 as int) =~= Seq::<Word>::empty());
        assert(string_views(tags@) =~= Seq::<Seq<char>>::empty());
        assert(string_views(links@) =~= Seq::<Seq<char>>::empty());
    }
    while k < n
        invariant
            k2 <= k <= n,
            n == h@.len(),
            hv == tviews(h@),
            forall|j: int| k2 <= j < k ==> !(#[trigger] hv[j]).1 && hv[j].0.len() >= 2 && (hv[j].0[0] == '#' || hv[j].0[0] == '^'),
            string_views(tags@) == marked_names(hv.subrange(k2 as int, k as int), '#'),
            string_views(links@) == marked_names(hv.subrange(k2 as int, k as int), '^'),
        decreases n - k,
    {
        let t = &h[k];
        let len = t.text.len();
        proof {
            assert(hv[k as int] == tview(h@[k as int]));
            let ws = hv.subrange(k2 as int, k + 1);
            assert(ws.drop_last() =~= hv.subrange(k2 as int, k as int));
            assert(ws.last() == hv[k as int]);
        }
        if t.quoted || len < 2 {
            proof {
                let rest = hv.subrange(k2 as int, n as int);
                assert(rest[k - k2] == hv[k as int]);
                assert(!mark_words_ok(rest));
                assert(!txn_ok(hv, from as int, lw));
            }
            return None;
        }
        let name = string_from_chars(&sub_vec(&t.text, 1, len));
        proof {
            assert(name@ =~= hv[k as int].0.drop_first());
        }
        if t.text[0] == '#' {
            let ghost before = tags@;
            if !contains_string(&tags, &name) {
                tags.push(name);
                proof {
                    assert(string_views(tags@) =~= string_views(before).push(name@));
                    assert(!string_views(before).contains(name@)) by {
                        if string_views(before).contains(name@) {
                            let i = choose|i: int| 0 <= i < string_views(before).len() && string_views(before)[i] == name@;
                            assert(before[i]@ == name@);
                        }
                    }
                }
            } else {
                proof {
                    let i = choose|i: int| 0 <= i < before.len() && #[trigger] before[i]@ == name@;
                    assert(string_views(before)[i] == name@);
                }
            }
        } else if t.text[0] == '^' {
            let ghost before = links@;
            if !contains_string(&links, &name) {
                links.push(name);
                proof {
                    assert(string_views(links@) =~= string_views(before).push(name@));
                    assert(!string_views(before).contains(name@)) by {
                        if string_views(before).contains(name@) {
                            let i = choose|i: int| 0 <= i < string_views(before).len() && string_views(before)[i] == name@;
                            assert(before[i]@ == name@);
                        }
                    }
                }
            } else {
                proof {
                    let i = choose|i: int| 0 <= i < before.len() && #[trigger] before[i]@ == name@;
                    assert(string_views(before)[i] == name@);
                }
            }
        } else {
            proof {
                let rest = hv.subrange(k2 as int, n as int);
                assert(rest[k - k2] == hv[k as int]);
                assert(!mark_words_ok(rest));
                assert(!txn_ok(hv, from as int, lw));
            }
            return None;
        }
        k = k + 1;
    }
    proof {
        assert forall|i: int| 0 <= i < hv.subrange(k2 as int, n as int).len() implies !(#[trigger] hv.subrange(
            k2 as int,
            n as int,
        )[i]).1 && hv.subrange(k2 as int, n as int)[i].0.len() >= 2 && (hv.subrange(k2 as int, n as int)[i].0[0] == '#'
            || hv.subrange(k2 as int, n as int)[i].0[0] == '^') by {
            assert(hv.subrange(k2 as int, n as int)[i] == hv[k2 + i]);
        }
    }
    let mut postings: Vec<Posting> = Vec::new();
    let mut meta = Meta::new();
    let mut i: usize = 0;
    proof {
        assert(lw.take(0) =~= Seq::<Seq<Word>>::empty());
        assert(meta_view(meta).0 =~= meta_map(Seq::empty()));
    }
    while i < body.len()
        invariant
            i <= body@.len(),
            lw == lines_words(body@),
            meta.wf(),
            forall|a: int, b: int| 0 <= a < body@.len() && 0 <= b < body@[a]@.len() ==> token_wf(#[trigger] body@[a]@[b]),
            forall|j: int| 0 <= j < i ==> meta_words(#[trigger] lw[j]) is Some || posting_words(lw[j]) is Some,
            meta_view(meta) == meta_of_pairs(body_pairs(lw.take(i as int))),
            postings@.len() == body_postings(lw.take(i as int)).len(),
            forall|j: int|
                0 <= j < postings@.len() ==> posting_reads(#[trigger] postings@[j], body_postings(lw.take(i as int))[j]),
        decreases body@.len() - i,
    {
        proof {
            assert(lw.take(i + 1).drop_last() =~= lw.take(i as int));
            assert(lw.take(i + 1).last() == lw[i as int]);
            assert(lw[i as int] == tviews(body@[i as int]@));
        }
        match meta_line(&body[i]) {
            Some((key, value)) => {
                let ghost before = meta;
                meta.insert(key, value);
                proof {
                    lemma_meta_insert(before, meta, key, value, body_pairs(lw.take(i as int)));
                }
            },
            None => match posting_of(&body[i]) {
                Some(p) => {
                    let ghost before = postings@;
                    postings.push(p);
                    proof {
                        assert(body_postings(lw.take(i + 1)) == body_postings(lw.take(i as int)).push(posting_words(lw[i as int])->0));
                        assert forall|j: int| 0 <= j < postings@.len() implies posting_reads(
                            #[trigger] postings@[j],
                            body_postings(lw.take(i + 1))[j],
                        ) by {
                            if j < before.len() {
                                assert(postings@[j] == before[j]);
                            }
                        }
                    }
                },
                None => return None,
            },
        }
        i = i + 1;
    }
    proof {
        assert(lw.take(i as int) =~= lw);
    }
    Some(Transaction { date, flag, payee, narration, tags, links, postings, meta })
}

/// Whether the list holds the string.
pub fn contains_string(v: &Vec<String>, s: &String) -> (r: bool)
    ensures
        r == exists|i: int| 0 <= i < v@.len() && #[trigger] v@[i]@ == s@,
{
    let mut i: usize = 0;
    while i < v.len()
        invariant
            i <= v@.len(),
            forall|j: int| 0 <= j < i ==> #[trigger] v@[j]@ != s@,
        decreases v@.len() - i,
    {
        if v[i] == *s {
            return true;
        }
        i = i + 1;
    }
    false
}

/// Reads a dated directive: the words of its first line and its indented lines.
fn dated_item(h: &Vec<Token>, body: &Vec<Vec<Token>>) -> (r: Option<Directive>)
    requires
        forall|i: int| 0 <= i < h@.len() ==> token_wf(#[trigger] h@[i]),
        forall|i: int, j: int| 0 <= i < body@.len() && 0 <= j < body@[i]@.len() ==> token_wf(#[trigger] body@[i]@[j]),
    ensures
        r is Some ==> r.unwrap().spec_datetime() is Some,
        dated_reads(tviews(h@), lines_words(body@), r),
{
    proof {
        reveal_strlit("open");
        reveal_strlit("close");
        reveal_strlit("commodity");
        reveal_strlit("balance");
        reveal_strlit("note");
        reveal_strlit("document");
        reveal_strlit("price");
        reveal_strlit("event");
        reveal_strlit("custom");
        reveal_strlit("with");
        reveal_strlit("pad");
    }
    let ghost hv = tviews(h@);
    let (date, k) = match date_of(h) {
        Some(x) => x,
        None => return None,
    };
    let n = h.len();
    if k >= n {
        return None;
    }
    let kw = &h[k];
    let no_body = body.len() == 0;
    if is_word(kw, "open") {
        if n - k < 2 {
            return None;
        }
        let account = match account_of(&h[k + 1]) {
            Some(a) => a,
            None => return None,
        };
        let commodities = match commodity_list(h, k + 2) {
            Some(c) => c,
            None => return None,
        };
        let meta = match meta_of_lines(body) {
            Some(m) => m,
            None => return None,
        };
        Some(Directive::Open(Open { date, account, commodities, meta }))
    } else if is_word(kw, "close") {
        if n - k != 2 || !no_body {
            return None;
        }
        match account_of(&h[k + 1]) {
            Some(account) => Some(Directive::Close(Close { date, account, meta: Meta::new() })),
            None => None,
        }
    } else if is_word(kw, "commodity") {
        if n - k != 2 {
            return None;
        }
        let currency = match commodity_of(&h[k + 1]) {
            Some(c) => c,
            None => return None,
        };
        match meta_of_lines(body) {
            Some(meta) => Some(Directive::Commodity(Commodity { date, currency, meta })),
            None => None,
        }
    } else if is_word(kw, "balance") {
        if (n - k != 4 && n - k != 7) || !no_body {
            return None;
        }
        let account = match account_of(&h[k + 1]) {
            Some(a) => a,
            None => return None,
        };
        let amount = match amount_of(&h[k + 2], &h[k + 3]) {
            Some(a) => a,
            None => return None,
        };
        if n - k == 4 {
            Some(
                Directive::Balance(
                    Balance::BalanceCheck(
                        BalanceCheck {
                            date,
                            account,
                            amount,
                            tolerance: None,
                            distance: None,
                            current_amount: None,
                            meta: Meta::new(),
                        },
                    ),
                ),
            )
        } else {
            if !is_word(&h[k + 4], "with") || !is_word(&h[k + 5], "pad") {
                return None;
            }
            match account_of(&h[k + 6]) {
                Some(pad) => Some(
                    Directive::Balance(
                        Balance::BalancePad(
                            BalancePad {
                                date,
                                account,
                                amount,
                                tolerance: None,
                                diff_amount: None,
                                pad,
                                meta: Meta::new(),
                            },
                        ),
                    ),
                ),
                None => None,
            }
        }
    } else if is_word(kw, "note") || is_word(kw, "document") {
        if n - k != 3 || !no_body {
            return None;
        }
        let account = match account_of(&h[k + 1]) {
            Some(a) => a,
            None => return None,
        };
        let text = match string_of_token(&h[k + 2]) {
            Some(s) => s,
            None => return None,
        };
        if is_word(kw, "note") {
            Some(
                Directive::Note(
                    Note { date, account, comment: text, tags: None, links: None, meta: Meta::new() },
                ),
            )
        } else {
            Some(
                Directive::Document(
                    Document { date, account, filename: text, tags: None, links: None, meta: Meta::new() },
                ),
            )
        }
    } else if is_word(kw, "price") {
        if n - k != 4 || !no_body {
            return None;
        }
        let currency = match commodity_of(&h[k + 1]) {
            Some(c) => c,
            None => return None,
        };
        match amount_of(&h[k + 2], &h[k + 3]) {
            Some(amount) => Some(Directive::Price(Price { date, currency, amount, meta: Meta::new() })),
            None => None,
        }
    } else if is_word(kw, "event") {
        if n - k != 3 || !no_body {
            return None;
        }
        let event_type = match string_of_token(&h[k + 1]) {
            Some(s) => s,
            None => return None,
        };
        match string_of_token(&h[k + 2]) {
            Some(description) => Some(Directive::Event(Event { date, event_type, description, meta: Meta::new() })),
            None => None,
        }
    } else if is_word(kw, "custom") {
        if n - k < 2 || !no_body {
            return None;
        }
        let custom_type = match string_of_token(&h[k + 1]) {
            Some(s) => s,
            None => return None,
        };
        match custom_values(h, k + 2) {
            Some(values) => Some(Directive::Custom(Custom { date, custom_type, values, meta: Meta::new() })),
            None => None,
        }
    } else {
        match transaction_item(date, h, k, body) {
            Some(t) => Some(Directive::Transaction(t)),
            None => None,
        }
    }
}

/// The views of the lines.
pub open spec fn line_views(lines: Seq<Vec<char>>) -> Seq<Seq<char>> {
    lines.map_values(|l: Vec<char>| l@)
}

/// `p` is the text `s` cut into lines at each line feed.
pub open spec fn is_line_split(s: Seq<char>, p: Seq<Seq<char>>) -> bool {
    &&& p.len() >= 1
    &&& join_parts(p, '\n') == s
    &&& forall|i: int| 0 <= i < p.len() ==> has_no_char(#[trigger] p[i], '\n')
}

pub open spec fn blank_line(l: Seq<char>) -> bool {
    forall|i: int| 0 <= i < l.len() ==> is_blank(#[trigger] l[i])
}

pub open spec fn indented(l: Seq<char>) -> bool {
    l.len() > 0 && is_blank(l[0])
}

/// Lines `start..=end` (counted from 1) of `p` form one item: a first line that is not
/// indented, then indented lines; none of them blank.
pub open spec fn item_lines(p: Seq<Seq<char>>, start: int, end: int) -> bool {
    &&& 1 <= start <= end <= p.len()
    &&& !blank_line(p[start - 1])
    &&& !indented(p[start - 1])
    &&& forall|j: int| start <= j < end ==> !blank_line(#[trigger] p[j]) && indented(p[j])
}

/// What the parser gives for an item of lines `p`: its span, and a comment exactly for a line
/// that starts with `;`.
pub open spec fn item_read(p: Seq<Seq<char>>, d: Spanned<Directive>) -> bool {
    &&& item_lines(p, d.span.start as int, d.span.end as int)
    &&& d.span.content@ == join_parts(p.subrange(d.span.start - 1, d.span.end as int), '\n')
    &&& d.span.filename is None
    &&& (p[d.span.start - 1][0] == ';') == (d.data is Comment)
    &&& d.data is Comment ==> d.span.start == d.span.end && d.data->Comment_0.content@ == p[d.span.start - 1]
    &&& item_reads(p.subrange(d.span.start - 1, d.span.end as int), Some(d.data))
}

/// Where the item whose first line is at `j - 1` ends: after the indented lines that follow.
pub open spec fn item_end_from(p: Seq<Seq<char>>, j: int) -> int
    decreases p.len() - j,
{
    if 0 <= j < p.len() && !blank_line(p[j]) && indented(p[j]) {
        item_end_from(p, j + 1)
    } else {
        j
    }
}

pub proof fn lemma_item_end(p: Seq<Seq<char>>, j: int)
    requires
        0 <= j <= p.len(),
    ensures
        j <= item_end_from(p, j) <= p.len(),
        forall|t: int| j <= t < item_end_from(p, j) ==> !blank_line(#[trigger] p[t]) && indented(p[t]),
    decreases p.len() - j,
{
    if 0 <= j < p.len() && !blank_line(p[j]) && indented(p[j]) {
        lemma_item_end(p, j + 1);
    }
}

/// The first line from `i` on (counted from 0) where the text cannot be read: an indented
/// line that starts an item, or the first line of an item whose lines read as nothing.
pub open spec fn first_error(p: Seq<Seq<char>>, i: int) -> Option<int>
    decreases p.len() - i,
{
    if i < 0 || i >= p.len() {
        None
    } else if blank_line(p[i]) {
        first_error(p, i + 1)
    } else if indented(p[i]) {
        Some(i)
    } else {
        let j = item_end_from(p, i + 1);
        proof {
            lemma_item_end(p, i + 1);
        }
        if item_reads(p.subrange(i, j), None) {
            Some(i)
        } else {
            first_error(p, j)
        }
    }
}

/// How the parse of a text relates to its lines `p`: the directives come from items of lines
/// in the order written, every line outside them is blank; an error names the first line
/// that cannot be read.
#[verifier::opaque]
pub open spec fn lines_read_as(p: Seq<Seq<char>>, r: Result<Vec<Spanned<Directive>>, ParseError>) -> bool {
    match r {
        Ok(ds) => {
            &&& first_error(p, 0) is None
            &&& forall|k: int| 0 <= k < ds@.len() ==> item_read(p, #[trigger] ds@[k])
            &&& forall|k: int, l: int| 0 <= k < l < ds@.len() ==> #[trigger] ds@[k].span.end < #[trigger] ds@[l].span.start
            &&& forall|j: int|
                0 <= j < p.len() && (forall|k: int| 0 <= k < ds@.len() ==> !(#[trigger] ds@[k].span.start <= j + 1 <= ds@[k].span.end))
                    ==> blank_line(#[trigger] p[j])
        },
        Err(e) => 1 <= e.line <= p.len() && !blank_line(p[e.line - 1]) && first_error(p, 0) == Some(e.line - 1),
    }
}

/// How the parse of `input` relates to its lines (see `lines_read_as`).
pub open spec fn read_as(input: Seq<char>, r: Result<Vec<Spanned<Directive>>, ParseError>) -> bool {
    forall|p: Seq<Seq<char>>| #[trigger] is_line_split(input, p) ==> lines_read_as(p, r)
}

/// Lines `lo..hi` joined with line feeds.
pub(crate) fn join_lines(lines: &Vec<Vec<char>>, lo: usize, hi: usize) -> (r: Vec<char>)
    requires
        lo < hi <= lines@.len(),
    ensures
        r@ == join_parts(line_views(lines@).subrange(lo as int, hi as int), '\n'),
{
    let ghost lv = line_views(lines@);
    let mut r: Vec<char> = Vec::new();
    let mut i = lo;
    while i < hi
        invariant
            lo <= i <= hi,
            hi <= lines@.len(),
            lv == line_views(lines@),
            r@ == join_parts(lv.subrange(lo as int, i as int), '\n'),
        decreases hi - i,
    {
        let ghost before = r@;
        if i > lo {
            r.push('\n');
        }
        let mut c = lines[i].clone();
        r.append(&mut c);
        proof {
            let sub = lv.subrange(lo as int, i + 1);
            assert(sub.drop_last() =~= lv.subrange(lo as int, i as int));
            assert(sub.last() == lines@[i as int]@);
            if i == lo {
                assert(r@ =~= join_parts(sub, '\n'));
            } else {
                assert(r@ =~= join_parts(sub, '\n'));
            }
        }
        i = i + 1;
    }
    r
}

/// Reads the lines `lo..hi` as one directive.
pub(crate) fn parse_item(lines: &Vec<Vec<char>>, lo: usize, hi: usize) -> (r: Option<Directive>)
    requires
        lo < hi <= lines@.len(),
        lines@[lo as int]@.len() > 0,
    ensures
        r is Some ==> ((lines@[lo as int]@[0] == ';') == (r.unwrap() is Comment)),
        r is Some && r.unwrap() is Comment ==> hi == lo + 1 && r.unwrap()->Comment_0.content@ == lines@[lo as int]@,
        item_reads(line_views(lines@).subrange(lo as int, hi as int), r),
{
    let ghost ls = line_views(lines@).subrange(lo as int, hi as int);
    proof {
        reveal(item_reads);
        assert(ls[0] == lines@[lo as int]@);
        assert(ls.drop_first() =~= line_views(lines@).subrange(lo + 1, hi as int));
    }
    if lines[lo][0] == ';' {
        if hi != lo + 1 {
            return None;
        }
        return Some(Directive::Comment(Comment { content: string_from_chars(&lines[lo]) }));
    }
    let h = match tokenize(&lines[lo]) {
        Some(t) => t,
        None => return None,
    };
    if h.len() == 0 {
        return None;
    }
    let body = match tokenize_lines(lines, lo + 1, hi) {
        Some(b) => b,
        None => return None,
    };
    if !h[0].quoted && h[0].text.len() > 0 && '0' <= h[0].text[0] && h[0].text[0] <= '9' {
        dated_item(&h, &body)
    } else {
        if body.len() != 0 {
            return None;
        }
        undated_item(&h)
    }
}

/// Whether a line starts with a blank.
pub(crate) fn starts_indented(line: &Vec<char>) -> (r: bool)
    ensures
        r == indented(line@),
{
    line.len() > 0 && (line[0] == ' ' || line[0] == '\t' || line[0] == '\r')
}

/// The items read from the only way to cut a text into lines are how the text reads.
proof fn lemma_read_as(input: Seq<char>, lv: Seq<Seq<char>>, out: Vec<Spanned<Directive>>)
    requires
        forall|p: Seq<Seq<char>>| is_line_split(input, p) ==> p == lv,
        first_error(lv, 0) is None,
        forall|k: int| 0 <= k < out@.len() ==> item_read(lv, #[trigger] out@[k]),
        forall|k: int, l: int| 0 <= k < l < out@.len() ==> #[trigger] out@[k].span.end < #[trigger] out@[l].span.start,
        forall|j: int|
            0 <= j < lv.len() && (forall|k: int| 0 <= k < out@.len() ==> !(#[trigger] out@[k].span.start <= j + 1 <= out@[k].span.end))
                ==> blank_line(#[trigger] lv[j]),
    ensures
        read_as(input, Ok(out)),
{
    assert(lines_read_as(lv, Ok(out))) by {
        reveal(lines_read_as);
    }
    assert forall|p: Seq<Seq<char>>| #[trigger] is_line_split(input, p) implies lines_read_as(p, Ok(out)) by {
        assert(p == lv);
    }
}

/// The text whose only cut into lines has its first unreadable line at `line` reads as an
/// error there.
proof fn lemma_read_as_err(input: Seq<char>, lv: Seq<Seq<char>>, line: usize)
    requires
        forall|p: Seq<Seq<char>>| is_line_split(input, p) ==> p == lv,
        1 <= line <= lv.len(),
        !blank_line(lv[line - 1]),
        first_error(lv, 0) == Some(line - 1),
    ensures
        read_as(input, Err(ParseError { line })),
{
    assert(lines_read_as(lv, Err(ParseError { line }))) by {
        reveal(lines_read_as);
    }
    assert forall|p: Seq<Seq<char>>| #[trigger] is_line_split(input, p) implies lines_read_as(
        p,
        Err(ParseError { line }),
    ) by {
        assert(p == lv);
    }
}

/// Reads a ledger text: its directives in the order written, each with the lines it was
/// read from. Blank lines separate nothing but are allowed anywhere.
pub fn parse_zhang(input: &str) -> (r: Result<Vec<Spanned<Directive>>, ParseError>)
    ensures
        read_as(input@, r),
{
    let chars = chars_of(input);
    let lines = split_on(&chars, '\n');
    let ghost lv = line_views(lines@);
    proof {
        assert(lv =~= lines@.map_values(|l: Vec<char>| l@));
        assert forall|p: Seq<Seq<char>>| is_line_split(input@, p) implies p == lv by {
            crate::strings::lemma_split_unique_on(p, lv, '\n');
        }
    }
    let n = lines.len();
    let mut out: Vec<Spanned<Directive>> = Vec::new();
    let mut i: usize = 0;
    while i < n
        invariant
            n == lines@.len(),
            lv == line_views(lines@),
            forall|p: Seq<Seq<char>>| is_line_split(input@, p) ==> p == lv,
            i <= n,
            forall|k: int| 0 <= k < out@.len() ==> item_read(lv, #[trigger] out@[k]),
            forall|k: int| 0 <= k < out@.len() ==> #[trigger] out@[k].span.end <= i,
            forall|k: int, l: int| 0 <= k < l < out@.len() ==> #[trigger] out@[k].span.end < #[trigger] out@[l].span.start,
            forall|j: int| 0 <= j < i && (forall|k: int| 0 <= k < out@.len() ==> !(#[trigger] out@[k].span.start <= j + 1 <= out@[k].span.end))
                ==> blank_line(#[trigger] lv[j]),
            first_error(lv, 0) == first_error(lv, i as int),
        decreases n - i,
    {
        assert(lv[i as int] == lines@[i as int]@);
        if is_blank_line(&lines[i]) {
            i = i + 1;
            continue;
        }
        if starts_indented(&lines[i]) {
            proof {
                lemma_read_as_err(input@, lv, (i + 1) as usize);
            }
            return Err(ParseError { line: i + 1 });
        }
        let mut j = i + 1;
        while j < n && !is_blank_line(&lines[j]) && starts_indented(&lines[j])
            invariant
                n == lines@.len(),
                lv == line_views(lines@),
                i < j <= n,
                forall|t: int| i < t < j ==> !blank_line(#[trigger] lv[t]) && indented(lv[t]),
                item_end_from(lv, i + 1) == item_end_from(lv, j as int),
            decreases n - j,
        {
            assert(lv[j as int] == lines@[j as int]@);
            j = j + 1;
        }
        proof {
            if j < n {
                assert(lv[j as int] == lines@[j as int]@);
            }
            assert(item_end_from(lv, j as int) == j);
        }
        let data = match parse_item(&lines, i, j) {
            Some(d) => d,
            None => {
                proof {
                    lemma_read_as_err(input@, lv, (i + 1) as usize);
                }
                return Err(ParseError { line: i + 1 });
            },
        };
        proof {
            lemma_item_reads_some(lv.subrange(i as int, j as int), data);
            assert(first_error(lv, i as int) == first_error(lv, j as int));
        }
        let content = join_lines(&lines, i, j);
        let item = Spanned { data, span: SpanInfo { start: i + 1, end: j, content: string_from_chars(&content), filename: None } };
        proof {
            assert(item_lines(lv, i + 1, j as int));
        }
        let ghost prev = out@;
        out.push(item);
        proof {
            assert forall|t: int| 0 <= t < j && (forall|k: int| 0 <= k < out@.len() ==> !(#[trigger] out@[k].span.start <= t + 1 <= out@[k].span.end))
                implies blank_line(#[trigger] lv[t]) by {
                if t < i {
                    assert forall|k: int| 0 <= k < prev.len() implies !(#[trigger] prev[k].span.start <= t + 1 <= prev[k].span.end) by {
                        assert(out@[k] == prev[k]);
                    }
                } else {
                    assert(out@[out@.len() - 1].span.start <= t + 1 <= out@[out@.len() - 1].span.end);
                }
            }
        }
        i = j;
    }
    proof {
        lemma_read_as(input@, lv, out);
    }
    Ok(out)
}

impl ZhangParser {
    /// Reads a ledger text; see `parse_zhang`.
    pub fn parse(input: &str) -> (r: Result<Vec<Spanned<Directive>>, ParseError>)
        ensures
            read_as(input@, r),
    {
        parse_zhang(input)
    }
}

} // verus!
