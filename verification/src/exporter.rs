use vstd::prelude::*;

use crate::data::{Balance, BalanceCheck, BalancePad, Close, Commodity, Custom, Document, Event, Meta, Note, Open, Price, Transaction};
use crate::date::{padded_digits, push_padded, Date, NaiveDateTime};
use crate::models::{Directive, ZhangString};
use crate::strings::string_from_chars;

verus! {

/// `HH:MM:SS` of a moment.
pub open spec fn time_text(t: NaiveDateTime) -> Seq<char> {
    padded_digits(t.hour as nat, 2) + seq![':'] + padded_digits(t.minute as nat, 2) + seq![':'] + padded_digits(
        t.second as nat,
        2,
    )
}

/// `after` is `before` with the time of `t` appended to its `time` values, as a quoted
/// string.
pub open spec fn with_time(before: Meta, after: Meta, t: NaiveDateTime) -> bool {
    let old_times = if before@.dom().contains("time"@) { before@["time"@] } else { Seq::empty() };
    &&& after@.dom() == before@.dom().insert("time"@)
    &&& forall|k: Seq<char>| k != "time"@ && #[trigger] before@.dom().contains(k) ==> after@[k] == before@[k]
    &&& after@["time"@].len() == old_times.len() + 1
    &&& after@["time"@].drop_last() == old_times
    &&& after@["time"@].last() matches ZhangString::QuoteString(s) && s@ == time_text(t)
}

/// The time of a moment as written in metadata.
fn time_string(t: &NaiveDateTime) -> (r: String)
    ensures
        r@ == time_text(*t),
{
    let mut out: Vec<char> = Vec::new();
    push_padded(&mut out, t.hour as i128, 2);
    out.push(':');
    push_padded(&mut out, t.minute as i128, 2);
    out.push(':');
    push_padded(&mut out, t.second as i128, 2);
    proof {
        assert(out@ =~= time_text(*t));
    }
    string_from_chars(&out)
}

/// Appends the time of a moment to the `time` values of the metadata.
fn add_time(meta: &mut Meta, t: &NaiveDateTime)
    ensures
        with_time(*old(meta), *final(meta), *t),
{
    let s = time_string(t);
    let ghost v = ZhangString::QuoteString(s);
    meta.insert("time".to_owned(), ZhangString::QuoteString(s));
    proof {
        let k = "time"@;
        if old(meta)@.dom().contains(k) {
            assert(meta@[k] == old(meta)@[k].push(v));
            assert(meta@[k].drop_last() =~= old(meta)@[k]);
        } else {
            assert(meta@[k] == seq![v]);
            assert(meta@[k].drop_last() =~= Seq::<ZhangString>::empty());
        }
        assert(meta@.dom() =~= old(meta)@.dom().insert(k));
    }
}

/// What exporting to beancount makes of a directive: a directive dated with a time of day
/// (a balance: with an hour too) is dated by its day, and its time goes to its `time`
/// metadata; other directives stay as they are.
pub open spec fn converted(d: Directive, r: Directive) -> bool {
    match d {
        Directive::Open(x) => match x.date {
            Date::Datetime(t) => r matches Directive::Open(y) && y == (Open { date: Date::Date(t.date), meta: y.meta, ..x })
                && with_time(x.meta, y.meta, t),
            _ => r == d,
        },
        Directive::Close(x) => match x.date {
            Date::Datetime(t) => r matches Directive::Close(y) && y == (Close { date: Date::Date(t.date), meta: y.meta, ..x })
                && with_time(x.meta, y.meta, t),
            _ => r == d,
        },
        Directive::Commodity(x) => match x.date {
            Date::Datetime(t) => r matches Directive::Commodity(y) && y == (Commodity {
                date: Date::Date(t.date),
                meta: y.meta,
                ..x
            }) && with_time(x.meta, y.meta, t),
            _ => r == d,
        },
        Directive::Transaction(x) => match x.date {
            Date::Datetime(t) => r matches Directive::Transaction(y) && y == (Transaction {
                date: Date::Date(t.date),
                meta: y.meta,
                ..x
            }) && with_time(x.meta, y.meta, t),
            _ => r == d,
        },
        Directive::Note(x) => match x.date {
            Date::Datetime(t) => r matches Directive::Note(y) && y == (Note { date: Date::Date(t.date), meta: y.meta, ..x })
                && with_time(x.meta, y.meta, t),
            _ => r == d,
        },
        Directive::Document(x) => match x.date {
            Date::Datetime(t) => r matches Directive::Document(y) && y == (Document {
                date: Date::Date(t.date),
                meta: y.meta,
                ..x
            }) && with_time(x.meta, y.meta, t),
            _ => r == d,
        },
        Directive::Price(x) => match x.date {
            Date::Datetime(t) => r matches Directive::Price(y) && y == (Price { date: Date::Date(t.date), meta: y.meta, ..x })
                && with_time(x.meta, y.meta, t),
            _ => r == d,
        },
        Directive::Event(x) => match x.date {
            Date::Datetime(t) => r matches Directive::Event(y) && y == (Event { date: Date::Date(t.date), meta: y.meta, ..x })
                && with_time(x.meta, y.meta, t),
            _ => r == d,
        },
        Directive::Custom(x) => match x.date {
            Date::Datetime(t) => r matches Directive::Custom(y) && y == (Custom { date: Date::Date(t.date), meta: y.meta, ..x })
                && with_time(x.meta, y.meta, t),
            _ => r == d,
        },
        Directive::Balance(Balance::BalanceCheck(x)) => match x.date {
            Date::Date(_) => r == d,
            Date::DateHour(t) | Date::Datetime(t) => r matches Directive::Balance(Balance::BalanceCheck(y)) && y == (BalanceCheck {
                date: Date::Date(t.date),
                meta: y.meta,
                ..x
            }) && with_time(x.meta, y.meta, t),
        },
        Directive::Balance(Balance::BalancePad(x)) => match x.date {
            Date::Date(_) => r == d,
            Date::DateHour(t) | Date::Datetime(t) => r matches Directive::Balance(Balance::BalancePad(y)) && y == (BalancePad {
                date: Date::Date(t.date),
                meta: y.meta,
                ..x
            }) && with_time(x.meta, y.meta, t),
        },
        _ => r == d,
    }
}

/// Dates a directive by its day for beancount, keeping its time in its `time` metadata; see
/// `converted`.
pub fn convert_datetime_to_date(directive: Directive) -> (r: Directive)
    ensures
        converted(directive, r),
{
    match directive {
        Directive::Open(mut x) => {
            if let Date::Datetime(t) = x.date {
                x.date = Date::Date(t.date);
                add_time(&mut x.meta, &t);
            }
            Directive::Open(x)
        },
        Directive::Close(mut x) => {
            if let Date::Datetime(t) = x.date {
                x.date = Date::Date(t.date);
                add_time(&mut x.meta, &t);
            }
            Directive::Close(x)
        },
        Directive::Commodity(mut x) => {
            if let Date::Datetime(t) = x.date {
                x.date = Date::Date(t.date);
                add_time(&mut x.meta, &t);
            }
            Directive::Commodity(x)
        },
        Directive::Transaction(mut x) => {
            if let Date::Datetime(t) = x.date {
                x.date = Date::Date(t.date);
                add_time(&mut x.meta, &t);
            }
            Directive::Transaction(x)
        },
        Directive::Note(mut x) => {
            if let Date::Datetime(t) = x.date {
                x.date = Date::Date(t.date);
                add_time(&mut x.meta, &t);
            }
            Directive::Note(x)
        },
        Directive::Document(mut x) => {
            if let Date::Datetime(t) = x.date {
                x.date = Date::Date(t.date);
                add_time(&mut x.meta, &t);
            }
            Directive::Document(x)
        },
        Directive::Price(mut x) => {
            if let Date::Datetime(t) = x.date {
                x.date = Date::Date(t.date);
                add_time(&mut x.meta, &t);
            }
            Directive::Price(x)
        },
        Directive::Event(mut x) => {
            if let Date::Datetime(t) = x.date {
                x.date = Date::Date(t.date);
                add_time(&mut x.meta, &t);
            }
            Directive::Event(x)
        },
        Directive::Custom(mut x) => {
            if let Date::Datetime(t) = x.date {
                x.date = Date::Date(t.date);
                add_time(&mut x.meta, &t);
            }
            Directive::Custom(x)
        },
        Directive::Balance(Balance::BalanceCheck(mut x)) => {
            match x.date {
                Date::DateHour(t) | Date::Datetime(t) => {
                    x.date = Date::Date(t.date);
                    add_time(&mut x.meta, &t);
                },
                Date::Date(_) => {},
            }
            Directive::Balance(Balance::BalanceCheck(x))
        },
        Directive::Balance(Balance::BalancePad(mut x)) => {
            match x.date {
                Date::DateHour(t) | Date::Datetime(t) => {
                    x.date = Date::Date(t.date);
                    add_time(&mut x.meta, &t);
                },
                Date::Date(_) => {},
            }
            Directive::Balance(Balance::BalancePad(x))
        },
        other => other,
    }
}

} // verus!
