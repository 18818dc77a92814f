use vstd::prelude::*;

use crate::account::{account_type_name, AccountType};
use crate::amount::{amount_text, Amount};
use crate::data::{Balance, Custom, Meta, Open, Plugin, Posting, Transaction};
use crate::date::{push_date_text, spec_date_text};
use crate::models::{flag_text, Directive, Flag, SingleTotalPrice, StringOrAccount, ZhangString};
use crate::multi_value_map::flatten_pairs;
use crate::strings::{push_str_chars, push_string_chars, string_from_chars, string_views};

verus! {

/// Values that can be written into a ledger file.
pub trait ToAvaroFile {
    /// The text of the value in a ledger file.
    spec fn file_text(&self) -> Seq<char>;

    fn to_text(&self) -> (r: String)
        ensures
            r@ == self.file_text(),
    ;
}

/// Metadata lines, each `\n  key: value`.
pub open spec fn meta_text(pairs: Seq<(Seq<char>, ZhangString)>) -> Seq<char>
    decreases pairs.len(),
{
    if pairs.len() == 0 {
        Seq::empty()
    } else {
        meta_text(pairs.drop_last()) + "\n  "@ + pairs.last().0 + ": "@ + pairs.last().1.text()
    }
}

/// The metadata lines of a map, keys in order of first insertion.
pub open spec fn meta_of(m: Meta) -> Seq<char> {
    meta_text(flatten_pairs(m.key_order(), m.value_lists()))
}

/// The parts with `sep` between neighbours.
pub open spec fn join_with(parts: Seq<Seq<char>>, sep: Seq<char>) -> Seq<char>
    decreases parts.len(),
{
    if parts.len() == 0 {
        Seq::empty()
    } else if parts.len() == 1 {
        parts[0]
    } else {
        join_with(parts.drop_last(), sep) + sep + parts.last()
    }
}

/// Each part after `pre`, one after the other.
pub open spec fn prefixed(parts: Seq<Seq<char>>, pre: Seq<char>) -> Seq<char>
    decreases parts.len(),
{
    if parts.len() == 0 {
        Seq::empty()
    } else {
        prefixed(parts.drop_last(), pre) + pre + parts.last()
    }
}

pub open spec fn opt_flag_text(f: Option<Flag>, after: Seq<char>) -> Seq<char> {
    match f {
        Some(f) => flag_text(f) + after,
        None => Seq::empty(),
    }
}

pub open spec fn units_text(u: Option<Amount>) -> Seq<char> {
    match u {
        Some(a) => " "@ + amount_text(a),
        None => Seq::empty(),
    }
}

pub open spec fn cost_text(c: Option<Amount>, d: Option<crate::date::Date>) -> Seq<char> {
    match c {
        Some(c) => " { "@ + amount_text(c) + (match d {
            Some(d) => ", "@ + spec_date_text(d),
            None => Seq::empty(),
        }) + " }"@,
        None => Seq::empty(),
    }
}

pub open spec fn price_text(p: Option<SingleTotalPrice>) -> Seq<char> {
    match p {
        Some(SingleTotalPrice::Single(a)) => " @ "@ + amount_text(a),
        Some(SingleTotalPrice::Total(a)) => " @@ "@ + amount_text(a),
        None => Seq::empty(),
    }
}

/// How a posting is written: flag, account, units, cost with its date, and price.
pub open spec fn posting_text(p: Posting) -> Seq<char> {
    opt_flag_text(p.flag, " "@) + p.account.content@ + units_text(p.units) + cost_text(p.cost, p.cost_date)
        + price_text(p.price)
}

/// The posting lines of a transaction, each `\n  posting`.
pub open spec fn postings_text(ps: Seq<Posting>) -> Seq<char>
    decreases ps.len(),
{
    if ps.len() == 0 {
        Seq::empty()
    } else {
        postings_text(ps.drop_last()) + "\n  "@ + posting_text(ps.last())
    }
}

pub open spec fn opt_string_text(s: Option<ZhangString>) -> Seq<char> {
    match s {
        Some(z) => " "@ + z.text(),
        None => Seq::empty(),
    }
}

/// The first line of a transaction: date, flag, payee, narration, tags and links.
pub open spec fn transaction_header(t: Transaction) -> Seq<char> {
    spec_date_text(t.date) + (match t.flag {
        Some(f) => " "@ + flag_text(f),
        None => Seq::empty(),
    }) + opt_string_text(t.payee) + opt_string_text(t.narration) + prefixed(string_views(t.tags@), " #"@)
        + prefixed(string_views(t.links@), " ^"@)
}

pub open spec fn transaction_text(t: Transaction) -> Seq<char> {
    transaction_header(t) + postings_text(t.postings@) + meta_of(t.meta)
}

pub open spec fn string_texts(v: Seq<ZhangString>) -> Seq<Seq<char>> {
    v.map_values(|z: ZhangString| z.text())
}

pub open spec fn string_or_account_text(v: StringOrAccount) -> Seq<char> {
    match v {
        StringOrAccount::String(z) => z.text(),
        StringOrAccount::Account(a) => a.content@,
    }
}

pub open spec fn string_or_account_texts(v: Seq<StringOrAccount>) -> Seq<Seq<char>> {
    v.map_values(|x: StringOrAccount| string_or_account_text(x))
}

pub open spec fn open_text(o: Open) -> Seq<char> {
    spec_date_text(o.date) + " open "@ + o.account.content@ + (if o.commodities@.len() == 0 {
        Seq::empty()
    } else {
        " "@ + join_with(string_views(o.commodities@), ", "@)
    }) + meta_of(o.meta)
}

pub open spec fn balance_text(b: Balance) -> Seq<char> {
    match b {
        Balance::BalanceCheck(b) => spec_date_text(b.date) + " balance "@ + b.account.content@ + " "@
            + amount_text(b.amount),
        Balance::BalancePad(b) => spec_date_text(b.date) + " balance "@ + b.account.content@ + " "@
            + amount_text(b.amount) + " with pad "@ + b.pad.content@,
    }
}

pub open spec fn custom_text(c: Custom) -> Seq<char> {
    spec_date_text(c.date) + " custom "@ + c.custom_type.text() + prefixed(string_or_account_texts(c.values@), " "@)
}

pub open spec fn plugin_text(p: Plugin) -> Seq<char> {
    "plugin "@ + p.module.text() + prefixed(string_texts(p.value@), " "@)
}

/// How a directive is written in a ledger file.
pub open spec fn directive_text(d: Directive) -> Seq<char> {
    match d {
        Directive::Open(o) => open_text(o),
        Directive::Close(c) => spec_date_text(c.date) + " close "@ + c.account.content@,
        Directive::Commodity(c) => spec_date_text(c.date) + " commodity "@ + c.currency@ + meta_of(c.meta),
        Directive::Transaction(t) => transaction_text(t),
        Directive::Balance(b) => balance_text(b),
        Directive::Note(n) => spec_date_text(n.date) + " note "@ + n.account.content@ + " "@ + n.comment.text(),
        Directive::Document(x) => spec_date_text(x.date) + " document "@ + x.account.content@ + " "@
            + x.filename.text(),
        Directive::Price(p) => spec_date_text(p.date) + " price "@ + p.currency@ + " "@ + amount_text(p.amount),
        Directive::Event(e) => spec_date_text(e.date) + " event "@ + e.event_type.text() + " "@
            + e.description.text(),
        Directive::Custom(c) => custom_text(c),
        Directive::Option(o) => "option "@ + o.key.text() + " "@ + o.value.text(),
        Directive::Plugin(p) => plugin_text(p),
        Directive::Include(i) => "include "@ + i.file.text(),
        Directive::Comment(c) => c.content@,
    }
}

/// Appends the metadata lines of a map.
pub fn push_meta(out: &mut Vec<char>, m: &Meta)
    ensures
        final(out)@ == old(out)@ + meta_of(*m),
{
    let pairs = m.pairs();
    let ghost full = flatten_pairs(m.key_order(), m.value_lists());
    let ghost start = out@;
    let ghost pv = pairs@.map_values(|p: (&String, &ZhangString)| (p.0@, *p.1));
    assert(pv == full);
    let mut i: usize = 0;
    while i < pairs.len()
        invariant
            i <= pairs@.len(),
            pv == pairs@.map_values(|p: (&String, &ZhangString)| (p.0@, *p.1)),
            out@ == start + meta_text(pv.take(i as int)),
        decreases pairs@.len() - i,
    {
        let (k, v) = pairs[i];
        push_str_chars(out, "\n  ");
        push_string_chars(out, k);
        push_str_chars(out, ": ");
        v.push_text(out);
        proof {
            assert(pv.take(i + 1).drop_last() =~= pv.take(i as int));
            assert(pv.take(i + 1).last() == (k@, *v));
            assert(out@ =~= start + meta_text(pv.take(i + 1)));
        }
        i = i + 1;
    }
    proof {
        assert(pv.take(pairs@.len() as int) =~= pv);
    }
}

/// Appends the parts with `sep` between neighbours.
pub fn push_joined(out: &mut Vec<char>, parts: &Vec<String>, sep: &str)
    ensures
        final(out)@ == old(out)@ + join_with(string_views(parts@), sep@),
{
    let ghost start = out@;
    let ghost sv = string_views(parts@);
    let mut i: usize = 0;
    while i < parts.len()
        invariant
            i <= parts@.len(),
            sv == string_views(parts@),
            out@ == start + join_with(sv.take(i as int), sep@),
        decreases parts@.len() - i,
    {
        if i > 0 {
            push_str_chars(out, sep);
        }
        push_string_chars(out, &parts[i]);
        proof {
            assert(sv.take(i + 1).drop_last() =~= sv.take(i as int));
            assert(sv.take(i + 1).last() == parts@[i as int]@);
            if i == 0 {
                assert(sv.take(1) =~= seq![parts@[0]@]);
            }
            assert(out@ =~= start + join_with(sv.take(i + 1), sep@));
        }
        i = i + 1;
    }
    proof {
        assert(sv.take(parts@.len() as int) =~= sv);
    }
}

/// Appends each part after `pre`.
pub fn push_prefixed(out: &mut Vec<char>, parts: &Vec<String>, pre: &str)
    ensures
        final(out)@ == old(out)@ + prefixed(string_views(parts@), pre@),
{
    let ghost start = out@;
    let ghost sv = string_views(parts@);
    let mut i: usize = 0;
    while i < parts.len()
        invariant
            i <= parts@.len(),
            sv == string_views(parts@),
            out@ == start + prefixed(sv.take(i as int), pre@),
        decreases parts@.len() - i,
    {
        push_str_chars(out, pre);
        push_string_chars(out, &parts[i]);
        proof {
            assert(sv.take(i + 1).drop_last() =~= sv.take(i as int));
            assert(sv.take(i + 1).last() == parts@[i as int]@);
            assert(out@ =~= start + prefixed(sv.take(i + 1), pre@));
        }
        i = i + 1;
    }
    proof {
        assert(sv.take(parts@.len() as int) =~= sv);
    }
}

/// Appends each string after a space.
pub fn push_string_values(out: &mut Vec<char>, values: &Vec<ZhangString>)
    ensures
        final(out)@ == old(out)@ + prefixed(string_texts(values@), " "@),
{
    let ghost start = out@;
    let ghost sv = string_texts(values@);
    let mut i: usize = 0;
    while i < values.len()
        invariant
            i <= values@.len(),
            sv == string_texts(values@),
            out@ == start + prefixed(sv.take(i as int), " "@),
        decreases values@.len() - i,
    {
        push_str_chars(out, " ");
        values[i].push_text(out);
        proof {
            assert(sv.take(i + 1).drop_last() =~= sv.take(i as int));
            assert(sv.take(i + 1).last() == values@[i as int].text());
            assert(out@ =~= start + prefixed(sv.take(i + 1), " "@));
        }
        i = i + 1;
    }
    proof {
        assert(sv.take(values@.len() as int) =~= sv);
    }
}

/// Appends each value after a space.
pub fn push_custom_values(out: &mut Vec<char>, values: &Vec<StringOrAccount>)
    ensures
        final(out)@ == old(out)@ + prefixed(string_or_account_texts(values@), " "@),
{
    let ghost start = out@;
    let ghost sv = string_or_account_texts(values@);
    let mut i: usize = 0;
    while i < values.len()
        invariant
            i <= values@.len(),
            sv == string_or_account_texts(values@),
            out@ == start + prefixed(sv.take(i as int), " "@),
        decreases values@.len() - i,
    {
        push_str_chars(out, " ");
        match &values[i] {
            StringOrAccount::String(z) => z.push_text(out),
            StringOrAccount::Account(a) => push_string_chars(out, &a.content),
        }
        proof {
            assert(sv.take(i + 1).drop_last() =~= sv.take(i as int));
            assert(sv.take(i + 1).last() == string_or_account_text(values@[i as int]));
            assert(out@ =~= start + prefixed(sv.take(i + 1), " "@));
        }
        i = i + 1;
    }
    proof {
        assert(sv.take(values@.len() as int) =~= sv);
    }
}

fn push_units(out: &mut Vec<char>, u: &Option<Amount>)
    ensures
        final(out)@ == old(out)@ + units_text(*u),
{
    match u {
        Some(a) => {
            push_str_chars(out, " ");
            a.push_text(out);
            assert(out@ =~= old(out)@ + units_text(*u));
        },
        None => {
            assert(out@ =~= old(out)@ + units_text(*u));
        },
    }
}

fn push_cost(out: &mut Vec<char>, c: &Option<Amount>, d: &Option<crate::date::Date>)
    ensures
        final(out)@ == old(out)@ + cost_text(*c, *d),
{
    match c {
        Some(c) => {
            push_str_chars(out, " { ");
            c.push_text(out);
            let ghost mid = out@;
            match d {
                Some(d) => {
                    push_str_chars(out, ", ");
                    push_date_text(out, d);
                },
                None => {},
            }
            push_str_chars(out, " }");
        },
        None => {},
    }
    assert(out@ =~= old(out)@ + cost_text(*c, *d));
}

fn push_price(out: &mut Vec<char>, p: &Option<SingleTotalPrice>)
    ensures
        final(out)@ == old(out)@ + price_text(*p),
{
    match p {
        Some(SingleTotalPrice::Single(a)) => {
            push_str_chars(out, " @ ");
            a.push_text(out);
        },
        Some(SingleTotalPrice::Total(a)) => {
            push_str_chars(out, " @@ ");
            a.push_text(out);
        },
        None => {},
    }
    assert(out@ =~= old(out)@ + price_text(*p));
}

/// Appends the written form of a posting.
pub fn push_posting(out: &mut Vec<char>, p: &Posting)
    ensures
        final(out)@ == old(out)@ + posting_text(*p),
{
    let ghost start = out@;
    match p.flag {
        Some(f) => {
            push_flag(out, f);
            push_str_chars(out, " ");
        },
        None => {},
    }
    assert(out@ =~= start + opt_flag_text(p.flag, " "@));
    push_string_chars(out, &p.account.content);
    push_units(out, &p.units);
    push_cost(out, &p.cost, &p.cost_date);
    push_price(out, &p.price);
    assert(out@ =~= start + posting_text(*p));
}

/// Appends the written form of a flag.
pub fn push_flag(out: &mut Vec<char>, f: Flag)
    ensures
        final(out)@ == old(out)@ + flag_text(f),
{
    match f {
        Flag::Okay => push_str_chars(out, "*"),
        Flag::Warning => push_str_chars(out, "!"),
        Flag::BalancePad => push_str_chars(out, "BalancePad"),
        Flag::BalanceCheck => push_str_chars(out, "BalanceCheck"),
    }
}

fn push_opt_string(out: &mut Vec<char>, z: &Option<ZhangString>)
    ensures
        final(out)@ == old(out)@ + opt_string_text(*z),
{
    match z {
        Some(z) => {
            push_str_chars(out, " ");
            z.push_text(out);
        },
        None => {},
    }
    assert(out@ =~= old(out)@ + opt_string_text(*z));
}

fn push_transaction_header(out: &mut Vec<char>, t: &Transaction)
    ensures
        final(out)@ == old(out)@ + transaction_header(*t),
{
    let ghost start = out@;
    push_date_text(out, &t.date);
    let ghost s1 = out@;
    match t.flag {
        Some(f) => {
            push_str_chars(out, " ");
            push_flag(out, f);
        },
        None => {},
    }
    assert(out@ =~= s1 + (match t.flag {
        Some(f) => " "@ + flag_text(f),
        None => Seq::<char>::empty(),
    }));
    push_opt_string(out, &t.payee);
    push_opt_string(out, &t.narration);
    push_prefixed(out, &t.tags, " #");
    push_prefixed(out, &t.links, " ^");
    assert(out@ =~= start + transaction_header(*t));
}

fn push_postings(out: &mut Vec<char>, ps: &Vec<Posting>)
    ensures
        final(out)@ == old(out)@ + postings_text(ps@),
{
    let ghost head = out@;
    let mut i: usize = 0;
    while i < ps.len()
        invariant
            i <= ps@.len(),
            out@ == head + postings_text(ps@.take(i as int)),
        decreases ps@.len() - i,
    {
        push_str_chars(out, "\n  ");
        push_posting(out, &ps[i]);
        proof {
            assert(ps@.take(i + 1).drop_last() =~= ps@.take(i as int));
            assert(ps@.take(i + 1).last() == ps@[i as int]);
            assert(out@ =~= head + postings_text(ps@.take(i + 1)));
        }
        i = i + 1;
    }
    proof {
        assert(ps@.take(ps@.len() as int) =~= ps@);
    }
}

/// Appends the written form of a transaction.
pub fn push_transaction(out: &mut Vec<char>, t: &Transaction)
    ensures
        final(out)@ == old(out)@ + transaction_text(*t),
{
    let ghost start = out@;
    push_transaction_header(out, t);
    push_postings(out, &t.postings);
    push_meta(out, &t.meta);
    assert(out@ =~= start + transaction_text(*t));
}

fn push_open(out: &mut Vec<char>, o: &Open)
    ensures
        final(out)@ == old(out)@ + open_text(*o),
{
    let ghost start = out@;
    push_date_text(out, &o.date);
    push_str_chars(out, " open ");
    push_string_chars(out, &o.account.content);
    let ghost mid = out@;
    if o.commodities.len() > 0 {
        push_str_chars(out, " ");
        push_joined(out, &o.commodities, ", ");
    }
    assert(out@ =~= mid + (if o.commodities@.len() == 0 {
        Seq::<char>::empty()
    } else {
        " "@ + join_with(string_views(o.commodities@), ", "@)
    }));
    push_meta(out, &o.meta);
    assert(out@ =~= start + open_text(*o));
}

fn push_balance(out: &mut Vec<char>, b: &Balance)
    ensures
        final(out)@ == old(out)@ + balance_text(*b),
{
    let ghost start = out@;
    match b {
        Balance::BalanceCheck(b) => {
            push_date_text(out, &b.date);
            push_str_chars(out, " balance ");
            push_string_chars(out, &b.account.content);
            push_str_chars(out, " ");
            b.amount.push_text(out);
        },
        Balance::BalancePad(b) => {
            push_date_text(out, &b.date);
            push_str_chars(out, " balance ");
            push_string_chars(out, &b.account.content);
            push_str_chars(out, " ");
            b.amount.push_text(out);
            push_str_chars(out, " with pad ");
            push_string_chars(out, &b.pad.content);
        },
    }
    assert(out@ =~= start + balance_text(*b));
}

fn push_custom(out: &mut Vec<char>, c: &Custom)
    ensures
        final(out)@ == old(out)@ + custom_text(*c),
{
    let ghost start = out@;
    push_date_text(out, &c.date);
    push_str_chars(out, " custom ");
    c.custom_type.push_text(out);
    push_custom_values(out, &c.values);
    assert(out@ =~= start + custom_text(*c));
}

fn push_plugin(out: &mut Vec<char>, p: &Plugin)
    ensures
        final(out)@ == old(out)@ + plugin_text(*p),
{
    let ghost start = out@;
    push_str_chars(out, "plugin ");
    p.module.push_text(out);
    push_string_values(out, &p.value);
    assert(out@ =~= start + plugin_text(*p));
}

/// Appends the written form of a directive.
pub fn push_directive(out: &mut Vec<char>, d: &Directive)
    ensures
        final(out)@ == old(out)@ + directive_text(*d),
{
    let ghost start = out@;
    match d {
        Directive::Open(o) => push_open(out, o),
        Directive::Close(c) => {
            push_date_text(out, &c.date);
            push_str_chars(out, " close ");
            push_string_chars(out, &c.account.content);
            assert(out@ =~= start + directive_text(*d));
        },
        Directive::Commodity(c) => {
            push_date_text(out, &c.date);
            push_str_chars(out, " commodity ");
            push_string_chars(out, &c.currency);
            push_meta(out, &c.meta);
            assert(out@ =~= start + directive_text(*d));
        },
        Directive::Transaction(t) => push_transaction(out, t),
        Directive::Balance(b) => push_balance(out, b),
        Directive::Note(n) => {
            push_date_text(out, &n.date);
            push_str_chars(out, " note ");
            push_string_chars(out, &n.account.content);
            push_str_chars(out, " ");
            n.comment.push_text(out);
            assert(out@ =~= start + directive_text(*d));
        },
        Directive::Document(x) => {
            push_date_text(out, &x.date);
            push_str_chars(out, " document ");
            push_string_chars(out, &x.account.content);
            push_str_chars(out, " ");
            x.filename.push_text(out);
            assert(out@ =~= start + directive_text(*d));
        },
        Directive::Price(p) => {
            push_date_text(out, &p.date);
            push_str_chars(out, " price ");
            push_string_chars(out, &p.currency);
            push_str_chars(out, " ");
            p.amount.push_text(out);
            assert(out@ =~= start + directive_text(*d));
        },
        Directive::Event(e) => {
            push_date_text(out, &e.date);
            push_str_chars(out, " event ");
            e.event_type.push_text(out);
            push_str_chars(out, " ");
            e.description.push_text(out);
            assert(out@ =~= start + directive_text(*d));
        },
        Directive::Custom(c) => push_custom(out, c),
        Directive::Option(o) => {
            push_str_chars(out, "option ");
            o.key.push_text(out);
            push_str_chars(out, " ");
            o.value.push_text(out);
            assert(out@ =~= start + directive_text(*d));
        },
        Directive::Plugin(p) => push_plugin(out, p),
        Directive::Include(i) => {
            push_str_chars(out, "include ");
            i.file.push_text(out);
            assert(out@ =~= start + directive_text(*d));
        },
        Directive::Comment(c) => {
            push_string_chars(out, &c.content);
        },
    }
}

impl ToAvaroFile for Directive {
    open spec fn file_text(&self) -> Seq<char> {
        directive_text(*self)
    }

    fn to_text(&self) -> (r: String) {
        let mut out: Vec<char> = Vec::new();
        push_directive(&mut out, self);
        assert(out@ =~= directive_text(*self));
        string_from_chars(&out)
    }
}

impl ToAvaroFile for Amount {
    open spec fn file_text(&self) -> Seq<char> {
        amount_text(*self)
    }

    fn to_text(&self) -> (r: String) {
        let mut out: Vec<char> = Vec::new();
        self.push_text(&mut out);
        assert(out@ =~= amount_text(*self));
        string_from_chars(&out)
    }
}

impl ToAvaroFile for Flag {
    open spec fn file_text(&self) -> Seq<char> {
        flag_text(*self)
    }

    fn to_text(&self) -> (r: String) {
        let mut out: Vec<char> = Vec::new();
        push_flag(&mut out, *self);
        assert(out@ =~= flag_text(*self));
        string_from_chars(&out)
    }
}

impl ToAvaroFile for AccountType {
    open spec fn file_text(&self) -> Seq<char> {
        account_type_name(*self)
    }

    fn to_text(&self) -> (r: String) {
        match self {
            AccountType::Assets => "Assets".to_owned(),
            AccountType::Liabilities => "Liabilities".to_owned(),
            AccountType::Equity => "Equity".to_owned(),
            AccountType::Income => "Income".to_owned(),
            AccountType::Expenses => "Expenses".to_owned(),
        }
    }
}

impl ToAvaroFile for String {
    open spec fn file_text(&self) -> Seq<char> {
        self@
    }

    fn to_text(&self) -> (r: String) {
        self.clone()
    }
}

} // verus!
