use vstd::prelude::*;

use crate::account::{account_type_of_name, has_no_colon, Account, AccountError};
use crate::amount::Amount;
use crate::data::{Meta, Posting, Transaction};
use crate::date::{Date, NaiveDateTime};
use crate::decimal::{fits_mantissa, number_frac_part, number_mantissa, number_syntax, sub_vec, Decimal};
use crate::lexer::{
    date_token_day, date_token_month, date_token_shape, date_token_year, parse_date_token, parse_time_token,
    time_token_long, time_token_value,
};
use crate::models::{Flag, ZhangString};
use crate::strings::{chars_of, join_parts, str_eq_chars, string_from_chars};

verus! {

/// A line of a WeChat Pay bill, as its columns read.
#[derive(Debug, Clone)]
pub struct WechatRecord {
    pub datetime: String,
    pub txn_type: String,
    pub payee: String,
    pub narration: String,
    pub is_income: String,
    pub amount: String,
    pub pay_type: String,
    pub status: String,
    pub txn_no: String,
    pub payee_no: String,
    pub comment: String,
}

/// How bill lines map to accounts: the account of each way to pay and of each payee, and
/// whether a way or payee without one is an error.
#[derive(Debug, Clone)]
pub struct WechatConfig {
    pub forbid_unknown_payee: bool,
    pub wechat_account: String,
    pub pay_ways: Vec<(String, String)>,
    pub payees: Vec<(String, String)>,
}

/// Why a bill line cannot be imported.
#[derive(Debug, Clone, Copy, PartialEq, Eq)]
pub enum ImportError {
    InvalidAccount,
    InvalidDatetime,
    InvalidAmount,
    MissingPayee,
}

/// The characters that Unicode gives the White_Space property, as `char::is_whitespace`
/// documents.
pub open spec fn is_white_space(c: char) -> bool {
    ||| '\u{9}' <= c <= '\u{d}'
    ||| c == ' '
    ||| c == '\u{85}'
    ||| c == '\u{a0}'
    ||| c == '\u{1680}'
    ||| '\u{2000}' <= c <= '\u{200a}'
    ||| c == '\u{2028}'
    ||| c == '\u{2029}'
    ||| c == '\u{202f}'
    ||| c == '\u{205f}'
    ||| c == '\u{3000}'
}

fn white_space(c: char) -> (r: bool)
    ensures
        r == is_white_space(c),
{
    ('\u{9}' <= c && c <= '\u{d}') || c == ' ' || c == '\u{85}' || c == '\u{a0}' || c == '\u{1680}' || ('\u{2000}' <= c
        && c <= '\u{200a}') || c == '\u{2028}' || c == '\u{2029}' || c == '\u{202f}' || c == '\u{205f}' || c == '\u{3000}'
}

/// The text without its leading white space.
pub open spec fn trim_start(s: Seq<char>) -> Seq<char>
    decreases s.len(),
{
    if s.len() > 0 && is_white_space(s[0]) {
        trim_start(s.drop_first())
    } else {
        s
    }
}

/// The text without its trailing white space.
pub open spec fn trim_end(s: Seq<char>) -> Seq<char>
    decreases s.len(),
{
    if s.len() > 0 && is_white_space(s.last()) {
        trim_end(s.drop_last())
    } else {
        s
    }
}

/// The text without white space at either end, as `str::trim` gives it.
pub open spec fn trimmed(s: Seq<char>) -> Seq<char> {
    trim_end(trim_start(s))
}

/// The characters of a string without white space at either end.
fn trim_chars(v: &Vec<char>) -> (r: Vec<char>)
    ensures
        r@ == trimmed(v@),
{
    let n = v.len();
    let mut a: usize = 0;
    proof {
        assert(v@.skip(0) =~= v@);
    }
    while a < n && white_space(v[a])
        invariant
            a <= n,
            n == v@.len(),
            trim_start(v@) == trim_start(v@.skip(a as int)),
        decreases n - a,
    {
        proof {
            assert(v@.skip(a as int).drop_first() =~= v@.skip(a + 1));
        }
        a = a + 1;
    }
    let ghost st = v@.skip(a as int);
    proof {
        assert(trim_start(v@) == st);
        assert(st =~= v@.subrange(a as int, n as int));
    }
    let mut b: usize = n;
    while b > a && white_space(v[b - 1])
        invariant
            a <= b <= n,
            n == v@.len(),
            trim_end(v@.subrange(a as int, n as int)) == trim_end(v@.subrange(a as int, b as int)),
        decreases b,
    {
        proof {
            assert(v@.subrange(a as int, b as int).drop_last() =~= v@.subrange(a as int, b - 1));
            assert(v@.subrange(a as int, b as int).last() == v@[b - 1]);
        }
        b = b - 1;
    }
    proof {
        if b > a {
            assert(v@.subrange(a as int, b as int).last() == v@[b - 1]);
        }
    }
    sub_vec(v, a, b)
}

/// The text a string holds after `prefix`, when it begins with it.
pub open spec fn after_prefix(s: Seq<char>, prefix: Seq<char>) -> Option<Seq<char>> {
    if s.len() >= prefix.len() && s.subrange(0, prefix.len() as int) == prefix {
        Some(s.skip(prefix.len() as int))
    } else {
        None
    }
}

fn strip_prefix_chars(v: &Vec<char>, prefix: &str) -> (r: Option<Vec<char>>)
    ensures
        match r {
            Some(rest) => after_prefix(v@, prefix@) == Some(rest@),
            None => after_prefix(v@, prefix@) is None,
        },
{
    let p = chars_of(prefix);
    if v.len() < p.len() {
        return None;
    }
    if !str_eq_chars(prefix, &sub_vec(v, 0, p.len())) {
        return None;
    }
    let rest = sub_vec(v, p.len(), v.len());
    proof {
        assert(rest@ =~= v@.skip(p@.len() as int));
    }
    Some(rest)
}

/// What the note of a bill line says after the prefix of a QR-code payment.
pub open spec fn comment_prefix() -> Seq<char> {
    "收款方备注:二维码收款"@
}

/// A trimmed column, none when it is empty or `/`.
pub open spec fn column_value(s: Seq<char>) -> Option<Seq<char>> {
    let t = trimmed(s);
    if t.len() == 0 || t == seq!['/'] {
        None
    } else {
        Some(t)
    }
}

/// The moment a bill line gives: `YYYY-MM-DD HH:MM:SS`.
pub open spec fn record_time(s: Seq<char>) -> Option<NaiveDateTime> {
    let d = s.subrange(0, 10);
    let t = s.subrange(11, 19);
    if s.len() == 19 && s[10] == ' ' && date_token_shape(d) && crate::date::valid_ymd(
        date_token_year(d),
        date_token_month(d),
        date_token_day(d),
    ) && time_token_long(t) && crate::date::valid_hms(time_token_value(t).0, time_token_value(t).1, time_token_value(t).2) {
        Some(
            NaiveDateTime {
                date: crate::date::NaiveDate {
                    year: date_token_year(d) as i32,
                    month: date_token_month(d) as u32,
                    day: date_token_day(d) as u32,
                },
                hour: time_token_value(t).0 as u32,
                minute: time_token_value(t).1 as u32,
                second: time_token_value(t).2 as u32,
            },
        )
    } else {
        None
    }
}

/// The text of the amount of a bill line without its `¥`.
pub open spec fn amount_text(s: Seq<char>) -> Seq<char> {
    match after_prefix(s, seq!['¥']) {
        Some(rest) => rest,
        None => s,
    }
}

/// The first account name that `pairs` give for `k`.
pub open spec fn lookup(pairs: Seq<(String, String)>, k: Seq<char>) -> Option<Seq<char>>
    decreases pairs.len(),
{
    if pairs.len() == 0 {
        None
    } else if pairs[0].0@ == k {
        Some(pairs[0].1@)
    } else {
        lookup(pairs.drop_first(), k)
    }
}

/// The account name a lookup gives: the configured one, else a placeholder unless unknown
/// names are forbidden.
pub open spec fn account_name_for(pairs: Seq<(String, String)>, k: Seq<char>, forbid: bool) -> Option<Seq<char>> {
    match lookup(pairs, k) {
        Some(a) => Some(a),
        None => if forbid {
            None
        } else {
            Some("Expenses:FixMe"@)
        },
    }
}

/// Whether a text names an account: segments separated by `:`, the first naming a type.
pub open spec fn valid_account_name(s: Seq<char>) -> bool {
    exists|parts: Seq<Seq<char>>|
        parts.len() >= 1 && join_parts(parts, ':') == s && (forall|i: int| 0 <= i < parts.len() ==> has_no_colon(#[trigger] parts[i]))
            && account_type_of_name(parts[0]) is Some
}

fn find_pair(pairs: &Vec<(String, String)>, k: &Vec<char>) -> (r: Option<String>)
    ensures
        match r {
            Some(a) => lookup(pairs@, k@) == Some(a@),
            None => lookup(pairs@, k@) is None,
        },
{
    let mut i: usize = 0;
    proof {
        assert(pairs@.skip(0) =~= pairs@);
    }
    while i < pairs.len()
        invariant
            i <= pairs@.len(),
            lookup(pairs@, k@) == lookup(pairs@.skip(i as int), k@),
        decreases pairs@.len() - i,
    {
        proof {
            assert(pairs@.skip(i as int)[0] == pairs@[i as int]);
            assert(pairs@.skip(i as int).drop_first() =~= pairs@.skip(i + 1));
        }
        if str_eq_chars(pairs[i].0.as_str(), k) {
            return Some(pairs[i].1.clone());
        }
        i = i + 1;
    }
    None
}

fn account_of(name: &str) -> (r: Result<Account, ImportError>)
    ensures
        match r {
            Ok(a) => a.content@ == name@ && valid_account_name(name@),
            Err(e) => e == ImportError::InvalidAccount && !valid_account_name(name@),
        },
{
    match Account::from_text(name) {
        Ok(a) => {
            proof {
                assert(a.segments().len() >= 1 && join_parts(a.segments(), ':') == name@);
            }
            Ok(a)
        },
        Err(_) => Err(ImportError::InvalidAccount),
    }
}

impl WechatRecord {
    /// Whether the line is money coming in: anything but `支出` or `/`.
    pub fn is_income(&self) -> (r: bool)
        ensures
            r == !(self.is_income@ == "支出"@ || self.is_income@ == "/"@),
    {
        !(str_eq_chars("支出", &chars_of(self.is_income.as_str())) || str_eq_chars("/", &chars_of(self.is_income.as_str())))
    }

    /// The amount of the line in CNY: its number without `¥`, negated for money going out.
    pub fn amount(&self) -> (r: Option<Amount>)
        ensures
            ({
                let t = amount_text(self.amount@);
                let income = !(self.is_income@ == "支出"@ || self.is_income@ == "/"@);
                match r {
                    Some(a) => number_syntax(t) && a.currency@ == "CNY"@ && a.number.scl() == number_frac_part(t).len()
                        && a.number.mant() == (if income { number_mantissa(t) } else { -number_mantissa(t) }),
                    None => !(number_syntax(t) && fits_mantissa(number_mantissa(t)) && number_frac_part(t).len() <= u32::MAX),
                }
            }),
    {
        let v = chars_of(self.amount.as_str());
        let t = match strip_prefix_chars(&v, "¥") {
            Some(rest) => rest,
            None => v,
        };
        proof {
            reveal_strlit("¥");
            assert("¥"@ =~= seq!['¥']);
        }
        match Decimal::parse_chars(&t) {
            Some(d) => {
                let n = if self.is_income() {
                    d
                } else {
                    d.neg()
                };
                Some(Amount::new(n, "CNY"))
            },
            None => None,
        }
    }

    /// The payee, trimmed; none when empty.
    pub fn payee(&self) -> (r: Option<String>)
        ensures
            match r {
                Some(p) => trimmed(self.payee@).len() > 0 && p@ == trimmed(self.payee@),
                None => trimmed(self.payee@).len() == 0,
            },
    {
        let t = trim_chars(&chars_of(self.payee.as_str()));
        if t.len() == 0 {
            None
        } else {
            Some(string_from_chars(&t))
        }
    }

    /// The goods: after the QR-code prefix when the note has it, none for `/`, trimmed.
    pub fn narration(&self) -> (r: Option<String>)
        ensures
            match after_prefix(self.narration@, comment_prefix()) {
                Some(rest) => r matches Some(n) && n@ == trimmed(rest),
                None => if self.narration@ == "/"@ {
                    r is None
                } else {
                    r matches Some(n) && n@ == trimmed(self.narration@)
                },
            },
    {
        let v = chars_of(self.narration.as_str());
        match strip_prefix_chars(&v, "收款方备注:二维码收款") {
            Some(rest) => Some(string_from_chars(&trim_chars(&rest))),
            None => {
                if str_eq_chars("/", &v) {
                    None
                } else {
                    Some(string_from_chars(&trim_chars(&v)))
                }
            },
        }
    }

    /// The trimmed value of a column; none when it is empty or `/`.
    fn column(s: &String) -> (r: Option<String>)
        ensures
            match r {
                Some(x) => column_value(s@) == Some(x@),
                None => column_value(s@) is None,
            },
    {
        let t = trim_chars(&chars_of(s.as_str()));
        if t.len() == 0 || (t.len() == 1 && t[0] == '/') {
            proof {
                if t.len() == 1 {
                    assert(t@ =~= seq!['/']);
                }
            }
            None
        } else {
            proof {
                if t@ == seq!['/'] {
                    assert(t@.len() == 1);
                }
            }
            Some(string_from_chars(&t))
        }
    }

    /// The number of the transaction, if the line has one.
    pub fn transaction_no(&self) -> (r: Option<String>)
        ensures
            match r {
                Some(x) => column_value(self.txn_no@) == Some(x@),
                None => column_value(self.txn_no@) is None,
            },
    {
        WechatRecord::column(&self.txn_no)
    }

    /// The number the payee gave the transaction, if the line has one.
    pub fn payee_no(&self) -> (r: Option<String>)
        ensures
            match r {
                Some(x) => column_value(self.payee_no@) == Some(x@),
                None => column_value(self.payee_no@) is None,
            },
    {
        WechatRecord::column(&self.payee_no)
    }

    /// The moment of the line.
    pub fn datetime(&self) -> (r: Option<NaiveDateTime>)
        ensures
            r == record_time(self.datetime@),
    {
        let v = chars_of(self.datetime.as_str());
        if v.len() != 19 || v[10] != ' ' {
            return None;
        }
        let d = sub_vec(&v, 0, 10);
        let t = sub_vec(&v, 11, 19);
        let day = match parse_date_token(&d) {
            Some(day) => day,
            None => return None,
        };
        match parse_time_token(&t) {
            Some((h, m, s, long)) => {
                if !long {
                    proof {
                        assert(t@.len() == 8);
                    }
                    return None;
                }
                Some(NaiveDateTime { date: day, hour: h, minute: m, second: s })
            },
            None => None,
        }
    }
}

impl WechatConfig {
    /// The account name of a way to pay.
    pub fn pay_way(&self, pay_type: &String) -> (r: Result<String, ImportError>)
        ensures
            match r {
                Ok(a) => account_name_for(self.pay_ways@, pay_type@, self.forbid_unknown_payee) == Some(a@),
                Err(e) => e == ImportError::InvalidAccount && account_name_for(
                    self.pay_ways@,
                    pay_type@,
                    self.forbid_unknown_payee,
                ) is None,
            },
    {
        match find_pair(&self.pay_ways, &chars_of(pay_type.as_str())) {
            Some(a) => Ok(a),
            None => if self.forbid_unknown_payee {
                Err(ImportError::InvalidAccount)
            } else {
                Ok("Expenses:FixMe".to_owned())
            },
        }
    }

    /// The account name of a payee.
    pub fn payee_account(&self, payee: &String) -> (r: Result<String, ImportError>)
        ensures
            match r {
                Ok(a) => account_name_for(self.payees@, payee@, self.forbid_unknown_payee) == Some(a@),
                Err(e) => e == ImportError::InvalidAccount && account_name_for(self.payees@, payee@, self.forbid_unknown_payee) is None,
            },
    {
        match find_pair(&self.payees, &chars_of(payee.as_str())) {
            Some(a) => Ok(a),
            None => if self.forbid_unknown_payee {
                Err(ImportError::InvalidAccount)
            } else {
                Ok("Expenses:FixMe".to_owned())
            },
        }
    }
}

/// The posting of an amount to an account.
fn posting(account: Account, units: Amount) -> (r: Posting)
    ensures
        r.account == account,
        r.units == Some(units),
        r.flag is None && r.cost is None && r.cost_date is None && r.price is None,
{
    Posting { flag: None, account, units: Some(units), cost: None, cost_date: None, price: None, meta: Meta::new() }
}

/// The transaction of a bill line: at its moment, between the account of its way to pay and
/// that of its payee, with its payee, goods and numbers.
pub fn transaction_of(record: &WechatRecord, config: &WechatConfig) -> (r: Result<Transaction, ImportError>)
    ensures
        match r {
            Ok(t) => {
                &&& trimmed(record.payee@).len() > 0
                &&& record_time(record.datetime@) matches Some(dt) && t.date == Date::Datetime(dt)
                &&& account_name_for(config.pay_ways@, record.pay_type@, config.forbid_unknown_payee) matches Some(pw)
                    && valid_account_name(pw)
                &&& account_name_for(config.payees@, trimmed(record.payee@), config.forbid_unknown_payee) matches Some(
                    pa,
                ) && valid_account_name(pa)
                &&& t.flag == Some(Flag::Okay)
                &&& t.payee matches Some(ZhangString::QuoteString(p)) && p@ == trimmed(record.payee@)
                &&& t.postings@.len() == 2
                &&& t.postings@[0].account.content@ == account_name_for(config.pay_ways@, record.pay_type@, config.forbid_unknown_payee).unwrap()
                &&& t.postings@[1].account.content@ == account_name_for(config.payees@, trimmed(record.payee@), config.forbid_unknown_payee).unwrap()
                &&& t.postings@[0].units matches Some(a) && t.postings@[1].units matches Some(b) && a.currency@ == "CNY"@
                    && b.currency == a.currency && b.number.mant() == -a.number.mant() && b.number.scl() == a.number.scl()
                &&& t.tags@.len() == 0 && t.links@.len() == 0
                &&& ({
                    let at = amount_text(record.amount@);
                    let income = !(record.is_income@ == "支出"@ || record.is_income@ == "/"@);
                    t.postings@[0].units matches Some(a) && a.number.scl() == number_frac_part(at).len() && a.number.mant()
                        == (if income { number_mantissa(at) } else { -number_mantissa(at) })
                })
                &&& match after_prefix(record.narration@, comment_prefix()) {
                    Some(rest) => t.narration matches Some(ZhangString::QuoteString(n)) && n@ == trimmed(rest),
                    None => if record.narration@ == "/"@ {
                        t.narration is None
                    } else {
                        t.narration matches Some(ZhangString::QuoteString(n)) && n@ == trimmed(record.narration@)
                    },
                }
                &&& t.meta@.dom().contains("transaction_no"@) == column_value(record.txn_no@) is Some
                &&& t.meta@.dom().contains("payee_no"@) == column_value(record.payee_no@) is Some
                &&& t.meta@.dom().contains("transaction_no"@) ==> (t.meta@["transaction_no"@][0] matches ZhangString::UnquoteString(n)
                    && Some(n@) == column_value(record.txn_no@) && t.meta@["transaction_no"@].len() == 1)
                &&& t.meta@.dom().contains("payee_no"@) ==> (t.meta@["payee_no"@][0] matches ZhangString::UnquoteString(n)
                    && Some(n@) == column_value(record.payee_no@) && t.meta@["payee_no"@].len() == 1)
                &&& t.meta@.dom().subset_of(set!["transaction_no"@, "payee_no"@])
            },
            Err(ImportError::MissingPayee) => trimmed(record.payee@).len() == 0,
            Err(ImportError::InvalidDatetime) => trimmed(record.payee@).len() > 0 && record_time(record.datetime@) is None,
            Err(ImportError::InvalidAccount) => trimmed(record.payee@).len() > 0 && record_time(record.datetime@) is Some && (
                !(account_name_for(config.pay_ways@, record.pay_type@, config.forbid_unknown_payee) matches Some(pw)
                && valid_account_name(pw)) || !(account_name_for(config.payees@, trimmed(record.payee@), config.forbid_unknown_payee)
                matches Some(pa) && valid_account_name(pa))),
            Err(ImportError::InvalidAmount) => {
                let t = amount_text(record.amount@);
                !(number_syntax(t) && fits_mantissa(number_mantissa(t)) && number_frac_part(t).len() <= u32::MAX)
            },
        },
{
    let payee = match record.payee() {
        Some(p) => p,
        None => return Err(ImportError::MissingPayee),
    };
    let datetime = match record.datetime() {
        Some(d) => d,
        None => return Err(ImportError::InvalidDatetime),
    };
    let pay_way = match config.pay_way(&record.pay_type) {
        Ok(a) => a,
        Err(e) => return Err(e),
    };
    let pay_way = match account_of(pay_way.as_str()) {
        Ok(a) => a,
        Err(e) => return Err(e),
    };
    let payee_account = match config.payee_account(&payee) {
        Ok(a) => a,
        Err(e) => return Err(e),
    };
    let payee_account = match account_of(payee_account.as_str()) {
        Ok(a) => a,
        Err(e) => return Err(e),
    };
    let amount = match record.amount() {
        Some(a) => a,
        None => return Err(ImportError::InvalidAmount),
    };
    let mut meta = Meta::new();
    proof {
        reveal_strlit("transaction_no");
        reveal_strlit("payee_no");
        assert("transaction_no"@.len() != "payee_no"@.len());
    }
    match record.transaction_no() {
        Some(n) => meta.insert("transaction_no".to_owned(), ZhangString::UnquoteString(n)),
        None => {},
    }
    match record.payee_no() {
        Some(n) => meta.insert("payee_no".to_owned(), ZhangString::UnquoteString(n)),
        None => {},
    }
    proof {
        reveal_strlit("transaction_no");
        reveal_strlit("payee_no");
        assert("transaction_no"@.len() != "payee_no"@.len());
        assert(meta@.dom() =~= meta@.dom().intersect(set!["transaction_no"@, "payee_no"@]));
    }
    let back = amount.neg();
    let postings = vec![posting(pay_way, amount), posting(payee_account, back)];
    let narration = match record.narration() {
        Some(n) => Some(ZhangString::QuoteString(n)),
        None => None,
    };
    Ok(
        Transaction {
            date: Date::Datetime(datetime),
            flag: Some(Flag::Okay),
            payee: Some(ZhangString::QuoteString(payee)),
            narration,
            tags: Vec::new(),
            links: Vec::new(),
            postings,
            meta,
        },
    )
}

} // verus!
