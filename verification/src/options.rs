use vstd::prelude::*;

use crate::decimal::{all_digits, digits_value};
use crate::models::Rounding;
use crate::strings::str_eq_chars;

verus! {

/// The text of an unsigned number as `usize::from_str` reads it: an optional `+` and at least
/// one decimal digit.
pub open spec fn unsigned_syntax(s: Seq<char>) -> bool {
    let body = if s.len() > 0 && s[0] == '+' { s.drop_first() } else { s };
    body.len() > 0 && all_digits(body)
}

pub open spec fn unsigned_value(s: Seq<char>) -> int {
    let body = if s.len() > 0 && s[0] == '+' { s.drop_first() } else { s };
    digits_value(body)
}

/// `usize::from_str` of std. Its documentation: the text is an optional `+` and decimal
/// digits, and the number must fit; anything else is an error.
#[verifier::external_body]
fn parse_usize(s: &str) -> (r: Option<usize>)
    ensures
        match r {
            Some(n) => unsigned_syntax(s@) && n == unsigned_value(s@),
            None => !(unsigned_syntax(s@) && unsigned_value(s@) <= usize::MAX),
        },
{
    s.parse::<usize>().ok()
}

/// The text of a signed number as `i32::from_str` reads it: an optional `+` or `-` and at
/// least one decimal digit.
pub open spec fn signed_syntax(s: Seq<char>) -> bool {
    let body = if s.len() > 0 && (s[0] == '+' || s[0] == '-') { s.drop_first() } else { s };
    body.len() > 0 && all_digits(body)
}

pub open spec fn signed_value(s: Seq<char>) -> int {
    if s.len() > 0 && s[0] == '-' {
        -digits_value(s.drop_first())
    } else if s.len() > 0 && s[0] == '+' {
        digits_value(s.drop_first())
    } else {
        digits_value(s)
    }
}

/// The number a text spells for `i32::from_str`, when it spells one that fits.
pub open spec fn i32_of_text(s: Seq<char>) -> Option<i32> {
    if signed_syntax(s) && i32::MIN <= signed_value(s) <= i32::MAX {
        Some(signed_value(s) as i32)
    } else {
        None
    }
}

/// `i32::from_str` of std. Its documentation: the text is an optional `+` or `-` and
/// decimal digits, and the number must fit; anything else is an error.
#[verifier::external_body]
pub(crate) fn parse_i32(s: &str) -> (r: Option<i32>)
    ensures
        r == i32_of_text(s@),
{
    s.parse::<i32>().ok()
}

/// The options of a ledger that change how it is read.
#[derive(Debug, Clone, PartialEq, Eq)]
pub struct Options {
    pub operating_currency: String,
    pub default_rounding: Rounding,
    pub default_balance_tolerance_precision: usize,
}

impl Options {
    /// Applies an `option` directive: `operating_currency` takes the value, `default_rounding`
    /// the rounding it names, `default_balance_tolerance` the number it spells when it spells
    /// one; other keys change nothing.
    pub fn parse(&mut self, key: &str, value: &str)
        requires
            key@ == "default_rounding"@ ==> (value@ == "RoundUp"@ || value@ == "RoundDown"@),
        ensures
            final(self).operating_currency@ == if key@ == "operating_currency"@ {
                value@
            } else {
                old(self).operating_currency@
            },
            final(self).default_rounding == if key@ == "default_rounding"@ {
                if value@ == "RoundUp"@ {
                    Rounding::RoundUp
                } else {
                    Rounding::RoundDown
                }
            } else {
                old(self).default_rounding
            },
            final(self).default_balance_tolerance_precision == if key@ == "default_balance_tolerance"@
                && unsigned_syntax(value@) && unsigned_value(value@) <= usize::MAX {
                unsigned_value(value@) as usize
            } else {
                old(self).default_balance_tolerance_precision
            },
    {
        let k = crate::strings::chars_of(key);
        if str_eq_chars("operating_currency", &k) {
            proof {
                lemma_option_keys_differ();
            }
            self.operating_currency = value.to_owned();
        } else if str_eq_chars("default_rounding", &k) {
            proof {
                lemma_option_keys_differ();
            }
            match Rounding::from_text(value) {
                Some(r) => {
                    self.default_rounding = r;
                },
                None => {},
            }
        } else if str_eq_chars("default_balance_tolerance", &k) {
            proof {
                lemma_option_keys_differ();
            }
            match parse_usize(value) {
                Some(n) => {
                    self.default_balance_tolerance_precision = n;
                },
                None => {},
            }
        }
    }
}

proof fn lemma_option_keys_differ()
    ensures
        "operating_currency"@ != "default_rounding"@,
        "operating_currency"@ != "default_balance_tolerance"@,
        "default_rounding"@ != "default_balance_tolerance"@,
{
    reveal_strlit("operating_currency");
    reveal_strlit("default_rounding");
    reveal_strlit("default_balance_tolerance");
    assert("operating_currency"@.len() != "default_rounding"@.len());
    assert("operating_currency"@.len() != "default_balance_tolerance"@.len());
    assert("default_rounding"@.len() != "default_balance_tolerance"@.len());
}

impl Default for Options {
    fn default() -> (r: Options)
        ensures
            r.operating_currency@ == "CNY"@,
            r.default_rounding == Rounding::RoundDown,
            r.default_balance_tolerance_precision == 2,
    {
        Options {
            operating_currency: "CNY".to_owned(),
            default_rounding: Rounding::RoundDown,
            default_balance_tolerance_precision: 2,
        }
    }
}

/// The page of a journal that a request asks for.
#[derive(Debug, Clone, Copy, PartialEq, Eq)]
pub struct JournalRequest {
    pub page: Option<u32>,
    pub size: Option<u32>,
}

impl JournalRequest {
    /// How many entries a page holds: the requested size, a hundred by default.
    pub fn limit(&self) -> (r: u32)
        ensures
            r == match self.size {
                Some(s) => s,
                None => 100,
            },
    {
        match self.size {
            Some(s) => s,
            None => 100,
        }
    }

    /// How many entries come before the page: pages count from one, and a page below one is
    /// the first.
    pub fn offset(&self) -> (r: u32)
        requires
            ({
                let page = match self.page {
                    Some(p) => if p >= 1 { p as int } else { 1 },
                    None => 1,
                };
                (page - 1) * (match self.size {
                    Some(s) => s as int,
                    None => 100,
                }) <= u32::MAX
            }),
        ensures
            ({
                let page = match self.page {
                    Some(p) => if p >= 1 { p as int } else { 1 },
                    None => 1,
                };
                r == (page - 1) * (match self.size {
                    Some(s) => s as int,
                    None => 100,
                })
            }),
    {
        let p = match self.page {
            Some(p) => p,
            None => 1,
        };
        let page = if p >= 1 { p } else { 1 };
        let limit = self.limit();
        proof {
            assert((page - 1) as int * limit as int <= u32::MAX);
        }
        (page - 1) * limit
    }
}

} // verus!
