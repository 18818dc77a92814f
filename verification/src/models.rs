use vstd::prelude::*;

use crate::account::Account;
use crate::amount::Amount;
use crate::data::{
    Balance, Close, Comment, Commodity, Custom, Document, Event, Include, Note, Open, Options, Plugin, Price,
    Transaction,
};
use crate::date::NaiveDateTime;
use crate::keys::ExactCopy;
use crate::strings::{chars_of, str_eq_chars};
use crate::utils::{push_quoted, quoted_text};

verus! {

/// The kinds of directives.
#[derive(Debug, PartialEq, Eq, Clone, Copy)]
pub enum DirectiveType {
    Open,
    Close,
    Commodity,
    Transaction,
    Balance,
    Note,
    Document,
    Price,
    Event,
    Custom,
    Option,
    Plugin,
    Include,
    Comment,
}

/// One entry of a ledger file.
#[derive(Debug, PartialEq, Eq, Clone)]
pub enum Directive {
    Open(Open),
    Close(Close),
    Commodity(Commodity),
    Transaction(Transaction),
    Balance(Balance),
    Note(Note),
    Document(Document),
    Price(Price),
    Event(Event),
    Custom(Custom),
    Option(Options),
    Plugin(Plugin),
    Include(Include),
    Comment(Comment),
}

impl Directive {
    /// The moment of a dated directive; `None` for options, plugins, includes and comments.
    pub open spec fn spec_datetime(&self) -> Option<NaiveDateTime> {
        match self {
            Directive::Open(d) => Some(d.date.spec_naive_datetime()),
            Directive::Close(d) => Some(d.date.spec_naive_datetime()),
            Directive::Commodity(d) => Some(d.date.spec_naive_datetime()),
            Directive::Transaction(d) => Some(d.date.spec_naive_datetime()),
            Directive::Balance(Balance::BalanceCheck(d)) => Some(d.date.spec_naive_datetime()),
            Directive::Balance(Balance::BalancePad(d)) => Some(d.date.spec_naive_datetime()),
            Directive::Note(d) => Some(d.date.spec_naive_datetime()),
            Directive::Document(d) => Some(d.date.spec_naive_datetime()),
            Directive::Price(d) => Some(d.date.spec_naive_datetime()),
            Directive::Event(d) => Some(d.date.spec_naive_datetime()),
            Directive::Custom(d) => Some(d.date.spec_naive_datetime()),
            Directive::Option(_) => None,
            Directive::Plugin(_) => None,
            Directive::Include(_) => None,
            Directive::Comment(_) => None,
        }
    }

    pub open spec fn spec_directive_type(&self) -> DirectiveType {
        match self {
            Directive::Open(_) => DirectiveType::Open,
            Directive::Close(_) => DirectiveType::Close,
            Directive::Commodity(_) => DirectiveType::Commodity,
            Directive::Transaction(_) => DirectiveType::Transaction,
            Directive::Balance(_) => DirectiveType::Balance,
            Directive::Note(_) => DirectiveType::Note,
            Directive::Document(_) => DirectiveType::Document,
            Directive::Price(_) => DirectiveType::Price,
            Directive::Event(_) => DirectiveType::Event,
            Directive::Custom(_) => DirectiveType::Custom,
            Directive::Option(_) => DirectiveType::Option,
            Directive::Plugin(_) => DirectiveType::Plugin,
            Directive::Include(_) => DirectiveType::Include,
            Directive::Comment(_) => DirectiveType::Comment,
        }
    }

    /// The moment of a dated directive.
    pub fn datetime(&self) -> (r: Option<NaiveDateTime>)
        ensures
            r == self.spec_datetime(),
    {
        match self {
            Directive::Open(d) => Some(d.date.naive_datetime()),
            Directive::Close(d) => Some(d.date.naive_datetime()),
            Directive::Commodity(d) => Some(d.date.naive_datetime()),
            Directive::Transaction(d) => Some(d.date.naive_datetime()),
            Directive::Balance(b) => Some(
                match b {
                    Balance::BalanceCheck(d) => d.date.naive_datetime(),
                    Balance::BalancePad(d) => d.date.naive_datetime(),
                },
            ),
            Directive::Note(d) => Some(d.date.naive_datetime()),
            Directive::Document(d) => Some(d.date.naive_datetime()),
            Directive::Price(d) => Some(d.date.naive_datetime()),
            Directive::Event(d) => Some(d.date.naive_datetime()),
            Directive::Custom(d) => Some(d.date.naive_datetime()),
            Directive::Option(_) => None,
            Directive::Plugin(_) => None,
            Directive::Include(_) => None,
            Directive::Comment(_) => None,
        }
    }

    /// The kind of the directive.
    pub fn directive_type(&self) -> (r: DirectiveType)
        ensures
            r == self.spec_directive_type(),
    {
        match self {
            Directive::Open(_) => DirectiveType::Open,
            Directive::Close(_) => DirectiveType::Close,
            Directive::Commodity(_) => DirectiveType::Commodity,
            Directive::Transaction(_) => DirectiveType::Transaction,
            Directive::Balance(_) => DirectiveType::Balance,
            Directive::Note(_) => DirectiveType::Note,
            Directive::Document(_) => DirectiveType::Document,
            Directive::Price(_) => DirectiveType::Price,
            Directive::Event(_) => DirectiveType::Event,
            Directive::Custom(_) => DirectiveType::Custom,
            Directive::Option(_) => DirectiveType::Option,
            Directive::Plugin(_) => DirectiveType::Plugin,
            Directive::Include(_) => DirectiveType::Include,
            Directive::Comment(_) => DirectiveType::Comment,
        }
    }
}

/// A value that is either a string or an account name.
#[derive(Debug, PartialEq, Eq, Clone)]
pub enum StringOrAccount {
    String(ZhangString),
    Account(Account),
}

/// A string of a ledger file, as it was written: bare or between double quotes.
#[derive(Debug, PartialEq, Eq, Clone)]
pub enum ZhangString {
    UnquoteString(String),
    QuoteString(String),
}

impl ExactCopy for ZhangString {
    fn exact_copy(&self) -> (r: Self) {
        match self {
            ZhangString::UnquoteString(s) => ZhangString::UnquoteString(s.clone()),
            ZhangString::QuoteString(s) => ZhangString::QuoteString(s.clone()),
        }
    }
}

impl ZhangString {
    /// The characters of the string, without quotes or escapes.
    pub open spec fn content(&self) -> Seq<char> {
        match self {
            ZhangString::UnquoteString(s) => s@,
            ZhangString::QuoteString(s) => s@,
        }
    }

    /// How the string is written: bare as it is, or quoted and escaped.
    pub open spec fn text(&self) -> Seq<char> {
        match self {
            ZhangString::UnquoteString(s) => s@,
            ZhangString::QuoteString(s) => quoted_text(s@),
        }
    }

    pub fn as_str(&self) -> (r: &str)
        ensures
            r@ == self.content(),
    {
        match self {
            ZhangString::UnquoteString(s) => s.as_str(),
            ZhangString::QuoteString(s) => s.as_str(),
        }
    }

    /// The string held, without quotes or escapes.
    pub open spec fn plain(&self) -> String {
        match self {
            ZhangString::UnquoteString(s) => *s,
            ZhangString::QuoteString(s) => *s,
        }
    }

    /// A copy of the string held.
    pub fn plain_string(&self) -> (r: String)
        ensures
            r == self.plain(),
            r@ == self.content(),
    {
        match self {
            ZhangString::UnquoteString(s) => s.clone(),
            ZhangString::QuoteString(s) => s.clone(),
        }
    }

    pub fn to_plain_string(self) -> (r: String)
        ensures
            r@ == self.content(),
    {
        match self {
            ZhangString::UnquoteString(unquote) => unquote,
            ZhangString::QuoteString(quote) => quote,
        }
    }

    /// A string to be written between quotes.
    pub fn quote(content: &str) -> (r: ZhangString)
        ensures
            r is QuoteString,
            r.content() == content@,
    {
        ZhangString::QuoteString(content.to_owned())
    }

    /// A string to be written bare.
    pub fn unquote(content: &str) -> (r: ZhangString)
        ensures
            r is UnquoteString,
            r.content() == content@,
    {
        ZhangString::UnquoteString(content.to_owned())
    }

    /// Appends the written form of the string.
    pub fn push_text(&self, out: &mut Vec<char>)
        ensures
            final(out)@ == old(out)@ + self.text(),
    {
        match self {
            ZhangString::UnquoteString(s) => crate::strings::push_string_chars(out, s),
            ZhangString::QuoteString(s) => push_quoted(out, s.as_str()),
        }
    }
}

/// Conversions of an owned string into a ledger string.
pub trait StringExt {
    spec fn chars(&self) -> Seq<char>;

    fn to_quote(&self) -> (r: ZhangString)
        ensures
            r is QuoteString,
            r.content() == self.chars(),
    ;

    fn to_unquote(&self) -> (r: ZhangString)
        ensures
            r is UnquoteString,
            r.content() == self.chars(),
    ;

    fn into_quote(self) -> (r: ZhangString)
        ensures
            r is QuoteString,
            r.content() == self.chars(),
    ;

    fn into_unquote(self) -> (r: ZhangString)
        ensures
            r is UnquoteString,
            r.content() == self.chars(),
    ;
}

impl StringExt for String {
    open spec fn chars(&self) -> Seq<char> {
        self@
    }

    fn to_quote(&self) -> (r: ZhangString) {
        ZhangString::QuoteString(self.clone())
    }

    fn to_unquote(&self) -> (r: ZhangString) {
        ZhangString::UnquoteString(self.clone())
    }

    fn into_quote(self) -> (r: ZhangString) {
        ZhangString::QuoteString(self)
    }

    fn into_unquote(self) -> (r: ZhangString) {
        ZhangString::UnquoteString(self)
    }
}

/// A price of a posting: per unit (`@`) or for all units (`@@`).
#[derive(Debug, PartialEq, Eq, Clone)]
pub enum SingleTotalPrice {
    Single(Amount),
    Total(Amount),
}

/// The flag of a transaction or posting.
#[derive(Debug, PartialEq, Eq, Clone, Copy)]
pub enum Flag {
    Okay,
    Warning,
    BalancePad,
    BalanceCheck,
}

pub open spec fn flag_text(f: Flag) -> Seq<char> {
    match f {
        Flag::Okay => "*"@,
        Flag::Warning => "!"@,
        Flag::BalancePad => "BalancePad"@,
        Flag::BalanceCheck => "BalanceCheck"@,
    }
}

/// The flag a text names, if any.
pub open spec fn flag_of_text(s: Seq<char>) -> Option<Flag> {
    if s == "*"@ {
        Some(Flag::Okay)
    } else if s == "!"@ {
        Some(Flag::Warning)
    } else if s == "BalancePad"@ {
        Some(Flag::BalancePad)
    } else if s == "BalanceCheck"@ {
        Some(Flag::BalanceCheck)
    } else {
        None
    }
}

/// Writing a flag and reading the text back gives the same flag, so that different flags
/// are written differently: `*` for a cleared transaction and `!` for one that needs a
/// look.
pub proof fn law_flag_text_reads_back(f: Flag)
    ensures
        flag_of_text(flag_text(f)) == Some(f),
        f == Flag::Okay ==> flag_text(f) == "*"@,
        f == Flag::Warning ==> flag_text(f) == "!"@,
        forall|g: Flag| #[trigger] flag_text(g) == flag_text(f) ==> g == f,
{
    reveal_strlit("*");
    reveal_strlit("!");
    reveal_strlit("BalancePad");
    reveal_strlit("BalanceCheck");
    let texts = seq!["*"@, "!"@, "BalancePad"@, "BalanceCheck"@];
    assert forall|i: int, j: int| 0 <= i < j < 4 implies #[trigger] texts[i] != #[trigger] texts[j] by {
        if texts[i].len() == texts[j].len() {
            if i < 2 {
                assert(texts[i][0] != texts[j][0]);
            } else {
                assert(texts[i][7] != texts[j][7]);
            }
        }
    }
    assert(texts[0] != texts[1] && texts[0] != texts[2] && texts[0] != texts[3]);
    assert(texts[1] != texts[2] && texts[1] != texts[3] && texts[2] != texts[3]);
}

impl Flag {
    /// The flag that the characters name.
    pub fn from_chars(v: &Vec<char>) -> (r: Option<Flag>)
        ensures
            r == flag_of_text(v@),
    {
        proof {
            reveal_strlit("*");
            reveal_strlit("!");
            reveal_strlit("BalancePad");
            reveal_strlit("BalanceCheck");
        }
        if str_eq_chars("*", v) {
            Some(Flag::Okay)
        } else if str_eq_chars("!", v) {
            Some(Flag::Warning)
        } else if str_eq_chars("BalancePad", v) {
            Some(Flag::BalancePad)
        } else if str_eq_chars("BalanceCheck", v) {
            Some(Flag::BalanceCheck)
        } else {
            None
        }
    }

    /// The flag that a string names.
    pub fn from_text(s: &str) -> (r: Option<Flag>)
        ensures
            r == flag_of_text(s@),
    {
        let v = chars_of(s);
        Flag::from_chars(&v)
    }
}

/// How a commodity amount is rounded.
#[derive(Debug, PartialEq, Eq, Clone, Copy)]
pub enum Rounding {
    RoundUp,
    RoundDown,
}

pub open spec fn rounding_text(r: Rounding) -> Seq<char> {
    match r {
        Rounding::RoundUp => "RoundUp"@,
        Rounding::RoundDown => "RoundDown"@,
    }
}

impl Rounding {
    /// Whether this rounding mode rounds away from zero.
    pub fn is_up(&self) -> (r: bool)
        ensures
            r <==> (*self == Rounding::RoundUp),
    {
        match self {
            Rounding::RoundUp => true,
            Rounding::RoundDown => false,
        }
    }

    /// The rounding mode a string names.
    pub fn from_text(s: &str) -> (r: Option<Rounding>)
        ensures
            r == (if s@ == "RoundUp"@ {
                Some(Rounding::RoundUp)
            } else if s@ == "RoundDown"@ {
                Some(Rounding::RoundDown)
            } else {
                None
            }),
    {
        let v = chars_of(s);
        if str_eq_chars("RoundUp", &v) {
            Some(Rounding::RoundUp)
        } else if str_eq_chars("RoundDown", &v) {
            Some(Rounding::RoundDown)
        } else {
            None
        }
    }

    /// The name of the rounding mode.
    pub fn to_text(&self) -> (r: String)
        ensures
            r@ == rounding_text(*self),
    {
        match self {
            Rounding::RoundUp => "RoundUp".to_owned(),
            Rounding::RoundDown => "RoundDown".to_owned(),
        }
    }
}

} // verus!
