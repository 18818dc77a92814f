use vstd::prelude::*;

use crate::strings::{chars_of, str_eq_chars};

verus! {

/// The kinds of errors that processing a ledger reports.
#[derive(Debug, Clone, Copy, PartialEq, Eq)]
pub enum ErrorKind {
    UnbalancedTransaction,
    TransactionCannotInferTradeAmount,
    TransactionHasMultipleImplicitPosting,
    TransactionExplicitPostingHaveMultipleCommodity,
    AccountBalanceCheckError,
    AccountDoesNotExist,
    AccountClosed,
    CommodityDoesNotDefine,
    NoEnoughCommodityLot,
    CloseNonZeroAccount,
    BudgetDoesNotExist,
    DefineDuplicatedBudget,
    MultipleOperatingCurrencyDetect,
    ParseInvalidMeta,
}

/// How a reduction of a commodity picks the lots it takes from.
#[derive(Debug, Clone, Copy, PartialEq, Eq)]
pub enum BookingMethod {
    Strict,
    Fifo,
    Lifo,
    Average,
    AverageOnly,
    NoBooking,
}

pub open spec fn booking_method_name(m: BookingMethod) -> Seq<char> {
    match m {
        BookingMethod::Strict => "STRICT"@,
        BookingMethod::Fifo => "FIFO"@,
        BookingMethod::Lifo => "LIFO"@,
        BookingMethod::Average => "AVERAGE"@,
        BookingMethod::AverageOnly => "AVERAGE_ONLY"@,
        BookingMethod::NoBooking => "NONE"@,
    }
}

impl BookingMethod {
    /// The booking method a metadata value names; any other value is invalid metadata.
    pub fn from_text(s: &str) -> (r: Result<BookingMethod, ErrorKind>)
        ensures
            match r {
                Ok(m) => booking_method_name(m) == s@,
                Err(e) => e == ErrorKind::ParseInvalidMeta && forall|m: BookingMethod| booking_method_name(m) != s@,
            },
    {
        let v = chars_of(s);
        if str_eq_chars("STRICT", &v) {
            Ok(BookingMethod::Strict)
        } else if str_eq_chars("FIFO", &v) {
            Ok(BookingMethod::Fifo)
        } else if str_eq_chars("LIFO", &v) {
            Ok(BookingMethod::Lifo)
        } else if str_eq_chars("AVERAGE", &v) {
            Ok(BookingMethod::Average)
        } else if str_eq_chars("AVERAGE_ONLY", &v) {
            Ok(BookingMethod::AverageOnly)
        } else if str_eq_chars("NONE", &v) {
            Ok(BookingMethod::NoBooking)
        } else {
            proof {
                assert forall|m: BookingMethod| booking_method_name(m) != s@ by {
                    match m {
                        BookingMethod::Strict => {},
                        BookingMethod::Fifo => {},
                        BookingMethod::Lifo => {},
                        BookingMethod::Average => {},
                        BookingMethod::AverageOnly => {},
                        BookingMethod::NoBooking => {},
                    }
                }
            }
            Err(ErrorKind::ParseInvalidMeta)
        }
    }

    /// The name of the booking method.
    pub fn to_text(&self) -> (r: String)
        ensures
            r@ == booking_method_name(*self),
    {
        match self {
            BookingMethod::Strict => "STRICT".to_owned(),
            BookingMethod::Fifo => "FIFO".to_owned(),
            BookingMethod::Lifo => "LIFO".to_owned(),
            BookingMethod::Average => "AVERAGE".to_owned(),
            BookingMethod::AverageOnly => "AVERAGE_ONLY".to_owned(),
            BookingMethod::NoBooking => "NONE".to_owned(),
        }
    }
}

} // verus!
