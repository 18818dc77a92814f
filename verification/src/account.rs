use vstd::prelude::*;

use crate::strings::{
    chars_of, has_no_char, join_parts, join_strings, lemma_split_unique_on, split_on, str_eq_chars, string_from_chars,
    string_views,
};

verus! {

/// The five kinds of accounts of double-entry book-keeping.
#[derive(Debug, PartialEq, Eq, Copy, Clone, Hash)]
pub enum AccountType {
    Assets,
    Liabilities,
    Equity,
    Income,
    Expenses,
}

pub open spec fn account_type_name(t: AccountType) -> Seq<char> {
    match t {
        AccountType::Assets => "Assets"@,
        AccountType::Liabilities => "Liabilities"@,
        AccountType::Equity => "Equity"@,
        AccountType::Income => "Income"@,
        AccountType::Expenses => "Expenses"@,
    }
}

/// The account type a name spells, if any.
pub open spec fn account_type_of_name(s: Seq<char>) -> Option<AccountType> {
    if s == "Assets"@ {
        Some(AccountType::Assets)
    } else if s == "Liabilities"@ {
        Some(AccountType::Liabilities)
    } else if s == "Equity"@ {
        Some(AccountType::Equity)
    } else if s == "Income"@ {
        Some(AccountType::Income)
    } else if s == "Expenses"@ {
        Some(AccountType::Expenses)
    } else {
        None
    }
}

/// The type read from a name is the type that the name spells: reading the name of a type
/// gives that type back, and different types have different names.
pub proof fn law_account_type_name_reads_back(t: AccountType)
    ensures
        account_type_of_name(account_type_name(t)) == Some(t),
        forall|s: Seq<char>| #[trigger] account_type_of_name(s) == Some(t) ==> s == account_type_name(t),
{
    reveal_strlit("Assets");
    reveal_strlit("Liabilities");
    reveal_strlit("Equity");
    reveal_strlit("Income");
    reveal_strlit("Expenses");
    let names = seq!["Assets"@, "Liabilities"@, "Equity"@, "Income"@, "Expenses"@];
    assert forall|i: int, j: int| 0 <= i < j < 5 implies #[trigger] names[i] != #[trigger] names[j] by {
        if names[i].len() == names[j].len() {
            assert(names[i][0] != names[j][0]);
        }
    }
    assert(names[0] != names[1] && names[0] != names[2] && names[0] != names[3] && names[0] != names[4]);
    assert(names[1] != names[2] && names[1] != names[3] && names[1] != names[4]);
    assert(names[2] != names[3] && names[2] != names[4] && names[3] != names[4]);
}

impl AccountType {
    /// The type that a name spells.
    pub fn from_chars(v: &Vec<char>) -> (r: Option<AccountType>)
        ensures
            r == account_type_of_name(v@),
    {
        if str_eq_chars("Assets", v) {
            Some(AccountType::Assets)
        } else if str_eq_chars("Liabilities", v) {
            Some(AccountType::Liabilities)
        } else if str_eq_chars("Equity", v) {
            Some(AccountType::Equity)
        } else if str_eq_chars("Income", v) {
            Some(AccountType::Income)
        } else if str_eq_chars("Expenses", v) {
            Some(AccountType::Expenses)
        } else {
            None
        }
    }

    /// The type that a string names.
    pub fn from_text(s: &str) -> (r: Option<AccountType>)
        ensures
            r == account_type_of_name(s@),
    {
        let v = chars_of(s);
        AccountType::from_chars(&v)
    }
}

/// An account: its type, its full name, and the segments of the name (the first segment
/// names the type).
#[derive(Debug, PartialEq, Eq, Clone)]
pub struct Account {
    pub account_type: AccountType,
    pub content: String,
    pub components: Vec<String>,
}

/// Why a string is no account name.
#[derive(Debug, PartialEq, Eq, Clone, Copy)]
pub enum AccountError {
    InvalidAccount,
}

pub open spec fn has_no_colon(s: Seq<char>) -> bool {
    has_no_char(s, ':')
}

impl Account {
    /// The segments of the name.
    pub open spec fn segments(&self) -> Seq<Seq<char>> {
        string_views(self.components@)
    }

    /// The full name is the segments joined by `:`.
    pub open spec fn wf(&self) -> bool {
        self.content@ == join_parts(self.segments(), ':')
    }

    /// The parent account: the name without its last segment.
    pub fn parent(&self) -> (r: Account)
        requires
            self.components@.len() >= 1,
        ensures
            r.account_type == self.account_type,
            r.segments() == self.segments().drop_last(),
            r.wf(),
    {
        let n = self.components.len();
        let mut parent_components: Vec<String> = Vec::new();
        let mut i: usize = 0;
        while i < n - 1
            invariant
                n == self.components@.len(),
                n >= 1,
                i <= n - 1,
                string_views(parent_components@) == string_views(self.components@.take(i as int)),
            decreases n - 1 - i,
        {
            let ghost before = parent_components@;
            let c = self.components[i].clone();
            parent_components.push(c);
            proof {
                assert(self.components@.take(i + 1) =~= self.components@.take(i as int).push(c));
                assert(string_views(before.push(c)) =~= string_views(before).push(c@));
                assert(string_views(self.components@.take(i as int).push(c)) =~= string_views(self.components@.take(i as int)).push(c@));
            }
            i = i + 1;
        }
        let content = join_strings(&parent_components, ':');
        proof {
            assert(string_views(self.components@.take(n - 1)) =~= self.segments().drop_last());
        }
        Account { account_type: self.account_type, content, components: parent_components }
    }

    /// The last segment of the name.
    pub fn leaf(&self) -> (r: &str)
        requires
            self.components@.len() >= 1,
        ensures
            r@ == self.segments().last(),
    {
        self.components[self.components.len() - 1].as_str()
    }

    /// The child account with one more segment.
    pub fn join(&self, component: &str) -> (r: Account)
        ensures
            r.account_type == self.account_type,
            r.segments() == self.segments().push(component@),
            r.content@ == self.content@ + seq![':'] + component@,
    {
        let mut cloned: Vec<String> = Vec::new();
        let mut i: usize = 0;
        while i < self.components.len()
            invariant
                i <= self.components@.len(),
                string_views(cloned@) == string_views(self.components@.take(i as int)),
            decreases self.components@.len() - i,
        {
            let ghost before = cloned@;
            let c = self.components[i].clone();
            cloned.push(c);
            proof {
                assert(self.components@.take(i + 1) =~= self.components@.take(i as int).push(c));
                assert(string_views(before.push(c)) =~= string_views(before).push(c@));
                assert(string_views(self.components@.take(i as int).push(c)) =~= string_views(self.components@.take(i as int)).push(c@));
            }
            i = i + 1;
        }
        proof {
            assert(self.components@.take(self.components@.len() as int) =~= self.components@);
        }
        let ghost before = string_views(cloned@);
        cloned.push(component.to_owned());
        proof {
            assert(string_views(cloned@) =~= before.push(component@));
        }
        let mut v = chars_of(self.content.as_str());
        v.push(':');
        let c = chars_of(component);
        let mut k: usize = 0;
        let ghost start = v@;
        while k < c.len()
            invariant
                k <= c@.len(),
                v@ == start + c@.subrange(0, k as int),
            decreases c@.len() - k,
        {
            v.push(c[k]);
            proof {
                assert(start + c@.subrange(0, k as int).push(c@[k as int]) =~= start + c@.subrange(0, k + 1));
            }
            k = k + 1;
        }
        assert(c@.subrange(0, c@.len() as int) =~= c@);
        Account { account_type: self.account_type, content: string_from_chars(&v), components: cloned }
    }

    /// The segments of the name.
    pub fn components(&self) -> (r: Vec<&str>)
        ensures
            r@.len() == self.components@.len(),
            forall|i: int| 0 <= i < r@.len() ==> (#[trigger] r@[i])@ == self.components@[i]@,
    {
        let mut r: Vec<&str> = Vec::new();
        let mut i: usize = 0;
        while i < self.components.len()
            invariant
                i <= self.components@.len(),
                r@.len() == i,
                forall|j: int| 0 <= j < i ==> (#[trigger] r@[j])@ == self.components@[j]@,
            decreases self.components@.len() - i,
        {
            r.push(self.components[i].as_str());
            i = i + 1;
        }
        r
    }

    /// The name has a single segment.
    pub fn is_root_account(&self) -> (r: bool)
        ensures
            r == (self.components@.len() == 1),
    {
        self.components.len() == 1
    }

    pub fn is_assets(&self) -> (r: bool)
        ensures
            r == (self.account_type == AccountType::Assets),
    {
        matches!(self.account_type, AccountType::Assets)
    }

    pub fn is_equity(&self) -> (r: bool)
        ensures
            r == (self.account_type == AccountType::Equity),
    {
        matches!(self.account_type, AccountType::Equity)
    }

    pub fn is_liabilities(&self) -> (r: bool)
        ensures
            r == (self.account_type == AccountType::Liabilities),
    {
        matches!(self.account_type, AccountType::Liabilities)
    }

    pub fn is_expenses(&self) -> (r: bool)
        ensures
            r == (self.account_type == AccountType::Expenses),
    {
        matches!(self.account_type, AccountType::Expenses)
    }

    pub fn is_income(&self) -> (r: bool)
        ensures
            r == (self.account_type == AccountType::Income),
    {
        matches!(self.account_type, AccountType::Income)
    }

    /// Assets, liabilities and equity accounts are balance sheet accounts.
    pub fn is_balance_sheet_account(&self) -> (r: bool)
        ensures
            r == (self.account_type == AccountType::Assets || self.account_type == AccountType::Liabilities
                || self.account_type == AccountType::Equity),
    {
        self.is_assets() || self.is_liabilities() || self.is_equity()
    }

    /// Income and expense accounts are income statement accounts.
    pub fn is_income_statement_account(&self) -> (r: bool)
        ensures
            r == (self.account_type == AccountType::Income || self.account_type == AccountType::Expenses),
    {
        self.is_income() || self.is_expenses()
    }

    /// Accounts whose balances are shown with inverted signs: income, liabilities and equity.
    pub fn is_invert_account(&self) -> (r: bool)
        ensures
            r == (self.account_type == AccountType::Income || self.account_type == AccountType::Liabilities
                || self.account_type == AccountType::Equity),
    {
        self.is_income() || self.is_liabilities() || self.is_equity()
    }

    /// The sign of the normal balance of the account: `1` for assets and expenses, `-1` otherwise.
    pub fn get_account_sign(&self) -> (r: i8)
        ensures
            r == (if self.account_type == AccountType::Assets || self.account_type == AccountType::Expenses {
                1i8
            } else {
                -1i8
            }),
    {
        match self.account_type {
            AccountType::Assets => 1,
            AccountType::Liabilities => -1,
            AccountType::Equity => -1,
            AccountType::Income => -1,
            AccountType::Expenses => 1,
        }
    }

    /// An equal account.
    pub fn clone_account(&self) -> (r: Account)
        ensures
            r.account_type == self.account_type,
            r.content == self.content,
            r.components@ == self.components@,
    {
        let mut components: Vec<String> = Vec::new();
        let mut i: usize = 0;
        while i < self.components.len()
            invariant
                i <= self.components@.len(),
                components@ == self.components@.take(i as int),
            decreases self.components@.len() - i,
        {
            components.push(self.components[i].clone());
            proof {
                assert(self.components@.take(i + 1) =~= self.components@.take(i as int).push(self.components@[i as int]));
            }
            i = i + 1;
        }
        proof {
            assert(self.components@.take(self.components@.len() as int) =~= self.components@);
        }
        Account { account_type: self.account_type, content: self.content.clone(), components }
    }

    /// The name of the account.
    pub fn name(&self) -> (r: &str)
        ensures
            r@ == self.content@,
    {
        self.content.as_str()
    }
}

/// The segments of a name, split at each `:`.
pub fn split_colon(v: &Vec<char>) -> (r: Vec<Vec<char>>)
    ensures
        r@.len() >= 1,
        join_parts(r@.map_values(|p: Vec<char>| p@), ':') == v@,
        forall|i: int| 0 <= i < r@.len() ==> has_no_colon(#[trigger] r@[i]@),
{
    split_on(v, ':')
}

impl Account {
    /// Reads an account name: segments separated by `:`, the first naming the account type.
    pub fn from_text(s: &str) -> (r: Result<Account, AccountError>)
        ensures
            match r {
                Ok(a) => {
                    &&& a.content@ == s@
                    &&& a.wf()
                    &&& a.segments().len() >= 1
                    &&& forall|i: int| 0 <= i < a.segments().len() ==> has_no_colon(#[trigger] a.segments()[i])
                    &&& account_type_of_name(a.segments()[0]) == Some(a.account_type)
                },
                Err(_) => forall|parts: Seq<Seq<char>>|
                    parts.len() >= 1 && join_parts(parts, ':') == s@ && (forall|i: int|
                        0 <= i < parts.len() ==> has_no_colon(#[trigger] parts[i]))
                        ==> account_type_of_name(parts[0]) is None,
            },
    {
        let v = chars_of(s);
        Account::from_chars(&v)
    }

    /// Reads an account name from its characters; see `from_text`.
    pub fn from_chars(v: &Vec<char>) -> (r: Result<Account, AccountError>)
        ensures
            match r {
                Ok(a) => {
                    &&& a.content@ == v@
                    &&& a.wf()
                    &&& a.segments().len() >= 1
                    &&& forall|i: int| 0 <= i < a.segments().len() ==> has_no_colon(#[trigger] a.segments()[i])
                    &&& account_type_of_name(a.segments()[0]) == Some(a.account_type)
                },
                Err(_) => forall|parts: Seq<Seq<char>>|
                    parts.len() >= 1 && join_parts(parts, ':') == v@ && (forall|i: int|
                        0 <= i < parts.len() ==> has_no_colon(#[trigger] parts[i]))
                        ==> account_type_of_name(parts[0]) is None,
            },
    {
        let parts = split_colon(v);
        let t = AccountType::from_chars(&parts[0]);
        match t {
            Some(account_type) => {
                let mut components: Vec<String> = Vec::new();
                let mut i: usize = 0;
                while i < parts.len()
                    invariant
                        i <= parts@.len(),
                        string_views(components@) == parts@.take(i as int).map_values(|p: Vec<char>| p@),
                    decreases parts@.len() - i,
                {
                    let ghost before = components@;
                    let st = string_from_chars(&parts[i]);
                    components.push(st);
                    proof {
                        assert(string_views(before.push(st)) =~= string_views(before).push(st@));
                        assert(parts@.take(i + 1) =~= parts@.take(i as int).push(parts@[i as int]));
                        assert(parts@.take(i as int).push(parts@[i as int]).map_values(|p: Vec<char>| p@) =~= parts@.take(i as int).map_values(|p: Vec<char>| p@).push(parts@[i as int]@));
                    }
                    i = i + 1;
                }
                proof {
                    assert(parts@.take(parts@.len() as int) =~= parts@);
                }
                Ok(Account { account_type, content: string_from_chars(v), components })
            },
            None => {
                proof {
                    assert forall|ps: Seq<Seq<char>>|
                        ps.len() >= 1 && join_parts(ps, ':') == v@ && (forall|i: int|
                            0 <= i < ps.len() ==> has_no_colon(#[trigger] ps[i]))
                            implies account_type_of_name(ps[0]) is None by {
                        lemma_split_unique(ps, parts@.map_values(|p: Vec<char>| p@));
                    }
                }
                Err(AccountError::InvalidAccount)
            },
        }
    }
}

/// A sequence of colon-free parts is determined by its join.
pub proof fn lemma_split_unique(a: Seq<Seq<char>>, b: Seq<Seq<char>>)
    requires
        a.len() >= 1,
        b.len() >= 1,
        join_parts(a, ':') == join_parts(b, ':'),
        forall|i: int| 0 <= i < a.len() ==> has_no_colon(#[trigger] a[i]),
        forall|i: int| 0 <= i < b.len() ==> has_no_colon(#[trigger] b[i]),
    ensures
        a == b,
{
    lemma_split_unique_on(a, b, ':');
}

/// Joining a segment and going back up are inverse: the account joined with a segment has
/// that segment as its leaf and the account's own segments as its parent's.
pub proof fn law_join_then_parent(a: Account, c: Seq<char>)
    ensures
        a.segments().push(c).drop_last() == a.segments(),
        a.segments().push(c).last() == c,
{
    assert(a.segments().push(c).drop_last() =~= a.segments());
}

} // verus!
