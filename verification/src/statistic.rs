use vstd::prelude::*;

use crate::amount::Amount;
use crate::date::{day_range, is_day_range, valid_date, NaiveDate};
use crate::keys::OrdKey;

verus! {

/// What the postings of one day add to one type of account, in one commodity.
#[derive(Debug, Clone)]
pub struct ChangeRow {
    pub date: NaiveDate,
    pub account_type: String,
    pub amount: Amount,
}

/// The balance of an account at the end of a day.
#[derive(Debug, Clone)]
pub struct BalanceRow {
    pub date: NaiveDate,
    pub account: String,
    pub amount: Amount,
}

/// The amount of the last row of the account at the day.
pub open spec fn last_balance(rows: Seq<BalanceRow>, day: int, account: Seq<char>) -> Option<Amount>
    decreases rows.len(),
{
    if rows.len() == 0 {
        None
    } else if rows.last().date.rank() == day && rows.last().account@ == account {
        Some(rows.last().amount)
    } else {
        last_balance(rows.drop_last(), day, account)
    }
}

/// The amount of the last row of the account, whatever its day.
pub open spec fn last_known(rows: Seq<BalanceRow>, account: Seq<char>) -> Option<Amount>
    decreases rows.len(),
{
    if rows.len() == 0 {
        None
    } else if rows.last().account@ == account {
        Some(rows.last().amount)
    } else {
        last_known(rows.drop_last(), account)
    }
}

/// The balance of the account known after the first `n` days: that of the latest of them
/// with a balance of the account, else the last one known before them.
pub open spec fn balance_after(
    details: Seq<BalanceRow>,
    before: Seq<BalanceRow>,
    days: Seq<NaiveDate>,
    n: nat,
    account: Seq<char>,
) -> Option<Amount>
    decreases n,
{
    if n == 0 {
        last_known(before, account)
    } else {
        match last_balance(details, days[n - 1].rank(), account) {
            Some(a) => Some(a),
            None => balance_after(details, before, days, (n - 1) as nat, account),
        }
    }
}

/// `a` is the balance that a day shows for an account: the one known, else zero in the
/// operating currency.
pub open spec fn shown_balance(known: Option<Amount>, a: Amount, operating_currency: Seq<char>) -> bool {
    match known {
        Some(k) => a == k,
        None => a.number.mant() == 0 && a.number.scl() == 0 && a.currency@ == operating_currency,
    }
}

fn find_last_balance(rows: &Vec<BalanceRow>, day: &NaiveDate, account: &String) -> (r: Option<Amount>)
    ensures
        r == last_balance(rows@, day.rank(), account@),
{
    let mut i = rows.len();
    proof {
        assert(rows@.take(i as int) =~= rows@);
    }
    while i > 0
        invariant
            i <= rows@.len(),
            last_balance(rows@, day.rank(), account@) == last_balance(rows@.take(i as int), day.rank(), account@),
        decreases i,
    {
        let row = &rows[i - 1];
        proof {
            assert(rows@.take(i as int).last() == rows@[i - 1]);
            assert(rows@.take(i as int).drop_last() =~= rows@.take(i - 1));
        }
        if row.date.key_eq(day) && row.account == *account {
            return Some(row.amount.copy());
        }
        i = i - 1;
    }
    None
}

fn find_last_known(rows: &Vec<BalanceRow>, account: &String) -> (r: Option<Amount>)
    ensures
        r == last_known(rows@, account@),
{
    let mut i = rows.len();
    proof {
        assert(rows@.take(i as int) =~= rows@);
    }
    while i > 0
        invariant
            i <= rows@.len(),
            last_known(rows@, account@) == last_known(rows@.take(i as int), account@),
        decreases i,
    {
        let row = &rows[i - 1];
        proof {
            assert(rows@.take(i as int).last() == rows@[i - 1]);
            assert(rows@.take(i as int).drop_last() =~= rows@.take(i - 1));
        }
        if row.account == *account {
            return Some(row.amount.copy());
        }
        i = i - 1;
    }
    None
}

/// The balances that each day shows for each account: for every day in order, every account
/// in order with the balance of its last row at that day, else the balance it had before,
/// else zero in the operating currency.
pub fn statistic_details(
    accounts: &Vec<String>,
    before: &Vec<BalanceRow>,
    details: &Vec<BalanceRow>,
    days: &Vec<NaiveDate>,
    operating_currency: &str,
) -> (r: Vec<(NaiveDate, Vec<(String, Amount)>)>)
    ensures
        r@.len() == days@.len(),
        forall|k: int| 0 <= k < r@.len() ==> (#[trigger] r@[k]).0 == days@[k] && r@[k].1@.len() == accounts@.len(),
        forall|k: int, j: int|
            0 <= k < r@.len() && 0 <= j < accounts@.len() ==> (#[trigger] r@[k].1@[j]).0@ == accounts@[j]@
                && shown_balance(
                balance_after(details@, before@, days@, (k + 1) as nat, accounts@[j]@),
                r@[k].1@[j].1,
                operating_currency@,
            ),
{
    let mut carry: Vec<Option<Amount>> = Vec::new();
    let mut j: usize = 0;
    while j < accounts.len()
        invariant
            j <= accounts@.len(),
            carry@.len() == j,
            forall|q: int| 0 <= q < j ==> #[trigger] carry@[q] == balance_after(details@, before@, days@, 0, accounts@[q]@),
        decreases accounts@.len() - j,
    {
        carry.push(find_last_known(before, &accounts[j]));
        j = j + 1;
    }
    let mut r: Vec<(NaiveDate, Vec<(String, Amount)>)> = Vec::new();
    let mut k: usize = 0;
    while k < days.len()
        invariant
            k <= days@.len(),
            carry@.len() == accounts@.len(),
            forall|q: int| 0 <= q < accounts@.len() ==> #[trigger] carry@[q] == balance_after(details@, before@, days@, k as nat, accounts@[q]@),
            r@.len() == k,
            forall|p: int| 0 <= p < r@.len() ==> (#[trigger] r@[p]).0 == days@[p] && r@[p].1@.len() == accounts@.len(),
            forall|p: int, q: int|
                0 <= p < r@.len() && 0 <= q < accounts@.len() ==> (#[trigger] r@[p].1@[q]).0@ == accounts@[q]@
                    && shown_balance(
                    balance_after(details@, before@, days@, (p + 1) as nat, accounts@[q]@),
                    r@[p].1@[q].1,
                    operating_currency@,
                ),
        decreases days@.len() - k,
    {
        let day = &days[k];
        let mut row: Vec<(String, Amount)> = Vec::new();
        let mut j: usize = 0;
        while j < accounts.len()
            invariant
                k < days@.len(),
                *day == days@[k as int],
                j <= accounts@.len(),
                carry@.len() == accounts@.len(),
                forall|q: int| 0 <= q < j ==> #[trigger] carry@[q] == balance_after(details@, before@, days@, (k + 1) as nat, accounts@[q]@),
                forall|q: int| j <= q < accounts@.len() ==> #[trigger] carry@[q] == balance_after(details@, before@, days@, k as nat, accounts@[q]@),
                row@.len() == j,
                forall|q: int| 0 <= q < j ==> (#[trigger] row@[q]).0@ == accounts@[q]@ && shown_balance(
                    balance_after(details@, before@, days@, (k + 1) as nat, accounts@[q]@),
                    row@[q].1,
                    operating_currency@,
                ),
            decreases accounts@.len() - j,
        {
            let account = &accounts[j];
            let found = find_last_balance(details, day, account);
            let ghost old_carry = carry@;
            match found {
                Some(a) => {
                    carry.set(j, Some(a.copy()));
                    row.push((account.clone(), a));
                },
                None => {
                    let shown = match &carry[j] {
                        Some(a) => a.copy(),
                        None => Amount::zero(operating_currency),
                    };
                    row.push((account.clone(), shown));
                },
            }
            proof {
                assert forall|q: int| 0 <= q < accounts@.len() && q != j implies #[trigger] carry@[q] == old_carry[q] by {}
            }
            j = j + 1;
        }
        r.push((*day, row));
        k = k + 1;
    }
    r
}

/// The days of the rows of a statistic.
pub open spec fn day_keys(r: Seq<(NaiveDate, Vec<(String, Amount)>)>) -> Seq<NaiveDate> {
    r.map_values(|e: (NaiveDate, Vec<(String, Amount)>)| e.0)
}


/// The amount of the last row of the type of account at the day.
pub open spec fn last_change(rows: Seq<ChangeRow>, day: int, account_type: Seq<char>) -> Option<Amount>
    decreases rows.len(),
{
    if rows.len() == 0 {
        None
    } else if rows.last().date.rank() == day && rows.last().account_type@ == account_type {
        Some(rows.last().amount)
    } else {
        last_change(rows.drop_last(), day, account_type)
    }
}

/// Some entry of the day holds the type of account.
pub open spec fn has_type(r: Seq<(NaiveDate, Vec<(String, Amount)>)>, d: NaiveDate, t: Seq<char>) -> bool {
    exists|p: int, a: int| 0 <= p < r.len() && 0 <= a < r[p].1@.len() && (#[trigger] r[p].1@[a]).0@ == t && r[p].0.rank() == d.rank()
}

/// Some entry is of the day.
pub open spec fn has_day(r: Seq<(NaiveDate, Vec<(String, Amount)>)>, d: NaiveDate) -> bool {
    exists|p: int| 0 <= p < r.len() && (#[trigger] r[p]).0.rank() == d.rank()
}

/// One of the first `n` rows is of the day.
pub open spec fn is_row_date(rows: Seq<ChangeRow>, n: int, d: NaiveDate) -> bool {
    exists|q: int| 0 <= q < n && (#[trigger] rows[q]).date == d
}

/// One of the first `k` days asked for is the day.
pub open spec fn is_day(days: Seq<NaiveDate>, k: int, d: NaiveDate) -> bool {
    exists|x: int| 0 <= x < k && (#[trigger] days[x]) == d
}

/// The changes of a statistic: one entry per day, the days distinct; an entry holds each type
/// of account once, with the amount of its last row at that day; every row is there.
pub open spec fn changes_of(rows: Seq<ChangeRow>, r: Seq<(NaiveDate, Vec<(String, Amount)>)>) -> bool {
    &&& forall|p: int, q: int| 0 <= p < q < r.len() ==> (#[trigger] r[p]).0.rank() != (#[trigger] r[q]).0.rank()
    &&& forall|p: int, a: int, b: int|
        0 <= p < r.len() && 0 <= a < b < r[p].1@.len() ==> (#[trigger] r[p].1@[a]).0@ != (#[trigger] r[p].1@[b]).0@
    &&& forall|p: int, a: int|
        0 <= p < r.len() && 0 <= a < r[p].1@.len() ==> last_change(rows, r[p].0.rank(), (#[trigger] r[p].1@[a]).0@)
            == Some(r[p].1@[a].1)
    &&& forall|i: int| 0 <= i < rows.len() ==> has_type(r, (#[trigger] rows[i]).date, rows[i].account_type@)
}

/// Every entry is of the day of a row or of one of the first `k` days asked for.
pub open spec fn dates_known(rows: Seq<ChangeRow>, days: Seq<NaiveDate>, r: Seq<(NaiveDate, Vec<(String, Amount)>)>, k: int) -> bool {
    forall|p: int| 0 <= p < r.len() ==> is_row_date(rows, rows.len() as int, #[trigger] r[p].0) || is_day(days, k, r[p].0)
}

/// Each of the first `k` days asked for has an entry.
pub open spec fn days_covered(days: Seq<NaiveDate>, r: Seq<(NaiveDate, Vec<(String, Amount)>)>, k: int) -> bool {
    forall|x: int| 0 <= x < k ==> has_day(r, #[trigger] days[x])
}

fn find_day(r: &Vec<(NaiveDate, Vec<(String, Amount)>)>, day: &NaiveDate) -> (res: Option<usize>)
    ensures
        match res {
            Some(p) => p < r@.len() && r@[p as int].0.rank() == day.rank(),
            None => forall|p: int| 0 <= p < r@.len() ==> (#[trigger] r@[p]).0.rank() != day.rank(),
        },
{
    let mut p: usize = 0;
    while p < r.len()
        invariant
            p <= r@.len(),
            forall|q: int| 0 <= q < p ==> (#[trigger] r@[q]).0.rank() != day.rank(),
        decreases r@.len() - p,
    {
        if r[p].0.key_eq(day) {
            return Some(p);
        }
        p = p + 1;
    }
    None
}

fn find_key(list: &Vec<(String, Amount)>, key: &String) -> (res: Option<usize>)
    ensures
        match res {
            Some(a) => a < list@.len() && list@[a as int].0@ == key@,
            None => forall|a: int| 0 <= a < list@.len() ==> (#[trigger] list@[a]).0@ != key@,
        },
{
    let mut a: usize = 0;
    while a < list.len()
        invariant
            a <= list@.len(),
            forall|q: int| 0 <= q < a ==> (#[trigger] list@[q]).0@ != key@,
        decreases list@.len() - a,
    {
        if list[a].0 == *key {
            return Some(a);
        }
        a = a + 1;
    }
    None
}

/// Recording one more row keeps the changes exact: the entry of its day holds its type with
/// its amount, every other entry and pair stays.
proof fn lemma_row_step(
    pre: Seq<ChangeRow>,
    row: ChangeRow,
    before: Seq<(NaiveDate, Vec<(String, Amount)>)>,
    r: Seq<(NaiveDate, Vec<(String, Amount)>)>,
    p: int,
    old_list: Seq<(String, Amount)>,
)
    requires
        changes_of(pre, before),
        0 <= p < r.len(),
        r.len() == before.len() || (r.len() == before.len() + 1 && p == before.len()),
        p < before.len() ==> before[p].0.rank() == row.date.rank() && old_list == before[p].1@,
        p == before.len() ==> old_list.len() == 0 && forall|q: int| 0 <= q < before.len() ==> (#[trigger] before[q]).0.rank()
            != row.date.rank(),
        r[p].0 == row.date,
        forall|q: int| 0 <= q < before.len() && q != p ==> #[trigger] r[q] == before[q],
        (exists|a0: int| 0 <= a0 < old_list.len() && (#[trigger] old_list[a0]).0@ == row.account_type@ && r[p].1@ == old_list.update(
            a0,
            (row.account_type, row.amount),
        )) || ((forall|a: int| 0 <= a < old_list.len() ==> (#[trigger] old_list[a]).0@ != row.account_type@) && r[p].1@
            == old_list.push((row.account_type, row.amount))),
    ensures
        changes_of(pre.push(row), r),
{
    let post = pre.push(row);
    let d = row.date.rank();
    let t = row.account_type@;
    let nl = r[p].1@;
    assert(post.drop_last() =~= pre);
    assert(post.last() == row);
    assert(forall|a: int| 0 <= a < nl.len() && (#[trigger] nl[a]).0@ != t ==> a < old_list.len() && nl[a] == old_list[a]);
    assert(forall|a: int| 0 <= a < nl.len() && (#[trigger] nl[a]).0@ == t ==> nl[a].1 == row.amount);
    assert forall|x: int, y: int| 0 <= x < y < r.len() implies (#[trigger] r[x]).0.rank() != (#[trigger] r[y]).0.rank() by {
        if x != p && y != p {
            assert(r[x] == before[x] && r[y] == before[y]);
        } else if x == p {
            assert(r[y] == before[y]);
        } else {
            assert(r[x] == before[x]);
        }
    }
    assert forall|q: int, a: int, b: int|
        0 <= q < r.len() && 0 <= a < b < r[q].1@.len() implies (#[trigger] r[q].1@[a]).0@ != (#[trigger] r[q].1@[b]).0@ by {
        if q != p {
            assert(r[q] == before[q]);
        } else {
            if nl[a].0@ != t && nl[b].0@ != t {
                assert(nl[a] == old_list[a] && nl[b] == old_list[b]);
                assert(p < before.len());
            } else if nl[a].0@ == t && nl[b].0@ == t {
                if exists|a0: int| 0 <= a0 < old_list.len() && (#[trigger] old_list[a0]).0@ == t && nl == old_list.update(
                    a0,
                    (row.account_type, row.amount),
                ) {
                    let a0 = choose|a0: int| 0 <= a0 < old_list.len() && (#[trigger] old_list[a0]).0@ == t && nl == old_list.update(
                        a0,
                        (row.account_type, row.amount),
                    );
                    assert(p < before.len());
                    if a != a0 {
                        assert(nl[a] == old_list[a]);
                    } else {
                        assert(nl[b] == old_list[b]);
                    }
                } else {
                    if a < old_list.len() {
                        assert(nl[a] == old_list[a]);
                    }
                }
            }
        }
    }
    assert forall|q: int, a: int|
        0 <= q < r.len() && 0 <= a < r[q].1@.len() implies last_change(post, r[q].0.rank(), (#[trigger] r[q].1@[a]).0@)
            == Some(r[q].1@[a].1) by {
        if q != p {
            assert(r[q] == before[q]);
        } else if nl[a].0@ != t {
            assert(nl[a] == old_list[a]);
            assert(p < before.len());
        }
    }
    assert forall|j: int| 0 <= j < post.len() implies has_type(r, (#[trigger] post[j]).date, post[j].account_type@) by {
        if j == pre.len() {
            if exists|a0: int| 0 <= a0 < old_list.len() && (#[trigger] old_list[a0]).0@ == t && nl == old_list.update(
                a0,
                (row.account_type, row.amount),
            ) {
                let a0 = choose|a0: int| 0 <= a0 < old_list.len() && (#[trigger] old_list[a0]).0@ == t && nl == old_list.update(
                    a0,
                    (row.account_type, row.amount),
                );
                assert(r[p].1@[a0].0@ == t);
            } else {
                assert(r[p].1@[old_list.len() as int].0@ == t);
            }
        } else {
            assert(post[j] == pre[j]);
            assert(has_type(before, pre[j].date, pre[j].account_type@));
            let (q, a) = choose|q: int, a: int|
                0 <= q < before.len() && 0 <= a < before[q].1@.len() && (#[trigger] before[q].1@[a]).0@ == pre[j].account_type@
                    && before[q].0.rank() == pre[j].date.rank();
            if q != p {
                assert(r[q] == before[q]);
                assert(r[q].1@[a].0@ == post[j].account_type@);
            } else {
                assert(old_list[a].0@ == before[q].1@[a].0@);
                if old_list[a].0@ == t {
                    if exists|a0: int| 0 <= a0 < old_list.len() && (#[trigger] old_list[a0]).0@ == t && nl == old_list.update(
                        a0,
                        (row.account_type, row.amount),
                    ) {
                        let a0 = choose|a0: int| 0 <= a0 < old_list.len() && (#[trigger] old_list[a0]).0@ == t && nl == old_list.update(
                            a0,
                            (row.account_type, row.amount),
                        );
                        assert(r[p].1@[a0].0@ == t);
                    } else {
                        assert(r[p].1@[old_list.len() as int].0@ == t);
                    }
                } else {
                    assert(nl[a] == old_list[a]);
                    assert(r[p].1@[a].0@ == post[j].account_type@);
                }
            }
        }
    }
}

/// What each day changes for each type of account: the amount of the last row of the type at
/// the day, with an entry, empty or not, for every day asked for too.
pub fn statistic_changes(rows: &Vec<ChangeRow>, days: &Vec<NaiveDate>) -> (r: Vec<(NaiveDate, Vec<(String, Amount)>)>)
    ensures
        changes_of(rows@, r@),
        days_covered(days@, r@, days@.len() as int),
        dates_known(rows@, days@, r@, days@.len() as int),
{
    let mut r: Vec<(NaiveDate, Vec<(String, Amount)>)> = Vec::new();
    let mut i: usize = 0;
    proof {
        assert(rows@.take(0) =~= Seq::<ChangeRow>::empty());
    }
    while i < rows.len()
        invariant
            i <= rows@.len(),
            changes_of(rows@.take(i as int), r@),
            forall|p: int| 0 <= p < r@.len() ==> is_row_date(rows@, i as int, #[trigger] r@[p].0),
        decreases rows@.len() - i,
    {
        let row = &rows[i];
        let ghost pre = rows@.take(i as int);
        let ghost before = r@;
        proof {
            assert(rows@.take(i + 1) =~= pre.push(rows@[i as int]));
        }
        let p = match find_day(&r, &row.date) {
            Some(p) => p,
            None => {
                r.push((row.date, Vec::new()));
                r.len() - 1
            },
        };
        let ghost mid = r@;
        let mut list: Vec<(String, Amount)> = Vec::new();
        std::mem::swap(&mut list, &mut r[p].1);
        let ghost old_list = list@;
        match find_key(&list, &row.account_type) {
            Some(a) => {
                list.set(a, (row.account_type.clone(), row.amount.copy()));
            },
            None => {
                list.push((row.account_type.clone(), row.amount.copy()));
            },
        }
        r.set(p, (row.date, list));
        proof {
            assert(old_list == mid[p as int].1@);
            assert(forall|q: int| 0 <= q < before.len() ==> #[trigger] mid[q] == before[q]);
            lemma_row_step(pre, rows@[i as int], before, r@, p as int, old_list);
            assert forall|q: int| 0 <= q < r@.len() implies is_row_date(rows@, i + 1, #[trigger] r@[q].0) by {
                if q < before.len() && q != p {
                    assert(r@[q] == before[q]);
                    let x = choose|x: int| 0 <= x < i && (#[trigger] rows@[x]).date == before[q].0;
                    assert(rows@[x].date == r@[q].0);
                } else {
                    assert(rows@[i as int].date == r@[q].0);
                }
            }
        }
        i = i + 1;
    }
    proof {
        assert(rows@.take(rows@.len() as int) =~= rows@);
        assert forall|p: int| 0 <= p < r@.len() implies is_row_date(rows@, rows@.len() as int, #[trigger] r@[p].0) || is_day(
            days@,
            0,
            r@[p].0,
        ) by {
            assert(is_row_date(rows@, i as int, r@[p].0));
        }
    }
    let mut k: usize = 0;
    while k < days.len()
        invariant
            k <= days@.len(),
            changes_of(rows@, r@),
            days_covered(days@, r@, k as int),
            dates_known(rows@, days@, r@, k as int),
        decreases days@.len() - k,
    {
        let ghost before = r@;
        let found = find_day(&r, &days[k]);
        if found.is_none() {
            let v: Vec<(String, Amount)> = Vec::new();
            r.push((days[k], v));
            proof {
                let n = before.len() as int;
                assert(forall|q: int| 0 <= q < n ==> #[trigger] r@[q] == before[q]);
                assert forall|x: int, y: int| 0 <= x < y < r@.len() implies (#[trigger] r@[x]).0.rank() != (#[trigger] r@[y]).0.rank() by {
                    assert(r@[x] == before[x]);
                    if y < n {
                        assert(r@[y] == before[y]);
                    }
                }
                assert forall|q: int, a: int, b: int|
                    0 <= q < r@.len() && 0 <= a < b < r@[q].1@.len() implies (#[trigger] r@[q].1@[a]).0@ != (#[trigger] r@[q].1@[b]).0@ by {
                    assert(r@[q] == before[q]);
                }
                assert forall|q: int, a: int|
                    0 <= q < r@.len() && 0 <= a < r@[q].1@.len() implies last_change(rows@, r@[q].0.rank(), (#[trigger] r@[q].1@[a]).0@)
                        == Some(r@[q].1@[a].1) by {
                    assert(r@[q] == before[q]);
                }
                assert forall|j: int| 0 <= j < rows@.len() implies has_type(r@, (#[trigger] rows@[j]).date, rows@[j].account_type@) by {
                    assert(has_type(before, rows@[j].date, rows@[j].account_type@));
                    let (q, a) = choose|q: int, a: int|
                        0 <= q < before.len() && 0 <= a < before[q].1@.len() && (#[trigger] before[q].1@[a]).0@ == rows@[j].account_type@
                            && before[q].0.rank() == rows@[j].date.rank();
                    assert(r@[q] == before[q]);
                    assert(r@[q].1@[a].0@ == rows@[j].account_type@);
                }
                assert forall|x: int| 0 <= x < k + 1 implies has_day(r@, #[trigger] days@[x]) by {
                    if x < k {
                        assert(has_day(before, days@[x]));
                        let p = choose|p: int| 0 <= p < before.len() && (#[trigger] before[p]).0.rank() == days@[x].rank();
                        assert(r@[p] == before[p]);
                    } else {
                        assert(r@[n].0 == days@[x]);
                    }
                }
                assert forall|p: int| 0 <= p < r@.len() implies is_row_date(rows@, rows@.len() as int, #[trigger] r@[p].0) || is_day(
                    days@,
                    k + 1,
                    r@[p].0,
                ) by {
                    if p < n {
                        assert(r@[p] == before[p]);
                        if is_day(days@, k as int, before[p].0) {
                            let x = choose|x: int| 0 <= x < k && (#[trigger] days@[x]) == before[p].0;
                            assert(days@[x] == r@[p].0);
                        }
                    } else {
                        assert(days@[k as int] == r@[p].0);
                    }
                }
            }
        } else {
            proof {
                let p = found.unwrap() as int;
                assert forall|x: int| 0 <= x < k + 1 implies has_day(r@, #[trigger] days@[x]) by {
                    if x == k {
                        assert(r@[p].0.rank() == days@[x].rank());
                    }
                }
                assert forall|q: int| 0 <= q < r@.len() implies is_row_date(rows@, rows@.len() as int, #[trigger] r@[q].0) || is_day(
                    days@,
                    k + 1,
                    r@[q].0,
                ) by {
                    if is_day(days@, k as int, r@[q].0) {
                        let x = choose|x: int| 0 <= x < k && (#[trigger] days@[x]) == r@[q].0;
                        assert(days@[x] == r@[q].0);
                    }
                }
            }
        }
        k = k + 1;
    }
    r
}

/// The statistic of the days from `from` to `to` (both included): what each day changes for
/// each type of account (see `statistic_changes`), and the balances that each day shows for
/// each account (see `statistic_details`), whose days are those of the period.
pub fn statistic_for_period(
    rows: &Vec<ChangeRow>,
    accounts: &Vec<String>,
    before: &Vec<BalanceRow>,
    details: &Vec<BalanceRow>,
    from: NaiveDate,
    to: NaiveDate,
    operating_currency: &str,
) -> (r: (Vec<(NaiveDate, Vec<(String, Amount)>)>, Vec<(NaiveDate, Vec<(String, Amount)>)>))
    requires
        valid_date(from),
        valid_date(to),
    ensures
        is_day_range(from, to, day_keys(r.1@)),
        changes_of(rows@, r.0@),
        days_covered(day_keys(r.1@), r.0@, day_keys(r.1@).len() as int),
        dates_known(rows@, day_keys(r.1@), r.0@, day_keys(r.1@).len() as int),
        forall|k: int| 0 <= k < r.1@.len() ==> (#[trigger] r.1@[k]).1@.len() == accounts@.len(),
        forall|k: int, j: int|
            0 <= k < r.1@.len() && 0 <= j < accounts@.len() ==> (#[trigger] r.1@[k].1@[j]).0@ == accounts@[j]@
                && shown_balance(
                balance_after(details@, before@, day_keys(r.1@), (k + 1) as nat, accounts@[j]@),
                r.1@[k].1@[j].1,
                operating_currency@,
            ),
{
    let days = day_range(from, to);
    let changes = statistic_changes(rows, &days);
    let balances = statistic_details(accounts, before, details, &days, operating_currency);
    proof {
        assert(day_keys(balances@) =~= days@);
    }
    (changes, balances)
}

/// The totals shown for the current state: the balance of assets and liabilities, the
/// liabilities, and this month's income and expenses.
#[derive(Debug, Clone)]
pub struct CurrentStatistic {
    pub balance: Amount,
    pub liability: Amount,
    pub income: Amount,
    pub expense: Amount,
}

/// Whether the text begins with the prefix.
pub open spec fn begins_with(s: Seq<char>, prefix: Seq<char>) -> bool {
    s.len() >= prefix.len() && s.subrange(0, prefix.len() as int) == prefix
}

/// The numbers of the rows whose account begins with one of the two prefixes, in order.
pub open spec fn numbers_with_prefix(rows: Seq<BalanceRow>, p1: Seq<char>, p2: Seq<char>) -> Seq<crate::decimal::Decimal>
    decreases rows.len(),
{
    if rows.len() == 0 {
        Seq::empty()
    } else {
        let rest = numbers_with_prefix(rows.drop_last(), p1, p2);
        if begins_with(rows.last().account@, p1) || begins_with(rows.last().account@, p2) {
            rest.push(rows.last().amount.number)
        } else {
            rest
        }
    }
}

/// The amount of the first row of the type of account.
pub open spec fn first_change(rows: Seq<ChangeRow>, account_type: Seq<char>) -> Option<Amount>
    decreases rows.len(),
{
    if rows.len() == 0 {
        None
    } else if rows[0].account_type@ == account_type {
        Some(rows[0].amount)
    } else {
        first_change(rows.drop_first(), account_type)
    }
}

/// `d` is the sum of the numbers as `checked_sum` gives it.
pub open spec fn is_sum(ds: Seq<crate::decimal::Decimal>, d: crate::decimal::Decimal) -> bool {
    crate::decimal::sum_fits(ds) && d.scl() == crate::decimal::max_scale(ds) && d.mant() == crate::decimal::sum_at(
        ds,
        crate::decimal::max_scale(ds),
    )
}

fn begins_with_str(s: &String, prefix: &str) -> (r: bool)
    ensures
        r == begins_with(s@, prefix@),
{
    let v = crate::strings::chars_of(s.as_str());
    let p = crate::strings::chars_of(prefix);
    if v.len() < p.len() {
        return false;
    }
    crate::strings::str_eq_chars(prefix, &crate::decimal::sub_vec(&v, 0, p.len()))
}

fn collect_numbers(rows: &Vec<BalanceRow>, p1: &str, p2: &str) -> (r: Vec<crate::decimal::Decimal>)
    ensures
        r@ == numbers_with_prefix(rows@, p1@, p2@),
{
    let mut r: Vec<crate::decimal::Decimal> = Vec::new();
    let mut i: usize = 0;
    proof {
        assert(rows@.take(0) =~= Seq::<BalanceRow>::empty());
    }
    while i < rows.len()
        invariant
            i <= rows@.len(),
            r@ == numbers_with_prefix(rows@.take(i as int), p1@, p2@),
        decreases rows@.len() - i,
    {
        proof {
            assert(rows@.take(i + 1).drop_last() =~= rows@.take(i as int));
            assert(rows@.take(i + 1).last() == rows@[i as int]);
        }
        if begins_with_str(&rows[i].account, p1) || begins_with_str(&rows[i].account, p2) {
            r.push(rows[i].amount.number.copy());
        }
        i = i + 1;
    }
    proof {
        assert(rows@.take(rows@.len() as int) =~= rows@);
    }
    r
}

fn find_first_change(rows: &Vec<ChangeRow>, account_type: &str) -> (r: Option<Amount>)
    ensures
        r == first_change(rows@, account_type@),
{
    let mut i: usize = 0;
    proof {
        assert(rows@.skip(0) =~= rows@);
    }
    while i < rows.len()
        invariant
            i <= rows@.len(),
            first_change(rows@, account_type@) == first_change(rows@.skip(i as int), account_type@),
        decreases rows@.len() - i,
    {
        proof {
            assert(rows@.skip(i as int)[0] == rows@[i as int]);
            assert(rows@.skip(i as int).drop_first() =~= rows@.skip(i + 1));
        }
        if crate::strings::str_eq_chars(account_type, &crate::strings::chars_of(rows[i].account_type.as_str())) {
            return Some(rows[i].amount.copy());
        }
        i = i + 1;
    }
    None
}

/// The current totals: the sum of the latest balances of asset and liability accounts, that of
/// liability accounts, both in the operating currency, and this month's first income and
/// expense rows, zero in the operating currency without one; always there.
pub fn current_statistic(latest: &Vec<BalanceRow>, month: &Vec<ChangeRow>, operating_currency: &str) -> (r: Option<CurrentStatistic>)
    ensures
        ({
            let bs = numbers_with_prefix(latest@, "Assets"@, "Liabilities"@);
            let ls = numbers_with_prefix(latest@, "Liabilities"@, "Liabilities"@);
            match r {
                Some(st) => {
                    &&& is_sum(bs, st.balance.number) && st.balance.currency@ == operating_currency@
                    &&& is_sum(ls, st.liability.number) && st.liability.currency@ == operating_currency@
                    &&& shown_balance(first_change(month@, "Income"@), st.income, operating_currency@)
                    &&& shown_balance(first_change(month@, "Expenses"@), st.expense, operating_currency@)
                },
                None => !crate::decimal::sum_fits(bs) || !crate::decimal::sum_fits(ls),
            }
        }),
        r is Some,
{
    let bs = collect_numbers(latest, "Assets", "Liabilities");
    let ls = collect_numbers(latest, "Liabilities", "Liabilities");
    let balance = match crate::decimal::checked_sum(&bs) {
        Some(d) => d,
        None => return None,
    };
    let liability = match crate::decimal::checked_sum(&ls) {
        Some(d) => d,
        None => return None,
    };
    let income = match find_first_change(month, "Income") {
        Some(a) => a,
        None => Amount::zero(operating_currency),
    };
    let expense = match find_first_change(month, "Expenses") {
        Some(a) => a,
        None => Amount::zero(operating_currency),
    };
    Some(
        CurrentStatistic {
            balance: Amount::new(balance, operating_currency),
            liability: Amount::new(liability, operating_currency),
            income,
            expense,
        },
    )
}

} // verus!
