use vstd::prelude::*;

use crate::account::Account;
use crate::amount::Amount;
use crate::data::{Balance, BalanceCheck, BalancePad, Meta};
use crate::date::{Date, NaiveDate};
use crate::keys::OrdKey;
use crate::latest_map::{is_latest, LatestMap};
use crate::models::Directive;
use crate::parser::contains_string;
use crate::span::{SpanInfo, Spanned};

verus! {

/// `pad` of beancount: the next balance of the account takes its difference from `pad`.
#[derive(Debug, PartialEq, Eq, Clone)]
pub struct PadDirective {
    pub date: Date,
    pub account: Account,
    pub pad: Account,
    pub meta: Meta,
}

/// `balance` of beancount.
#[derive(Debug, PartialEq, Eq, Clone)]
pub struct BalanceDirective {
    pub date: Date,
    pub account: Account,
    pub amount: Amount,
    pub meta: Meta,
}

/// The directives of beancount that zhang does not have.
#[derive(Debug, PartialEq, Eq, Clone)]
pub enum BeancountOnlyDirective {
    PushTag(String),
    PopTag(String),
    Pad(PadDirective),
    Balance(BalanceDirective),
}

/// A directive of a beancount file: one that zhang has too, or one of beancount alone.
#[derive(Debug, PartialEq, Eq, Clone)]
pub enum BeancountDirective {
    Left(Directive),
    Right(BeancountOnlyDirective),
}

/// Turns beancount directives into zhang directives.
#[derive(Debug, Clone, Copy, Default)]
pub struct BeancountTransformer {}

/// How many directives a transformation keeps: all but tags and pads.
pub open spec fn kept_count(ds: Seq<Spanned<BeancountDirective>>) -> nat
    decreases ds.len(),
{
    if ds.len() == 0 {
        0
    } else {
        kept_count(ds.drop_last()) + match ds.last().data {
            BeancountDirective::Left(_) => 1nat,
            BeancountDirective::Right(BeancountOnlyDirective::Balance(_)) => 1nat,
            _ => 0nat,
        }
    }
}

/// The pads recorded for one day: account name and pad account.
#[derive(Debug, Clone)]
pub struct PadsOfDay {
    entries: Vec<(String, Account)>,
}

/// Two accounts with the same type, name and segments.
pub open spec fn same_account(a: Account, b: Account) -> bool {
    a.account_type == b.account_type && a.content == b.content && a.components@ == b.components@
}

impl PadsOfDay {
    /// Each account name is recorded once.
    pub closed spec fn wf(&self) -> bool {
        forall|i: int, j: int|
            0 <= i < j < self.entries@.len() ==> #[trigger] self.entries@[i].0@ != #[trigger] self.entries@[j].0@
    }

    /// The pad account of each account name.
    pub closed spec fn view(&self) -> Map<Seq<char>, Account> {
        Map::new(
            |k: Seq<char>| exists|i: int| 0 <= i < self.entries@.len() && #[trigger] self.entries@[i].0@ == k,
            |k: Seq<char>| self.entries@[choose|i: int| 0 <= i < self.entries@.len() && #[trigger] self.entries@[i].0@ == k].1,
        )
    }

    proof fn lemma_view_at(&self, i: int)
        requires
            self.wf(),
            0 <= i < self.entries@.len(),
        ensures
            self@.dom().contains(self.entries@[i].0@),
            self@[self.entries@[i].0@] == self.entries@[i].1,
    {
        let k = self.entries@[i].0@;
        let j = choose|j: int| 0 <= j < self.entries@.len() && #[trigger] self.entries@[j].0@ == k;
        if j < i {
            assert(self.entries@[j].0@ != self.entries@[i].0@);
        } else if j > i {
            assert(self.entries@[i].0@ != self.entries@[j].0@);
        }
    }

    /// No pads.
    pub fn new() -> (r: PadsOfDay)
        ensures
            r.wf(),
            r@ == Map::<Seq<char>, Account>::empty(),
    {
        let r = PadsOfDay { entries: Vec::new() };
        assert(r@ =~= Map::<Seq<char>, Account>::empty());
        r
    }

    /// Records the pad account of an account, replacing an earlier one.
    pub fn insert(&mut self, account: String, pad: Account)
        requires
            old(self).wf(),
        ensures
            final(self).wf(),
            final(self)@ == old(self)@.insert(account@, pad),
    {
        let ghost k = account@;
        let mut i: usize = 0;
        while i < self.entries.len()
            invariant
                i <= self.entries@.len(),
                *self == *old(self),
                old(self).wf(),
                k == account@,
                forall|j: int| 0 <= j < i ==> #[trigger] self.entries@[j].0@ != k,
            decreases self.entries@.len() - i,
        {
            if self.entries[i].0 == account {
                self.entries.set(i, (account, pad));
                proof {
                    assert forall|a: int, b: int| 0 <= a < b < self.entries@.len() implies #[trigger] self.entries@[a].0@
                        != #[trigger] self.entries@[b].0@ by {
                        assert(old(self).entries@[a].0@ != old(self).entries@[b].0@);
                        if a == i {
                            assert(old(self).entries@[a].0@ == k);
                        }
                        if b == i {
                            assert(old(self).entries@[b].0@ == k);
                        }
                    }
                    assert forall|q: Seq<char>| #[trigger] self@.dom().contains(q) == old(self)@.insert(k, pad).dom().contains(q) by {
                        if q == k {
                            assert(self.entries@[i as int].0@ == k);
                        }
                        if old(self)@.dom().contains(q) {
                            let j = choose|j: int| 0 <= j < old(self).entries@.len() && #[trigger] old(self).entries@[j].0@ == q;
                            assert(self.entries@[j].0@ == q);
                        }
                        if self@.dom().contains(q) && q != k {
                            let j = choose|j: int| 0 <= j < self.entries@.len() && #[trigger] self.entries@[j].0@ == q;
                            assert(old(self).entries@[j].0@ == q);
                        }
                    }
                    assert forall|q: Seq<char>| #[trigger] self@.dom().contains(q) implies self@[q] == old(self)@.insert(k, pad)[q] by {
                        let j = choose|j: int| 0 <= j < self.entries@.len() && #[trigger] self.entries@[j].0@ == q;
                        self.lemma_view_at(j);
                        if q != k {
                            old(self).lemma_view_at(j);
                        }
                    }
                    assert(self@ =~= old(self)@.insert(k, pad));
                }
                return;
            }
            i = i + 1;
        }
        self.entries.push((account, pad));
        proof {
            let n = self.entries@.len() - 1;
            assert forall|a: int, b: int| 0 <= a < b < self.entries@.len() implies #[trigger] self.entries@[a].0@
                != #[trigger] self.entries@[b].0@ by {
                if b < n {
                    assert(old(self).entries@[a].0@ != old(self).entries@[b].0@);
                }
            }
            assert forall|q: Seq<char>| #[trigger] self@.dom().contains(q) == old(self)@.insert(k, pad).dom().contains(q) by {
                if q == k {
                    assert(self.entries@[n].0@ == k);
                }
                if old(self)@.dom().contains(q) {
                    let j = choose|j: int| 0 <= j < old(self).entries@.len() && #[trigger] old(self).entries@[j].0@ == q;
                    assert(self.entries@[j].0@ == q);
                }
                if self@.dom().contains(q) && q != k {
                    let j = choose|j: int| 0 <= j < self.entries@.len() && #[trigger] self.entries@[j].0@ == q;
                    assert(j != n);
                    assert(old(self).entries@[j].0@ == q);
                }
            }
            assert forall|q: Seq<char>| #[trigger] self@.dom().contains(q) implies self@[q] == old(self)@.insert(k, pad)[q] by {
                let j = choose|j: int| 0 <= j < self.entries@.len() && #[trigger] self.entries@[j].0@ == q;
                self.lemma_view_at(j);
                if q != k {
                    old(self).lemma_view_at(j);
                }
            }
            assert(self@ =~= old(self)@.insert(k, pad));
        }
    }

    /// The pad account recorded for an account.
    pub fn get(&self, account: &String) -> (r: Option<&Account>)
        requires
            self.wf(),
        ensures
            match r {
                Some(a) => self@.dom().contains(account@) && self@[account@] == *a,
                None => !self@.dom().contains(account@),
            },
    {
        let mut i: usize = 0;
        while i < self.entries.len()
            invariant
                i <= self.entries@.len(),
                self.wf(),
                forall|j: int| 0 <= j < i ==> (#[trigger] self.entries@[j]).0@ != account@,
            decreases self.entries@.len() - i,
        {
            if self.entries[i].0 == *account {
                proof {
                    self.lemma_view_at(i as int);
                }
                return Some(&self.entries[i].1);
            }
            i = i + 1;
        }
        None
    }
}

/// Keeps the tags other than `t`.
pub open spec fn other_tag(t: Seq<char>) -> spec_fn(String) -> bool {
    |s: String| s@ != t
}

/// Removes every copy of a tag.
fn without_tag(tags: Vec<String>, tag: &String) -> (r: Vec<String>)
    ensures
        r@ == tags@.filter(other_tag(tag@)),
{
    let mut r: Vec<String> = Vec::new();
    let mut i: usize = 0;
    while i < tags.len()
        invariant
            i <= tags@.len(),
            r@ == tags@.take(i as int).filter(other_tag(tag@)),
        decreases tags@.len() - i,
    {
        proof {
            assert(tags@.take(i + 1) =~= tags@.take(i as int).push(tags@[i as int]));
            tags@.take(i as int).lemma_filter_push(tags@[i as int], other_tag(tag@));
        }
        if tags[i] != *tag {
            r.push(tags[i].clone());
        }
        i = i + 1;
    }
    proof {
        assert(tags@.take(tags@.len() as int) =~= tags@);
    }
    r
}

/// The tags of a transaction after adding the pushed ones, in order, each that it does not
/// have yet.
pub open spec fn add_tags(tags: Seq<String>, stack: Seq<String>) -> Seq<String>
    decreases stack.len(),
{
    if stack.len() == 0 {
        tags
    } else {
        let base = add_tags(tags, stack.drop_last());
        if exists|i: int| 0 <= i < base.len() && #[trigger] base[i]@ == stack.last()@ {
            base
        } else {
            base.push(stack.last())
        }
    }
}

/// The pads after a `pad`: its day records the pad account of its account.
pub open spec fn pads_after(pads: Map<int, Map<Seq<char>, Account>>, p: PadDirective) -> Map<int, Map<Seq<char>, Account>> {
    let day = p.date.spec_naive_date().rank();
    let cur = if pads.dom().contains(day) { pads[day] } else { Map::empty() };
    pads.insert(day, cur.insert(p.account.content@, p.pad))
}

/// The tags pushed and not popped, and the pads by day, after the directives.
pub open spec fn transform_state(ds: Seq<Spanned<BeancountDirective>>) -> (Seq<String>, Map<int, Map<Seq<char>, Account>>)
    decreases ds.len(),
{
    if ds.len() == 0 {
        (Seq::empty(), Map::empty())
    } else {
        let st = transform_state(ds.drop_last());
        match ds.last().data {
            BeancountDirective::Right(BeancountOnlyDirective::PushTag(t)) => (st.0.push(t), st.1),
            BeancountDirective::Right(BeancountOnlyDirective::PopTag(t)) => (st.0.filter(other_tag(t@)), st.1),
            BeancountDirective::Right(BeancountOnlyDirective::Pad(p)) => (st.0, pads_after(st.1, p)),
            _ => st,
        }
    }
}

/// The pad account that a balance of the account at the day takes: that of the latest day
/// with pads up to it.
pub open spec fn pad_for(pads: Map<int, Map<Seq<char>, Account>>, day: int, account: Seq<char>) -> Option<Account> {
    if exists|x: int| is_latest(pads, day, x) {
        let x = choose|x: int| is_latest(pads, day, x);
        if pads[x].dom().contains(account) {
            Some(pads[x][account])
        } else {
            None
        }
    } else {
        None
    }
}

/// `o` is what a kept directive becomes after the directives that had the state `st`.
pub open spec fn transformed_item(
    st: (Seq<String>, Map<int, Map<Seq<char>, Account>>),
    item: Spanned<BeancountDirective>,
    o: Spanned<Directive>,
) -> bool {
    &&& o.span == item.span
    &&& match item.data {
        BeancountDirective::Left(Directive::Transaction(t)) => o.data matches Directive::Transaction(u) && u.date == t.date
            && u.flag == t.flag && u.payee == t.payee && u.narration == t.narration && u.links == t.links
            && u.postings == t.postings && u.meta == t.meta && u.tags@ == add_tags(t.tags@, st.0),
        BeancountDirective::Left(d) => o.data == d,
        BeancountDirective::Right(BeancountOnlyDirective::Balance(b)) => match pad_for(
            st.1,
            b.date.spec_naive_date().rank(),
            b.account.content@,
        ) {
            Some(pad) => o.data matches Directive::Balance(Balance::BalancePad(bp)) && bp.date == b.date && bp.account
                == b.account && bp.amount == b.amount && bp.tolerance is None && bp.diff_amount is None && same_account(
                bp.pad,
                pad,
            ) && bp.meta == b.meta,
            None => o.data == Directive::Balance(
                Balance::BalanceCheck(
                    BalanceCheck {
                        date: b.date,
                        account: b.account,
                        amount: b.amount,
                        tolerance: None,
                        distance: None,
                        current_amount: None,
                        meta: b.meta,
                    },
                ),
            ),
        },
        _ => false,
    }
}

/// Whether a directive yields one: all but tags and pads do.
pub open spec fn is_kept(d: BeancountDirective) -> bool {
    match d {
        BeancountDirective::Left(_) => true,
        BeancountDirective::Right(BeancountOnlyDirective::Balance(_)) => true,
        _ => false,
    }
}

/// `r` is what the directives `ds` become, in order.
pub open spec fn transformed(ds: Seq<Spanned<BeancountDirective>>, r: Seq<Spanned<Directive>>) -> bool
    decreases ds.len(),
{
    if ds.len() == 0 {
        r.len() == 0
    } else if is_kept(ds.last().data) {
        &&& r.len() >= 1
        &&& transformed(ds.drop_last(), r.drop_last())
        &&& transformed_item(transform_state(ds.drop_last()), ds.last(), r.last())
    } else {
        transformed(ds.drop_last(), r)
    }
}

impl BeancountTransformer {
    /// Turns beancount directives into zhang directives, in order: a transaction gains the
    /// tags pushed and not yet popped; a `pad` is remembered for its day; a `balance` becomes a
    /// balance with pad when the latest day with pads up to its own has one for its account,
    /// else a balance check; tags and pads yield nothing.
    pub fn transform(&self, directives: Vec<Spanned<BeancountDirective>>) -> (r: Vec<Spanned<Directive>>)
        ensures
            transformed(directives@, r@),
            r@.len() == kept_count(directives@),
    {
        let ghost ds = directives@;
        let mut ret: Vec<Spanned<Directive>> = Vec::new();
        let mut tags_stack: Vec<String> = Vec::new();
        let mut pad_info: LatestMap<NaiveDate, PadsOfDay> = LatestMap::new();
        let mut rest = directives;
        let n = rest.len();
        let mut i: usize = 0;
        proof {
            assert(ds.take(0) =~= Seq::<Spanned<BeancountDirective>>::empty());
            assert(pad_info@.dom() =~= transform_state(ds.take(0)).1.dom());
        }
        while i < n
            invariant
                n == ds.len(),
                i <= n,
                rest@.len() == n - i,
                forall|k: int| 0 <= k < rest@.len() ==> #[trigger] rest@[k] == ds[i + k],
                pad_info.wf(),
                tags_stack@ == transform_state(ds.take(i as int)).0,
                pad_info@.dom() == transform_state(ds.take(i as int)).1.dom(),
                forall|x: int| #[trigger] pad_info@.dom().contains(x) ==> pad_info@[x].wf() && pad_info@[x]@
                    == transform_state(ds.take(i as int)).1[x],
                transformed(ds.take(i as int), ret@),
                ret@.len() == kept_count(ds.take(i as int)),
            decreases n - i,
        {
            let ghost before = rest@;
            let ghost pre = ds.take(i as int);
            let ghost st = transform_state(pre);
            let ghost ret0 = ret@;
            let item = rest.remove(0);
            proof {
                assert(item == ds[i as int]);
                assert forall|k: int| 0 <= k < rest@.len() implies #[trigger] rest@[k] == ds[i + 1 + k] by {
                    assert(rest@[k] == before[k + 1]);
                }
                assert(ds.take(i + 1).drop_last() =~= pre);
                assert(ds.take(i + 1).last() == item);
            }
            let ghost item0 = item;
            let Spanned { data, span } = item;
            match data {
                BeancountDirective::Left(d) => match d {
                    Directive::Transaction(mut trx) => {
                        let ghost t0 = trx;
                        let mut k: usize = 0;
                        proof {
                            assert(tags_stack@.take(0) =~= Seq::<String>::empty());
                        }
                        while k < tags_stack.len()
                            invariant
                                k <= tags_stack@.len(),
                                trx.tags@ == add_tags(t0.tags@, tags_stack@.take(k as int)),
                                trx.date == t0.date && trx.flag == t0.flag && trx.payee == t0.payee && trx.narration
                                    == t0.narration && trx.links == t0.links && trx.postings == t0.postings && trx.meta
                                    == t0.meta,
                            decreases tags_stack@.len() - k,
                        {
                            proof {
                                assert(tags_stack@.take(k + 1).drop_last() =~= tags_stack@.take(k as int));
                                assert(tags_stack@.take(k + 1).last() == tags_stack@[k as int]);
                            }
                            if !contains_string(&trx.tags, &tags_stack[k]) {
                                trx.tags.push(tags_stack[k].clone());
                            }
                            k = k + 1;
                        }
                        proof {
                            assert(tags_stack@.take(tags_stack@.len() as int) =~= tags_stack@);
                        }
                        ret.push(Spanned { data: Directive::Transaction(trx), span });
                    },
                    other => {
                        ret.push(Spanned { data: other, span });
                    },
                },
                BeancountDirective::Right(b) => match b {
                    BeancountOnlyDirective::PushTag(tag) => {
                        tags_stack.push(tag);
                    },
                    BeancountOnlyDirective::PopTag(tag) => {
                        tags_stack = without_tag(tags_stack, &tag);
                    },
                    BeancountOnlyDirective::Pad(pad) => {
                        let ghost p0 = pad;
                        let ghost m0 = pad_info@;
                        let date = pad.date.naive_date();
                        let ghost d = date.rank();
                        if !pad_info.contains_key(&date) {
                            pad_info.insert(date, PadsOfDay::new());
                        }
                        let ghost mid = pad_info@;
                        proof {
                            assert(d == p0.date.spec_naive_date().rank());
                            assert(mid.dom().contains(d));
                            assert(mid[d].wf());
                            assert(mid[d]@ == (if st.1.dom().contains(d) { st.1[d] } else { Map::<Seq<char>, Account>::empty() }));
                            assert forall|x: int| x != d && #[trigger] mid.dom().contains(x) implies m0.dom().contains(x) && mid[x]
                                == m0[x] by {}
                        }
                        match pad_info.get_mut(&date) {
                            Some(day) => day.insert(pad.account.content, pad.pad),
                            None => {},
                        }
                        proof {
                            assert(pad_info@.dom() =~= pads_after(st.1, p0).dom());
                            assert forall|x: int| #[trigger] pad_info@.dom().contains(x) implies pad_info@[x].wf()
                                && pad_info@[x]@ == pads_after(st.1, p0)[x] by {
                                if x != d {
                                    assert(pad_info@[x] == mid[x]);
                                }
                            }
                        }
                    },
                    BeancountOnlyDirective::Balance(balance) => {
                        let date = balance.date.naive_date();
                        let ghost r = date.rank();
                        let ghost acc = balance.account.content@;
                        let pad_account = match pad_info.get_latest(&date) {
                            Some(day) => {
                                proof {
                                    let x = choose|x: int| is_latest(pad_info@, r, x) && *day == pad_info@[x];
                                    assert(is_latest(st.1, r, x));
                                    let y = choose|y: int| is_latest(st.1, r, y);
                                    assert(x == y);
                                    assert(day@ == st.1[x]);
                                }
                                match day.get(&balance.account.content) {
                                    Some(a) => Some(a.clone_account()),
                                    None => None,
                                }
                            },
                            None => {
                                proof {
                                    assert(!exists|x: int| is_latest(st.1, r, x));
                                }
                                None
                            },
                        };
                        proof {
                            match &pad_account {
                                Some(a) => {
                                    assert(pad_for(st.1, r, acc) is Some);
                                    assert(same_account(*a, pad_for(st.1, r, acc).unwrap()));
                                },
                                None => {
                                    assert(pad_for(st.1, r, acc) is None);
                                },
                            }
                        }
                        match pad_account {
                            Some(pad) => {
                                ret.push(
                                    Spanned {
                                        data: Directive::Balance(
                                            Balance::BalancePad(
                                                BalancePad {
                                                    date: balance.date,
                                                    account: balance.account,
                                                    amount: balance.amount,
                                                    tolerance: None,
                                                    diff_amount: None,
                                                    pad,
                                                    meta: balance.meta,
                                                },
                                            ),
                                        ),
                                        span,
                                    },
                                );
                            },
                            None => {
                                ret.push(
                                    Spanned {
                                        data: Directive::Balance(
                                            Balance::BalanceCheck(
                                                BalanceCheck {
                                                    date: balance.date,
                                                    account: balance.account,
                                                    amount: balance.amount,
                                                    tolerance: None,
                                                    distance: None,
                                                    current_amount: None,
                                                    meta: balance.meta,
                                                },
                                            ),
                                        ),
                                        span,
                                    },
                                );
                            },
                        }
                    },
                },
            }
            proof {
                let pre1 = ds.take(i + 1);
                assert(pre1.drop_last() =~= pre);
                assert(pre1.last() == item0);
                if is_kept(item0.data) {
                    assert(ret@.drop_last() =~= ret0);
                    assert(transformed_item(st, item0, ret@.last()));
                } else {
                    assert(ret@ == ret0);
                }
                assert(transformed(pre1, ret@));
            }
            i = i + 1;
        }
        proof {
            assert(ds.take(n as int) =~= ds);
        }
        ret
    }
}

/// Once a tag is popped, no pushed copy of it is left: the transactions after the pop do not
/// gain it.
pub proof fn law_pop_removes_tag(ds: Seq<Spanned<BeancountDirective>>, tag: String, span: SpanInfo)
    ensures
        ({
            let st = transform_state(ds.push(Spanned { data: BeancountDirective::Right(BeancountOnlyDirective::PopTag(tag)), span }));
            forall|i: int| 0 <= i < st.0.len() ==> (#[trigger] st.0[i])@ != tag@
        }),
{
    let after = ds.push(Spanned { data: BeancountDirective::Right(BeancountOnlyDirective::PopTag(tag)), span });
    assert(after.drop_last() =~= ds);
    let prev = transform_state(ds).0;
    prev.filter_lemma(other_tag(tag@));
}

/// A transaction gains every tag that is pushed and not popped: each tag of the stack is
/// among its tags afterwards, and the tags it had stay first.
pub proof fn law_pushed_tags_added(tags: Seq<String>, stack: Seq<String>)
    ensures
        forall|k: int| 0 <= k < stack.len() ==> exists|i: int| 0 <= i < add_tags(tags, stack).len() && (#[trigger] add_tags(tags, stack)[i])@ == (#[trigger] stack[k])@,
        add_tags(tags, stack).take(tags.len() as int) == tags,
        tags.len() <= add_tags(tags, stack).len(),
    decreases stack.len(),
{
    if stack.len() > 0 {
        let rest = stack.drop_last();
        law_pushed_tags_added(tags, rest);
        let base = add_tags(tags, rest);
        let r = add_tags(tags, stack);
        assert forall|k: int| 0 <= k < stack.len() implies exists|i: int| 0 <= i < r.len() && (#[trigger] r[i])@ == (#[trigger] stack[k])@ by {
            if k < stack.len() - 1 {
                assert(stack[k] == rest[k]);
                let i = choose|i: int| 0 <= i < base.len() && (#[trigger] base[i])@ == (#[trigger] rest[k])@;
                assert(r[i] == base[i]);
            } else {
                if exists|i: int| 0 <= i < base.len() && #[trigger] base[i]@ == stack.last()@ {
                    let i = choose|i: int| 0 <= i < base.len() && #[trigger] base[i]@ == stack.last()@;
                    assert(r[i] == base[i]);
                } else {
                    assert(r[base.len() as int] == stack.last());
                }
            }
        }
        assert(r.take(tags.len() as int) =~= base.take(tags.len() as int));
    } else {
        assert(tags.take(tags.len() as int) =~= tags);
    }
}

} // verus!
