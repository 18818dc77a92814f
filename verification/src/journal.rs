use vstd::prelude::*;

use crate::date::NaiveDateTime;
use crate::decimal::Decimal;
use crate::strings::{chars_of, str_eq_chars};

verus! {

/// The head of a journal entry, one per transaction of the store.
#[derive(Debug)]
pub struct JournalHeader {
    pub id: String,
    pub sequence: i64,
    pub datetime: NaiveDateTime,
    pub journal_type: String,
    pub payee: String,
    pub narration: Option<String>,
}

/// One posting of a journal entry, with the balances of its account around it.
#[derive(Debug)]
pub struct JournalTransactionPostingResponse {
    pub account: String,
    pub unit_number: Option<Decimal>,
    pub unit_commodity: Option<String>,
    pub cost_number: Option<Decimal>,
    pub cost_commodity: Option<String>,
    pub price_number: Option<Decimal>,
    pub price_commodity: Option<String>,
    pub inferred_unit_number: Decimal,
    pub inferred_unit_commodity: String,
    pub account_before_number: Decimal,
    pub account_before_commodity: String,
    pub account_after_number: Decimal,
    pub account_after_commodity: String,
}

/// A posting as the store hands it out: with the id of its transaction.
#[derive(Debug)]
pub struct JournalArm {
    pub trx_id: String,
    pub posting: JournalTransactionPostingResponse,
}

/// A journal entry: its head and its postings.
#[derive(Debug)]
pub struct JournalEntry {
    pub header: JournalHeader,
    pub postings: Vec<JournalTransactionPostingResponse>,
}

/// An entry of the journal, told apart by the type of its head.
#[derive(Debug)]
pub enum JournalItemResponse {
    Transaction(JournalEntry),
    BalancePad(JournalEntry),
}

/// Why a page of the journal could not be put together.
#[derive(Debug, Clone, Copy, PartialEq, Eq)]
pub enum JournalError {
    /// An entry is a balance check, which the journal does not show.
    BalanceCheckEntry,
}

impl JournalItemResponse {
    /// The entry, whatever its kind.
    pub open spec fn entry(self) -> JournalEntry {
        match self {
            JournalItemResponse::Transaction(e) => e,
            JournalItemResponse::BalancePad(e) => e,
        }
    }

    /// The place of the entry in the store.
    pub fn sequence(&self) -> (r: i64)
        ensures
            r == self.entry().header.sequence,
    {
        match self {
            JournalItemResponse::Transaction(e) => e.header.sequence,
            JournalItemResponse::BalancePad(e) => e.header.sequence,
        }
    }
}

/// The postings gathered into runs of the same transaction id, in the order they come: a
/// posting joins the run before it when its id is that run's.
pub open spec fn arm_groups(arms: Seq<JournalArm>) -> Seq<(Seq<char>, Seq<JournalTransactionPostingResponse>)>
    decreases arms.len(),
{
    if arms.len() == 0 {
        Seq::empty()
    } else {
        let g = arm_groups(arms.drop_last());
        let a = arms.last();
        if g.len() > 0 && g.last().0 == a.trx_id@ {
            g.update(g.len() - 1, (a.trx_id@, g.last().1.push(a.posting)))
        } else {
            g.push((a.trx_id@, seq![a.posting]))
        }
    }
}

/// The position of the last head with the id, if any.
pub open spec fn header_for(headers: Seq<JournalHeader>, id: Seq<char>) -> Option<int>
    decreases headers.len(),
{
    if headers.len() == 0 {
        None
    } else if headers.last().id@ == id {
        Some(headers.len() - 1)
    } else {
        header_for(headers.drop_last(), id)
    }
}

/// Whether one of the first `n` runs has the id.
pub open spec fn id_seen(gs: Seq<(Seq<char>, Seq<JournalTransactionPostingResponse>)>, n: int, id: Seq<char>) -> bool {
    exists|k: int| 0 <= k < n && #[trigger] gs[k].0 == id
}

/// The entries that the first `n` runs make, in their order: a run makes an entry when a head
/// has its id and no run before it had that id (each head is taken once).
pub open spec fn journal_entries(
    headers: Seq<JournalHeader>,
    gs: Seq<(Seq<char>, Seq<JournalTransactionPostingResponse>)>,
    n: nat,
) -> Seq<(JournalHeader, Seq<JournalTransactionPostingResponse>)>
    decreases n,
{
    if n == 0 {
        Seq::empty()
    } else {
        let prev = journal_entries(headers, gs, (n - 1) as nat);
        let g = gs[n - 1];
        if header_for(headers, g.0) is Some && !id_seen(gs, n - 1, g.0) {
            prev.push((headers[header_for(headers, g.0)->0], g.1))
        } else {
            prev
        }
    }
}

/// The entries of a page, in the order the runs of its postings make them.
pub open spec fn page_entries(headers: Seq<JournalHeader>, arms: Seq<JournalArm>) -> Seq<
    (JournalHeader, Seq<JournalTransactionPostingResponse>),
> {
    journal_entries(headers, arm_groups(arms), arm_groups(arms).len())
}

/// Entry `a` is shown before entry `b`: it comes later in the store, or at the same place
/// and it was made after.
pub open spec fn shown_before(es: Seq<(JournalHeader, Seq<JournalTransactionPostingResponse>)>, a: int, b: int) -> bool {
    es[a].0.sequence > es[b].0.sequence || (es[a].0.sequence == es[b].0.sequence && a > b)
}

/// `p` puts every entry once, each before those it is shown before.
pub open spec fn shows_in_order(es: Seq<(JournalHeader, Seq<JournalTransactionPostingResponse>)>, p: Seq<int>) -> bool {
    &&& p.len() == es.len()
    &&& forall|k: int| 0 <= k < p.len() ==> 0 <= #[trigger] p[k] < es.len()
    &&& forall|i: int, j: int| 0 <= i < j < p.len() ==> #[trigger] p[i] != #[trigger] p[j]
    &&& forall|i: int, j: int| 0 <= i < j < p.len() ==> shown_before(es, #[trigger] p[i], #[trigger] p[j])
}

/// The item shows the entry, as a pad when its head says so.
pub open spec fn item_shows(item: JournalItemResponse, e: (JournalHeader, Seq<JournalTransactionPostingResponse>)) -> bool {
    &&& item.entry().header == e.0
    &&& item.entry().postings@ == e.1
    &&& (item is BalancePad <==> e.0.journal_type@ == "BalancePad"@)
}

/// A copy of the head.
fn copy_header(h: &JournalHeader) -> (r: JournalHeader)
    ensures
        r == *h,
{
    JournalHeader {
        id: h.id.clone(),
        sequence: h.sequence,
        datetime: h.datetime,
        journal_type: h.journal_type.clone(),
        payee: h.payee.clone(),
        narration: match &h.narration {
            Some(n) => Some(n.clone()),
            None => None,
        },
    }
}


/// The runs as they are held: each run's id and its postings.
pub open spec fn runs_are(v: Seq<(String, Vec<JournalTransactionPostingResponse>)>, g: Seq<(Seq<char>, Seq<JournalTransactionPostingResponse>)>) -> bool {
    &&& v.len() == g.len()
    &&& forall|k: int| 0 <= k < v.len() ==> (#[trigger] v[k]).0@ == g[k].0 && v[k].1@ == g[k].1
}

/// The postings gathered into runs of one transaction.
fn group_arms(arms: Vec<JournalArm>) -> (r: Vec<(String, Vec<JournalTransactionPostingResponse>)>)
    ensures
        runs_are(r@, arm_groups(arms@)),
{
    let ghost all = arms@;
    let mut rest = arms;
    let mut out: Vec<(String, Vec<JournalTransactionPostingResponse>)> = Vec::new();
    let ghost mut i: int = 0;
    proof {
        assert(all.take(0) =~= Seq::<JournalArm>::empty());
    }
    while rest.len() > 0
        invariant
            0 <= i <= all.len(),
            rest@ == all.skip(i),
            runs_are(out@, arm_groups(all.take(i))),
        decreases rest.len(),
    {
        let a = rest.remove(0);
        proof {
            assert(all.take(i + 1).drop_last() =~= all.take(i));
            assert(all.take(i + 1).last() == a);
            assert(rest@ =~= all.skip(i + 1));
        }
        let JournalArm { trx_id, posting } = a;
        let n = out.len();
        let joins = if n > 0 {
            out[n - 1].0 == trx_id
        } else {
            false
        };
        let ghost before = out@;
        if joins {
            let (id, mut ps) = out.pop().unwrap();
            ps.push(posting);
            out.push((id, ps));
            proof {
                assert(out@ =~= before.update(n - 1, out@[n - 1]));
            }
        } else {
            let mut ps: Vec<JournalTransactionPostingResponse> = Vec::new();
            ps.push(posting);
            out.push((trx_id, ps));
            proof {
                assert(ps@ =~= seq![posting]);
            }
        }
        proof {
            i = i + 1;
        }
    }
    proof {
        assert(all.take(all.len() as int) =~= all);
    }
    out
}

/// The position of the last head with the id.
fn last_header(headers: &Vec<JournalHeader>, id: &String) -> (r: Option<usize>)
    ensures
        match r {
            Some(i) => i < headers.len() && header_for(headers@, id@) == Some(i as int),
            None => header_for(headers@, id@) is None,
        },
{
    let mut i = headers.len();
    proof {
        assert(headers@.take(i as int) =~= headers@);
    }
    while i > 0
        invariant
            i <= headers.len(),
            header_for(headers@, id@) == header_for(headers@.take(i as int), id@),
        decreases i,
    {
        proof {
            assert(headers@.take(i as int).drop_last() =~= headers@.take(i - 1));
        }
        if headers[i - 1].id == *id {
            return Some(i - 1);
        }
        i = i - 1;
    }
    None
}

/// Whether one of the ids is `id`.
fn has_id(seen: &Vec<String>, id: &String) -> (r: bool)
    ensures
        r == exists|k: int| 0 <= k < seen.len() && #[trigger] seen@[k]@ == id@,
{
    let mut j: usize = 0;
    while j < seen.len()
        invariant
            j <= seen.len(),
            forall|k: int| 0 <= k < j ==> #[trigger] seen@[k]@ != id@,
        decreases seen.len() - j,
    {
        if seen[j] == *id {
            return true;
        }
        j = j + 1;
    }
    false
}

/// The entries of fewer runs begin those of more.
pub proof fn lemma_entries_prefix(
    headers: Seq<JournalHeader>,
    gs: Seq<(Seq<char>, Seq<JournalTransactionPostingResponse>)>,
    n: nat,
    m: nat,
)
    requires
        n <= m <= gs.len(),
    ensures
        journal_entries(headers, gs, n).len() <= journal_entries(headers, gs, m).len(),
        forall|k: int|
            0 <= k < journal_entries(headers, gs, n).len() ==> #[trigger] journal_entries(headers, gs, m)[k]
                == journal_entries(headers, gs, n)[k],
    decreases m - n,
{
    if n < m {
        lemma_entries_prefix(headers, gs, n, (m - 1) as nat);
    }
}

/// A page of the journal, from its heads and the postings of its transactions as the store
/// hands them out: the postings are gathered into runs of one transaction, each run that
/// finds a head not taken yet becomes an entry (a pad when its head says so), and the
/// entries come latest in the store first. A balance check among them is refused.
pub fn journal_items(headers: &Vec<JournalHeader>, arms: Vec<JournalArm>) -> (r: Result<
    Vec<JournalItemResponse>,
    JournalError,
>)
    ensures
        ({
            let es = page_entries(headers@, arms@);
            match r {
                Ok(items) => {
                    &&& forall|k: int| 0 <= k < es.len() ==> (#[trigger] es[k]).0.journal_type@ != "BalanceCheck"@
                    &&& exists|p: Seq<int>|
                        {
                            &&& shows_in_order(es, p)
                            &&& items.len() == es.len()
                            &&& forall|k: int| 0 <= k < items.len() ==> item_shows(#[trigger] items[k], es[p[k]])
                        }
                },
                Err(e) => {
                    &&& e == JournalError::BalanceCheckEntry
                    &&& exists|k: int| 0 <= k < es.len() && (#[trigger] es[k]).0.journal_type@ == "BalanceCheck"@
                },
            }
        }),
{
    let ghost gs = arm_groups(arms@);
    let groups = group_arms(arms);
    let mut rest = groups;
    let mut seen: Vec<String> = Vec::new();
    let mut out: Vec<JournalItemResponse> = Vec::new();
    let ghost mut p: Seq<int> = Seq::empty();
    let ghost mut gi: int = 0;
    proof {
        reveal_strlit("BalanceCheck");
        reveal_strlit("BalancePad");
        assert(rest@ =~= rest@.skip(0));
    }
    while rest.len() > 0
        invariant
            gs == arm_groups(arms@),
            0 <= gi <= gs.len(),
            runs_are(rest@, gs.skip(gi)),
            seen.len() == gi,
            forall|k: int| 0 <= k < gi ==> (#[trigger] seen@[k])@ == gs[k].0,
            shows_in_order(journal_entries(headers@, gs, gi as nat), p),
            out.len() == p.len(),
            forall|k: int|
                0 <= k < out.len() ==> item_shows(#[trigger] out@[k], journal_entries(headers@, gs, gi as nat)[p[k]]),
            forall|k: int|
                0 <= k < journal_entries(headers@, gs, gi as nat).len() ==> (#[trigger] journal_entries(
                    headers@,
                    gs,
                    gi as nat,
                )[k]).0.journal_type@ != "BalanceCheck"@,
        ensures
            gi == gs.len(),
        decreases rest.len(),
    {
        let ghost es = journal_entries(headers@, gs, gi as nat);
        let (id, postings) = rest.remove(0);
        proof {
            assert(rest@.len() == gs.skip(gi + 1).len());
            assert forall|k: int| 0 <= k < rest@.len() implies (#[trigger] rest@[k]).0@ == gs.skip(gi + 1)[k].0
                && rest@[k].1@ == gs.skip(gi + 1)[k].1 by {
                assert(gs.skip(gi)[k + 1] == gs.skip(gi + 1)[k]);
            }
            assert(id@ == gs[gi].0 && postings@ == gs[gi].1) by {
                assert(gs.skip(gi)[0] == gs[gi]);
            }
        }
        let taken = has_id(&seen, &id);
        proof {
            if taken {
                let k = choose|k: int| 0 <= k < seen.len() && #[trigger] seen@[k]@ == id@;
                assert(gs[k].0 == gs[gi].0);
            }
            if id_seen(gs, gi, gs[gi].0) {
                let k = choose|k: int| 0 <= k < gi && #[trigger] gs[k].0 == gs[gi].0;
                assert(seen@[k]@ == id@);
            }
            assert(taken == id_seen(gs, gi, gs[gi].0));
        }
        let found = last_header(headers, &id);
        if !taken && found.is_some() {
            let hi = found.unwrap();
            let header = copy_header(&headers[hi]);
            let ghost e = (header, postings@);
            proof {
                assert(journal_entries(headers@, gs, (gi + 1) as nat) == es.push(e));
            }
            let tv = chars_of(header.journal_type.as_str());
            if str_eq_chars("BalanceCheck", &tv) {
                proof {
                    lemma_entries_prefix(headers@, gs, (gi + 1) as nat, gs.len());
                    let all = journal_entries(headers@, gs, gs.len());
                    assert(all[es.len() as int] == journal_entries(headers@, gs, (gi + 1) as nat)[es.len() as int]);
                    assert(all[es.len() as int] == e);
                    assert(page_entries(headers@, arms@) == all);
                }
                return Err(JournalError::BalanceCheckEntry);
            }
            let is_pad = str_eq_chars("BalancePad", &tv);
            let sequence = header.sequence;
            let item = if is_pad {
                JournalItemResponse::BalancePad(JournalEntry { header, postings })
            } else {
                JournalItemResponse::Transaction(JournalEntry { header, postings })
            };
            let mut pos: usize = 0;
            while pos < out.len() && out[pos].sequence() > sequence
                invariant
                    pos <= out.len(),
                    forall|k: int| 0 <= k < pos ==> (#[trigger] out@[k]).entry().header.sequence > sequence,
                decreases out.len() - pos,
            {
                pos = pos + 1;
            }
            let ghost m = es.len() as int;
            let ghost old_out = out@;
            let ghost old_p = p;
            out.insert(pos, item);
            proof {
                let es2 = es.push(e);
                p = old_p.insert(pos as int, m);
                assert forall|k: int| 0 <= k < old_p.len() implies es2[#[trigger] old_p[k]] == es[old_p[k]] by {}
                assert forall|k: int| pos <= k < old_p.len() implies es[#[trigger] old_p[k]].0.sequence <= sequence by {
                    if k > pos {
                        assert(shown_before(es, old_p[pos as int], old_p[k]));
                    }
                }
                assert forall|k: int| 0 <= k < p.len() implies 0 <= #[trigger] p[k] < es2.len() by {
                    if k > pos {
                        assert(p[k] == old_p[k - 1]);
                    }
                }
                assert forall|i: int, j: int| 0 <= i < j < p.len() implies #[trigger] p[i] != #[trigger] p[j] by {
                    if j < pos {
                    } else if j == pos {
                    } else if i < pos {
                        assert(p[j] == old_p[j - 1]);
                    } else if i == pos {
                        assert(p[j] == old_p[j - 1]);
                    } else {
                        assert(p[i] == old_p[i - 1]);
                        assert(p[j] == old_p[j - 1]);
                    }
                }
                assert forall|i: int, j: int| 0 <= i < j < p.len() implies shown_before(es2, #[trigger] p[i], #[trigger] p[j]) by {
                    if j < pos {
                        assert(shown_before(es, old_p[i], old_p[j]));
                    } else if j == pos {
                        assert(old_out[i].entry().header.sequence > sequence);
                        assert(item_shows(old_out[i], es[old_p[i]]));
                    } else if i < pos {
                        assert(p[j] == old_p[j - 1]);
                        assert(shown_before(es, old_p[i], old_p[j - 1]));
                    } else if i == pos {
                        assert(p[j] == old_p[j - 1]);
                    } else {
                        assert(p[i] == old_p[i - 1]);
                        assert(p[j] == old_p[j - 1]);
                        assert(shown_before(es, old_p[i - 1], old_p[j - 1]));
                    }
                }
                assert(shows_in_order(es2, p));
                assert forall|k: int| 0 <= k < out.len() implies item_shows(#[trigger] out@[k], es2[p[k]]) by {
                    if k < pos {
                        assert(out@[k] == old_out[k]);
                    } else if k > pos {
                        assert(out@[k] == old_out[k - 1]);
                        assert(p[k] == old_p[k - 1]);
                    }
                }
            }
        } else {
            proof {
                assert(journal_entries(headers@, gs, (gi + 1) as nat) == es);
            }
        }
        seen.push(id);
        proof {
            gi = gi + 1;
        }
    }
    proof {
        let es = page_entries(headers@, arms@);
        assert(es == journal_entries(headers@, gs, gi as nat));
        assert(shows_in_order(es, p));
    }
    Ok(out)
}

} // verus!
