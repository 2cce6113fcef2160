//! The ledger: an ordered, in-memory sequence of expense records. Records
//! are only ever appended or removed, never mutated in place; deletion by
//! name removes every record whose name matches exactly.

use vstd::prelude::*;
use vstd::seq_lib::group_seq_properties;
use crate::expense::Expense;
use crate::expense::ExpenseV;
use crate::expense::expense_valid;
use crate::price::MAX_CENTS;
use crate::price::valid_cents;

verus! {

/// Every record of the sequence is valid.
pub open spec fn ledger_wf(s: Seq<ExpenseV>) -> bool {
    forall|i: int| 0 <= i < s.len() ==> expense_valid(#[trigger] s[i])
}

/// How many records of `s` carry exactly the name `name`.
pub open spec fn count_matching(s: Seq<ExpenseV>, name: Seq<char>) -> int {
    s.filter(|e: ExpenseV| e.name == name).len() as int
}

/// The sum, in cents, of all prices of `s`, in ledger order.
pub open spec fn sum_cents(s: Seq<ExpenseV>) -> int
    decreases s.len(),
{
    if s.len() == 0 {
        0
    } else {
        sum_cents(s.drop_last()) + s.last().cents
    }
}

/// The ordered sequence of expense records of one session.
pub struct Ledger {
    pub records: Vec<Expense>,
}

impl View for Ledger {
    type V = Seq<ExpenseV>;

    open spec fn view(&self) -> Seq<ExpenseV> {
        self.records@.map_values(|e: Expense| e@)
    }
}

impl Ledger {
    /// All records of this ledger are valid.
    pub open spec fn wf(&self) -> bool {
        ledger_wf(self@)
    }

    /// The empty ledger.
    pub fn new() -> (l: Ledger)
        ensures
            l@ == Seq::<ExpenseV>::empty(),
            l.wf(),
    {
        let l = Ledger { records: Vec::new() };
        proof {
            assert(l@ =~= Seq::<ExpenseV>::empty());
        }
        l
    }

    /// How many records the ledger holds.
    pub fn len(&self) -> (n: usize)
        ensures
            n == self@.len(),
    {
        self.records.len()
    }

    /// The record at position `i`.
    pub fn get(&self, i: usize) -> (e: &Expense)
        requires
            i < self@.len(),
        ensures
            e@ == self@[i as int],
    {
        &self.records[i]
    }

    /// Append one record; the rest of the ledger is untouched, and the
    /// length grows by exactly one.
    pub fn add(&mut self, item_name: String, price_cents: i64, date: String)
        requires
            old(self).wf(),
            valid_cents(price_cents as int),
        ensures
            final(self)@ == old(self)@.push(
                ExpenseV { name: item_name@, cents: price_cents as int, date: date@ },
            ),
            final(self)@.len() == old(self)@.len() + 1,
            final(self).wf(),
    {
        let ghost prev = self@;
        let e = Expense::new(item_name, price_cents, date);
        let ghost ev = e@;
        self.records.push(e);
        proof {
            assert(final(self)@ =~= prev.push(ev));
        }
    }

    /// Remove every record whose name equals `name` exactly. Returns whether
    /// at least one record was removed, i.e. whether the name was present.
    pub fn delete(&mut self, name: &String) -> (removed: bool)
        requires
            old(self).wf(),
        ensures
            final(self)@ == old(self)@.filter(|e: ExpenseV| e.name != name@),
            removed <==> count_matching(old(self)@, name@) > 0,
            final(self).wf(),
    {
        broadcast use group_seq_properties;

        let ghost orig = self@;
        let ghost keep = |e: ExpenseV| e.name != name@;
        let ghost hit = |e: ExpenseV| e.name == name@;
        let mut kept: Vec<Expense> = Vec::new();
        let mut found = false;
        let mut i: usize = 0;
        let n = self.records.len();
        proof {
            assert(orig.take(0) =~= Seq::<ExpenseV>::empty());
            reveal(Seq::filter);
        }
        while i < n
            invariant
                self@ == orig,
                self.wf(),
                n == orig.len(),
                i <= n,
                kept@.map_values(|e: Expense| e@) == orig.take(i as int).filter(keep),
                ledger_wf(kept@.map_values(|e: Expense| e@)),
                found <==> orig.take(i as int).filter(hit).len() > 0,
                keep == (|e: ExpenseV| e.name != name@),
                hit == (|e: ExpenseV| e.name == name@),
            decreases n - i,
        {
            let ghost prefix = orig.take(i as int);
            proof {
                assert(orig.take(i as int + 1) =~= prefix.push(orig[i as int]));
                assert(orig[i as int] == self@[i as int]);
            }
            let e = &self.records[i];
            assert(e@ == orig[i as int]);
            if e.item_name == *name {
                found = true;
                proof {
                    prefix.lemma_filter_push(e@, hit);
                    prefix.lemma_filter_push(e@, keep);
                }
            } else {
                let ghost kept_prev = kept@.map_values(|ex: Expense| ex@);
                kept.push(e.clone_record());
                proof {
                    assert(kept@.map_values(|ex: Expense| ex@) =~= kept_prev.push(e@));
                    prefix.lemma_filter_push(e@, hit);
                    prefix.lemma_filter_push(e@, keep);
                }
            }
            i += 1;
        }
        proof {
            assert(orig.take(n as int) =~= orig);
        }
        self.records = kept;
        found
    }

    /// The total of all prices, in cents, in ledger order. An empty ledger
    /// totals zero.
    pub fn total(&self) -> (t: i128)
        requires
            self.wf(),
        ensures
            t as int == sum_cents(self@),
    {
        let mut acc: i128 = 0;
        let mut i: usize = 0;
        let n = self.records.len();
        proof {
            assert(self@.take(0) =~= Seq::<ExpenseV>::empty());
        }
        while i < n
            invariant
                self.wf(),
                n == self@.len(),
                i <= n,
                acc as int == sum_cents(self@.take(i as int)),
                -((i as int) * (MAX_CENTS as int)) <= acc as int <= (i as int) * (MAX_CENTS
                    as int),
            decreases n - i,
        {
            let c = self.records[i].price_cents;
            proof {
                assert(self@[i as int] == self.records@[i as int]@);
                assert(expense_valid(self@[i as int]));
                assert(self@.take(i as int + 1).drop_last() =~= self@.take(i as int));
                assert(self@.take(i as int + 1).last() == self@[i as int]);
                assert((i as int + 1) * (MAX_CENTS as int) == (i as int) * (MAX_CENTS as int)
                    + MAX_CENTS as int) by (nonlinear_arith);
                assert((i as int + 1) * (MAX_CENTS as int) <= (usize::MAX as int + 1) * (
                MAX_CENTS as int)) by (nonlinear_arith)
                    requires
                        i as int + 1 <= usize::MAX as int + 1,
                ;
                assert(usize::MAX as int + 1 <= 0x10000000000000000);
            }
            acc = acc + c as i128;
            i += 1;
        }
        proof {
            assert(self@.take(n as int) =~= self@);
        }
        acc
    }
}

/// Deleting a name splits the length: the records kept plus the records
/// whose name matched account for every record.
pub proof fn law_delete_count(s: Seq<ExpenseV>, name: Seq<char>)
    ensures
        s.filter(|e: ExpenseV| e.name != name).len() + count_matching(s, name) == s.len(),
    decreases s.len(),
{
    reveal(Seq::filter);
    if s.len() > 0 {
        law_delete_count(s.drop_last(), name);
        assert(s =~= s.drop_last().push(s.last()));
        s.drop_last().lemma_filter_push(s.last(), |e: ExpenseV| e.name != name);
        s.drop_last().lemma_filter_push(s.last(), |e: ExpenseV| e.name == name);
    }
}

/// Deleting a name that no record carries leaves the ledger unchanged.
pub proof fn law_delete_absent(s: Seq<ExpenseV>, name: Seq<char>)
    requires
        count_matching(s, name) == 0,
    ensures
        s.filter(|e: ExpenseV| e.name != name) == s,
    decreases s.len(),
{
    reveal(Seq::filter);
    if s.len() == 0 {
        assert(s.filter(|e: ExpenseV| e.name != name) =~= s);
    } else {
        assert(s =~= s.drop_last().push(s.last()));
        s.drop_last().lemma_filter_push(s.last(), |e: ExpenseV| e.name == name);
        s.drop_last().lemma_filter_push(s.last(), |e: ExpenseV| e.name != name);
        s.drop_last().lemma_filter_len(|e: ExpenseV| e.name == name);
        law_delete_absent(s.drop_last(), name);
        assert(s.filter(|e: ExpenseV| e.name != name) =~= s);
    }
}

/// An empty ledger totals zero.
pub proof fn law_total_empty()
    ensures
        sum_cents(Seq::<ExpenseV>::empty()) == 0,
{
}

} // verus!
