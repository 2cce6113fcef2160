//! Expense records: one purchase with a name, a price in cents, and the
//! textual timestamp of the session that recorded it.

use vstd::prelude::*;
use crate::price::valid_cents;

verus! {

/// One purchase.
pub struct Expense {
    pub item_name: String,
    pub price_cents: i64,
    pub date: String,
}

/// The mathematical content of an expense record.
pub struct ExpenseV {
    pub name: Seq<char>,
    pub cents: int,
    pub date: Seq<char>,
}

impl View for Expense {
    type V = ExpenseV;

    open spec fn view(&self) -> ExpenseV {
        ExpenseV { name: self.item_name@, cents: self.price_cents as int, date: self.date@ }
    }
}

/// A record is valid when its price is within the price bound.
pub open spec fn expense_valid(e: ExpenseV) -> bool {
    valid_cents(e.cents)
}

impl Expense {
    /// Build a record from its parts.
    pub fn new(item_name: String, price_cents: i64, date: String) -> (e: Expense)
        ensures
            e@ == (ExpenseV { name: item_name@, cents: price_cents as int, date: date@ }),
    {
        Expense { item_name, price_cents, date }
    }

    /// An equal copy of this record.
    pub fn clone_record(&self) -> (e: Expense)
        ensures
            e@ == self@,
    {
        Expense {
            item_name: self.item_name.clone(),
            price_cents: self.price_cents,
            date: self.date.clone(),
        }
    }
}

} // verus!
