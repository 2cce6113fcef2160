//! The ledger as a fixed-width table: a header, a separator line, and one
//! row per record with the name, the price to two decimals, and the date,
//! each padded to its column width.

use vstd::prelude::*;
use crate::expense::ExpenseV;
use crate::ledger::Ledger;
use crate::price::fmt_cents;
use crate::strbuf::push_char;

verus! {

/// `n` spaces.
pub open spec fn spaces(n: int) -> Seq<char>
    decreases n,
{
    if n <= 0 {
        Seq::empty()
    } else {
        spaces(n - 1).push(' ')
    }
}

/// `s` padded with spaces on the right to width `w`; text wider than its
/// column is kept whole.
pub open spec fn pad_to(s: Seq<char>, w: int) -> Seq<char> {
    if s.len() >= w {
        s
    } else {
        s + spaces(w - s.len())
    }
}

/// One table row: name, price and date in their columns, and a line break.
pub open spec fn render_row(e: ExpenseV) -> Seq<char> {
    pad_to(e.name, 15) + seq![' '] + pad_to(fmt_cents(e.cents), 10) + seq![' '] + pad_to(
        e.date,
        20,
    ) + seq!['\n']
}

/// All rows, in ledger order.
pub open spec fn render_rows(s: Seq<ExpenseV>) -> Seq<char>
    decreases s.len(),
{
    if s.len() == 0 {
        Seq::empty()
    } else {
        render_rows(s.drop_last()) + render_row(s.last())
    }
}

/// The column titles and the separator line.
pub open spec fn table_header() -> Seq<char> {
    pad_to("Item"@, 15) + seq![' '] + pad_to("Price"@, 10) + seq![' '] + pad_to("Date"@, 20)
        + seq!['\n'] + "----------------------------------------------------\n"@
}

/// The whole table.
pub open spec fn spec_render_table(s: Seq<ExpenseV>) -> Seq<char> {
    table_header() + render_rows(s)
}

/// Append `s` and then spaces up to width `w`.
fn pad_onto(s: &str, w: usize, out: &mut String)
    ensures
        final(out)@ == old(out)@ + pad_to(s@, w as int),
{
    let n = s.unicode_len();
    out.append(s);
    if n >= w {
        return ;
    }
    let mut i: usize = n;
    while i < w
        invariant
            n <= i <= w,
            n == s@.len(),
            out@ == old(out)@ + s@ + spaces(i - n),
        decreases w - i,
    {
        push_char(out, ' ');
        i += 1;
    }
}

/// Render the whole ledger as a table.
pub fn render_table(l: &Ledger) -> (out: String)
    requires
        l.wf(),
    ensures
        out@ == spec_render_table(l@),
{
    let mut out = String::new();
    pad_onto("Item", 15, &mut out);
    push_char(&mut out, ' ');
    pad_onto("Price", 10, &mut out);
    push_char(&mut out, ' ');
    pad_onto("Date", 20, &mut out);
    push_char(&mut out, '\n');
    out.append("----------------------------------------------------\n");
    proof {
        assert(out@ =~= table_header());
    }
    let n = l.len();
    let mut i: usize = 0;
    while i < n
        invariant
            l.wf(),
            n == l@.len(),
            i <= n,
            out@ == table_header() + render_rows(l@.take(i as int)),
        decreases n - i,
    {
        let e = l.get(i);
        let ghost before = out@;
        pad_onto(e.item_name.as_str(), 15, &mut out);
        push_char(&mut out, ' ');
        let ps = crate::price::price_to_string(e.price_cents);
        pad_onto(ps.as_str(), 10, &mut out);
        push_char(&mut out, ' ');
        pad_onto(e.date.as_str(), 20, &mut out);
        push_char(&mut out, '\n');
        proof {
            assert(out@ =~= before + render_row(l@[i as int]));
            let p = l@.take(i as int + 1);
            assert(p.drop_last() =~= l@.take(i as int));
            assert(p.last() == l@[i as int]);
            assert(out@ =~= table_header() + render_rows(p));
        }
        i += 1;
    }
    proof {
        assert(l@.take(n as int) =~= l@);
    }
    out
}

} // verus!
