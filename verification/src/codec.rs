//! The persistence format: a pretty-printed array of objects, one per
//! expense record, with `item_name`, `price` and `date` fields. The encoder
//! and the parser are both specified here, and parsing an encoded ledger is
//! proved to yield the ledger back.

use vstd::prelude::*;
use crate::expense::Expense;
use crate::expense::ExpenseV;
use crate::expense::expense_valid;
use crate::ledger::Ledger;
use crate::ledger::ledger_wf;
use crate::price::digit_char;
use crate::price::digit_val;
use crate::price::fmt_cents;
use crate::price::is_digit;
use crate::price::lemma_digit_roundtrip;
use crate::price::lemma_parse_fmt_cents;
use crate::price::parse_number;
use crate::strbuf::push_char;

verus! {

// ---------------------------------------------------------------------------
// Text of the fixed parts of the format.
// ---------------------------------------------------------------------------
/// Opens a record object, up to and including the opening quote of the name.
pub open spec fn lit_rec_open() -> Seq<char> {
    "  {\n    \"item_name\": \""@
}

/// Between the name's closing quote and the price value.
pub open spec fn lit_price() -> Seq<char> {
    ",\n    \"price\": "@
}

/// Between the price value and the opening quote of the date.
pub open spec fn lit_date() -> Seq<char> {
    ",\n    \"date\": \""@
}

/// Closes a record object, after the date's closing quote.
pub open spec fn lit_rec_close() -> Seq<char> {
    "\n  }"@
}

/// Separates two records.
pub open spec fn lit_sep() -> Seq<char> {
    ",\n"@
}

// ---------------------------------------------------------------------------
// String escaping.
// ---------------------------------------------------------------------------
/// The hexadecimal digit character for a value in 0..=15.
pub open spec fn hex_char(d: int) -> char {
    if d < 10 {
        digit_char(d)
    } else if d == 10 {
        'a'
    } else if d == 11 {
        'b'
    } else if d == 12 {
        'c'
    } else if d == 13 {
        'd'
    } else if d == 14 {
        'e'
    } else {
        'f'
    }
}

/// Whether a character is a lower-case hexadecimal digit.
pub open spec fn is_hex(c: char) -> bool {
    is_digit(c) || 'a' <= c <= 'f'
}

/// The numeric value of a lower-case hexadecimal digit character.
pub open spec fn hex_val(c: char) -> int {
    if is_digit(c) {
        digit_val(c)
    } else {
        c as int - 'a' as int + 10
    }
}

/// How one character appears inside a quoted string: quotes and backslashes
/// get a backslash, control characters become a four-digit escape, and
/// everything else stands for itself.
pub open spec fn escape_char(c: char) -> Seq<char> {
    if c == '"' {
        seq!['\\', '"']
    } else if c == '\\' {
        seq!['\\', '\\']
    } else if (c as u32) < 0x20 {
        seq!['\\', 'u', '0', '0', hex_char(((c as u32) / 16) as int), hex_char(
            ((c as u32) % 16) as int,
        )]
    } else {
        seq![c]
    }
}

/// How a whole string appears inside quotes.
pub open spec fn escape_string(s: Seq<char>) -> Seq<char>
    decreases s.len(),
{
    if s.len() == 0 {
        Seq::empty()
    } else {
        escape_char(s[0]) + escape_string(s.skip(1))
    }
}

/// Read a quoted string's content up to and including its closing quote,
/// undoing the escapes; the input starts just after the opening quote.
pub open spec fn parse_string_body(s: Seq<char>) -> Option<(Seq<char>, Seq<char>)>
    decreases s.len(),
{
    if s.len() == 0 {
        None
    } else if s[0] == '"' {
        Some((Seq::empty(), s.skip(1)))
    } else if s[0] == '\\' {
        if s.len() >= 2 && (s[1] == '"' || s[1] == '\\') {
            match parse_string_body(s.skip(2)) {
                Some((t, rest)) => Some((seq![s[1]] + t, rest)),
                None => None,
            }
        } else if s.len() >= 6 && s[1] == 'u' && s[2] == '0' && s[3] == '0' && is_hex(s[4])
            && is_hex(s[5]) && hex_val(s[4]) * 16 + hex_val(s[5]) < 0x20 {
            match parse_string_body(s.skip(6)) {
                Some((t, rest)) => Some(
                    (seq![(((hex_val(s[4]) * 16 + hex_val(s[5])) as u32) as char)] + t, rest),
                ),
                None => None,
            }
        } else {
            None
        }
    } else {
        match parse_string_body(s.skip(1)) {
            Some((t, rest)) => Some((seq![s[0]] + t, rest)),
            None => None,
        }
    }
}

// ---------------------------------------------------------------------------
// Records and the array.
// ---------------------------------------------------------------------------
/// The text of one record.
pub open spec fn encode_expense(e: ExpenseV) -> Seq<char> {
    lit_rec_open() + escape_string(e.name) + seq!['"'] + lit_price() + fmt_cents(e.cents)
        + lit_date() + escape_string(e.date) + seq!['"'] + lit_rec_close()
}

/// The text of a non-empty run of records, separated by `lit_sep`.
pub open spec fn encode_records(s: Seq<ExpenseV>) -> Seq<char>
    decreases s.len(),
{
    if s.len() == 0 {
        Seq::empty()
    } else if s.len() == 1 {
        encode_expense(s[0])
    } else {
        encode_records(s.drop_last()) + lit_sep() + encode_expense(s.last())
    }
}

/// The text of a whole ledger.
pub open spec fn spec_encode_ledger(s: Seq<ExpenseV>) -> Seq<char> {
    if s.len() == 0 {
        "[]"@
    } else {
        "[\n"@ + encode_records(s) + "\n]"@
    }
}

/// Match a fixed piece of text at the front of the input.
pub open spec fn expect(s: Seq<char>, lit: Seq<char>) -> Option<Seq<char>> {
    if lit.len() <= s.len() && s.take(lit.len() as int) == lit {
        Some(s.skip(lit.len() as int))
    } else {
        None
    }
}

/// Read one record.
pub open spec fn parse_record(s: Seq<char>) -> Option<(ExpenseV, Seq<char>)> {
    match expect(s, lit_rec_open()) {
        None => None,
        Some(s1) => match parse_string_body(s1) {
            None => None,
            Some((name, s2)) => match expect(s2, lit_price()) {
                None => None,
                Some(s3) => match parse_number(s3) {
                    None => None,
                    Some((cents, s4)) => match expect(s4, lit_date()) {
                        None => None,
                        Some(s5) => match parse_string_body(s5) {
                            None => None,
                            Some((date, s6)) => match expect(s6, lit_rec_close()) {
                                None => None,
                                Some(s7) => Some((ExpenseV { name, cents, date }, s7)),
                            },
                        },
                    },
                },
            },
        },
    }
}

/// Read a non-empty run of records separated by `lit_sep`.
pub open spec fn parse_records(s: Seq<char>) -> Option<(Seq<ExpenseV>, Seq<char>)>
    decreases s.len(),
{
    match parse_record(s) {
        None => None,
        Some((e, rest)) => match expect(rest, lit_sep()) {
            Some(r2) => if r2.len() < s.len() {
                match parse_records(r2) {
                    None => None,
                    Some((es, r3)) => Some((seq![e] + es, r3)),
                }
            } else {
                None
            },
            None => Some((seq![e], rest)),
        },
    }
}

/// Read a whole ledger; the text must be exactly one encoded ledger.
pub open spec fn spec_parse_ledger(s: Seq<char>) -> Option<Seq<ExpenseV>> {
    if s == "[]"@ {
        Some(Seq::empty())
    } else {
        match expect(s, "[\n"@) {
            None => None,
            Some(r) => match parse_records(r) {
                None => None,
                Some((es, rest)) => if rest == "\n]"@ {
                    Some(es)
                } else {
                    None
                },
            },
        }
    }
}

// ---------------------------------------------------------------------------
// Round trip, from characters up to whole ledgers.
// ---------------------------------------------------------------------------
/// A hexadecimal digit's character is one, and carries the digit's value.
pub proof fn lemma_hex_roundtrip(d: int)
    requires
        0 <= d < 16,
    ensures
        is_hex(hex_char(d)),
        hex_val(hex_char(d)) == d,
{
    if d < 10 {
        lemma_digit_roundtrip(d);
    }
}

/// Escaping distributes over concatenation.
pub proof fn lemma_escape_append(s1: Seq<char>, s2: Seq<char>)
    ensures
        escape_string(s1 + s2) == escape_string(s1) + escape_string(s2),
    decreases s1.len(),
{
    if s1.len() == 0 {
        assert(s1 + s2 =~= s2);
        assert(escape_string(s1) + escape_string(s2) =~= escape_string(s2));
    } else {
        lemma_escape_append(s1.skip(1), s2);
        assert((s1 + s2).skip(1) =~= s1.skip(1) + s2);
        assert((s1 + s2)[0] == s1[0]);
        assert(escape_char(s1[0]) + (escape_string(s1.skip(1)) + escape_string(s2)) =~= (
        escape_char(s1[0]) + escape_string(s1.skip(1))) + escape_string(s2));
    }
}

/// Reading an escaped string followed by its closing quote yields the
/// original string and whatever follows the quote.
pub proof fn lemma_parse_escaped(t: Seq<char>, rest: Seq<char>)
    ensures
        parse_string_body(escape_string(t) + seq!['"'] + rest) == Some((t, rest)),
    decreases t.len(),
{
    let s = escape_string(t) + seq!['"'] + rest;
    if t.len() == 0 {
        assert(s =~= seq!['"'] + rest);
        assert(s[0] == '"');
        assert(s.skip(1) =~= rest);
    } else {
        let c = t[0];
        let tail = escape_string(t.skip(1)) + seq!['"'] + rest;
        assert(escape_string(t) == escape_char(c) + escape_string(t.skip(1)));
        assert(s =~= escape_char(c) + tail);
        lemma_parse_escaped(t.skip(1), rest);
        if c == '"' {
            assert(s[0] == '\\');
            assert(s[1] == '"');
            assert(s.skip(2) =~= tail);
            assert(seq![s[1]] + t.skip(1) =~= t);
        } else if c == '\\' {
            assert(s[0] == '\\');
            assert(s[1] == '\\');
            assert(s.skip(2) =~= tail);
            assert(seq![s[1]] + t.skip(1) =~= t);
        } else if (c as u32) < 0x20 {
            let h1 = hex_char(((c as u32) / 16) as int);
            let h2 = hex_char(((c as u32) % 16) as int);
            lemma_hex_roundtrip(((c as u32) / 16) as int);
            lemma_hex_roundtrip(((c as u32) % 16) as int);
            assert(s[0] == '\\');
            assert(s[1] == 'u');
            assert(s[2] == '0');
            assert(s[3] == '0');
            assert(s[4] == h1);
            assert(s[5] == h2);
            assert(s.len() >= 6);
            let code = hex_val(s[4]) * 16 + hex_val(s[5]);
            assert(code == ((c as u32) / 16) as int * 16 + ((c as u32) % 16) as int);
            assert(code == (c as u32) as int);
            assert(code as u32 == c as u32);
            vstd::utf8::char_u32_cast(c, c as u32);
            assert(((code as u32) as char) == c);
            assert(s.skip(6) =~= tail);
            assert(seq![(((hex_val(s[4]) * 16 + hex_val(s[5])) as u32) as char)] + t.skip(1)
                =~= t);
            assert(s[0] != '"');
        } else {
            assert(s[0] == c);
            assert(s[0] != '"' && s[0] != '\\');
            assert(s.skip(1) =~= tail);
            assert(seq![s[0]] + t.skip(1) =~= t);
        }
    }
}

/// A fixed piece of text at the front of the input is matched exactly.
pub proof fn lemma_expect_prefix(lit: Seq<char>, rest: Seq<char>)
    ensures
        expect(lit + rest, lit) == Some(rest),
{
    let s = lit + rest;
    assert(s.take(lit.len() as int) =~= lit);
    assert(s.skip(lit.len() as int) =~= rest);
}

/// Reading an encoded record yields the record and whatever follows it.
#[verifier::rlimit(100)]
pub proof fn lemma_parse_record_round(e: ExpenseV, rest: Seq<char>)
    requires
        expense_valid(e),
    ensures
        parse_record(encode_expense(e) + rest) == Some((e, rest)),
{
    let s = encode_expense(e) + rest;
    let r1 = escape_string(e.name) + seq!['"'] + (lit_price() + fmt_cents(e.cents) + lit_date()
        + escape_string(e.date) + seq!['"'] + lit_rec_close() + rest);
    assert(s =~= lit_rec_open() + r1);
    lemma_expect_prefix(
        lit_rec_open(),
        escape_string(e.name) + seq!['"'] + (lit_price() + fmt_cents(e.cents) + lit_date()
            + escape_string(e.date) + seq!['"'] + lit_rec_close() + rest),
    );
    let r2 = lit_price() + fmt_cents(e.cents) + lit_date() + escape_string(e.date) + seq!['"']
        + lit_rec_close() + rest;
    lemma_parse_escaped(e.name, r2);
    assert(escape_string(e.name) + seq!['"'] + r2 =~= r1);
    let r3 = fmt_cents(e.cents) + (lit_date() + escape_string(e.date) + seq!['"']
        + lit_rec_close() + rest);
    assert(r2 =~= lit_price() + r3);
    lemma_expect_prefix(lit_price(), r3);
    let r4 = lit_date() + escape_string(e.date) + seq!['"'] + lit_rec_close() + rest;
    assert(r3 =~= fmt_cents(e.cents) + r4);
    reveal_strlit(",\n    \"date\": \"");
    assert(r4[0] == ',');
    assert(!is_digit(','));
    lemma_parse_fmt_cents(e.cents, r4);
    let r5 = escape_string(e.date) + seq!['"'] + (lit_rec_close() + rest);
    assert(r4 =~= lit_date() + r5);
    lemma_expect_prefix(lit_date(), r5);
    lemma_parse_escaped(e.date, lit_rec_close() + rest);
    let r6 = lit_rec_close() + rest;
    lemma_expect_prefix(lit_rec_close(), rest);
    assert(parse_record(s) == Some((ExpenseV { name: e.name, cents: e.cents, date: e.date },
    rest)));
    assert(ExpenseV { name: e.name, cents: e.cents, date: e.date } == e);
}

/// An encoded record is never empty.
pub proof fn lemma_encode_expense_nonempty(e: ExpenseV)
    ensures
        encode_expense(e).len() >= 1,
{
    reveal_strlit("  {\n    \"item_name\": \"");
    assert(lit_rec_open().len() >= 1);
}

/// A non-empty encoded run of records begins with its first record and,
/// when more follow, the separator between them.
pub proof fn lemma_encode_records_head(s: Seq<ExpenseV>)
    requires
        s.len() >= 2,
    ensures
        encode_records(s) == encode_expense(s[0]) + lit_sep() + encode_records(s.skip(1)),
    decreases s.len(),
{
    if s.len() == 2 {
        assert(s.drop_last() =~= seq![s[0]]);
        assert(encode_records(s.drop_last()) == encode_expense(s[0]));
        assert(s.skip(1) =~= seq![s[1]]);
        assert(encode_records(s.skip(1)) == encode_expense(s[1]));
        assert(s.last() == s[1]);
    } else {
        lemma_encode_records_head(s.drop_last());
        assert(s.drop_last()[0] == s[0]);
        assert(s.drop_last().skip(1) =~= s.skip(1).drop_last());
        assert(s.skip(1).len() >= 2);
        assert(s.skip(1).last() == s.last());
        assert(encode_records(s.skip(1)) == encode_records(s.skip(1).drop_last()) + lit_sep()
            + encode_expense(s.last()));
        assert((encode_expense(s[0]) + lit_sep() + encode_records(s.skip(1).drop_last()))
            + lit_sep() + encode_expense(s.last()) =~= encode_expense(s[0]) + lit_sep() + (
        encode_records(s.skip(1).drop_last()) + lit_sep() + encode_expense(s.last())));
    }
}

/// Reading an encoded run of records, followed by anything that does not
/// begin with the separator, yields the records and what follows.
#[verifier::rlimit(60)]
pub proof fn lemma_parse_records_round(s: Seq<ExpenseV>, rest: Seq<char>)
    requires
        s.len() >= 1,
        ledger_wf(s),
        expect(rest, lit_sep()) is None,
    ensures
        parse_records(encode_records(s) + rest) == Some((s, rest)),
    decreases s.len(),
{
    if s.len() == 1 {
        assert(encode_records(s) == encode_expense(s[0]));
        assert(expense_valid(s[0]));
        lemma_parse_record_round(s[0], rest);
        assert(seq![s[0]] =~= s);
    } else {
        lemma_encode_records_head(s);
        let tail_text = lit_sep() + (encode_records(s.skip(1)) + rest);
        assert(encode_records(s) + rest =~= encode_expense(s[0]) + tail_text);
        assert(expense_valid(s[0]));
        lemma_parse_record_round(s[0], tail_text);
        lemma_expect_prefix(lit_sep(), encode_records(s.skip(1)) + rest);
        let full = encode_records(s) + rest;
        let r2 = encode_records(s.skip(1)) + rest;
        lemma_encode_expense_nonempty(s[0]);
        reveal_strlit(",\n");
        assert(r2.len() < full.len());
        assert(ledger_wf(s.skip(1))) by {
            assert(forall|i: int|
                0 <= i < s.skip(1).len() ==> #[trigger] s.skip(1)[i] == s[i + 1]);
        }
        lemma_parse_records_round(s.skip(1), rest);
        assert(seq![s[0]] + s.skip(1) =~= s);
    }
}

/// The text `"\n]"` does not begin with the record separator.
pub proof fn lemma_close_not_sep()
    ensures
        expect("\n]"@, lit_sep()) is None,
{
    reveal_strlit("\n]");
    reveal_strlit(",\n");
    assert("\n]"@.len() == 2);
    assert(lit_sep().len() == 2);
    if expect("\n]"@, lit_sep()) is Some {
        assert("\n]"@.take(2) =~= "\n]"@);
        assert("\n]"@[0] == ',');
        assert(false);
    }
}

/// Parsing an encoded ledger yields the ledger back: the persistence format
/// round-trips for every valid ledger, the empty one included. In
/// particular, saving and immediately loading changes nothing observable.
pub proof fn lemma_codec_round_trip(s: Seq<ExpenseV>)
    requires
        ledger_wf(s),
    ensures
        spec_parse_ledger(spec_encode_ledger(s)) == Some(s),
{
    if s.len() == 0 {
        assert(spec_encode_ledger(s) == "[]"@);
        assert(s =~= Seq::<ExpenseV>::empty());
    } else {
        let enc = spec_encode_ledger(s);
        let body = encode_records(s) + "\n]"@;
        assert(enc =~= "[\n"@ + body);
        lemma_expect_prefix("[\n"@, body);
        reveal_strlit("[]");
        reveal_strlit("[\n");
        lemma_encode_expense_nonempty(s[0]);
        assert(encode_records(s).len() >= 1) by {
            if s.len() == 1 {
            } else {
                lemma_encode_records_head(s);
            }
        }
        assert(enc.len() >= 5);
        assert(enc != "[]"@) by {
            assert("[]"@.len() == 2);
        }
        lemma_close_not_sep();
        lemma_parse_records_round(s, "\n]"@);
    }
}

// ---------------------------------------------------------------------------
// The executable encoder.
// ---------------------------------------------------------------------------
fn hex_to_char(d: u8) -> (c: char)
    requires
        d < 16,
    ensures
        c == hex_char(d as int),
{
    if d == 0 {
        '0'
    } else if d == 1 {
        '1'
    } else if d == 2 {
        '2'
    } else if d == 3 {
        '3'
    } else if d == 4 {
        '4'
    } else if d == 5 {
        '5'
    } else if d == 6 {
        '6'
    } else if d == 7 {
        '7'
    } else if d == 8 {
        '8'
    } else if d == 9 {
        '9'
    } else if d == 10 {
        'a'
    } else if d == 11 {
        'b'
    } else if d == 12 {
        'c'
    } else if d == 13 {
        'd'
    } else if d == 14 {
        'e'
    } else {
        'f'
    }
}

/// Append the escaped form of `s` to `out`.
fn escape_onto(s: &str, out: &mut String)
    ensures
        final(out)@ == old(out)@ + escape_string(s@),
{
    let n = s.unicode_len();
    let mut i: usize = 0;
    while i < n
        invariant
            i <= n,
            n == s@.len(),
            out@ == old(out)@ + escape_string(s@.take(i as int)),
        decreases n - i,
    {
        let c = s.get_char(i);
        proof {
            assert(s@.take(i as int + 1) =~= s@.take(i as int) + seq![c]);
            lemma_escape_append(s@.take(i as int), seq![c]);
            assert(seq![c].skip(1) =~= Seq::<char>::empty());
            assert(escape_char(c) + Seq::<char>::empty() =~= escape_char(c));
        }
        let ghost before = out@;
        if c == '"' {
            push_char(out, '\\');
            push_char(out, '"');
            proof {
                assert(out@ =~= before + escape_char(c));
            }
        } else if c == '\\' {
            push_char(out, '\\');
            push_char(out, '\\');
            proof {
                assert(out@ =~= before + escape_char(c));
            }
        } else {
            let u = c as u32;
            if u < 0x20 {
                push_char(out, '\\');
                push_char(out, 'u');
                push_char(out, '0');
                push_char(out, '0');
                push_char(out, hex_to_char((u / 16) as u8));
                push_char(out, hex_to_char((u % 16) as u8));
                proof {
                    assert(out@ =~= before + escape_char(c));
                }
            } else {
                push_char(out, c);
                proof {
                    assert(out@ =~= before + escape_char(c));
                }
            }
        }
        proof {
            assert(escape_string(Seq::<char>::empty()) =~= Seq::<char>::empty());
            assert(escape_string(seq![c]) =~= escape_char(c));
            assert(escape_string(s@.take(i as int + 1)) == escape_string(s@.take(i as int))
                + escape_char(c));
            assert(out@ =~= (old(out)@ + escape_string(s@.take(i as int))) + escape_char(c));
            assert(out@ =~= old(out)@ + escape_string(s@.take(i as int + 1)));
        }
        i += 1;
    }
    proof {
        assert(s@.take(n as int) =~= s@);
    }
}

/// Append the encoded form of one record to `out`.
fn encode_expense_onto(e: &Expense, out: &mut String)
    requires
        expense_valid(e@),
    ensures
        final(out)@ == old(out)@ + encode_expense(e@),
{
    out.append("  {\n    \"item_name\": \"");
    escape_onto(e.item_name.as_str(), out);
    push_char(out, '"');
    out.append(",\n    \"price\": ");
    let ps = crate::price::price_to_string(e.price_cents);
    out.append(ps.as_str());
    out.append(",\n    \"date\": \"");
    escape_onto(e.date.as_str(), out);
    push_char(out, '"');
    out.append("\n  }");
    proof {
        assert(final(out)@ =~= old(out)@ + encode_expense(e@));
    }
}

/// Render a whole ledger in the persistence format.
pub fn encode(l: &Ledger) -> (s: String)
    requires
        l.wf(),
    ensures
        s@ == spec_encode_ledger(l@),
{
    let n = l.len();
    if n == 0 {
        return String::from_str("[]");
    }
    let mut out = String::from_str("[\n");
    let mut i: usize = 0;
    while i < n
        invariant
            l.wf(),
            n == l@.len(),
            1 <= n,
            i <= n,
            i == 0 ==> out@ == "[\n"@,
            1 <= i ==> out@ == "[\n"@ + encode_records(l@.take(i as int)),
        decreases n - i,
    {
        let ghost before = out@;
        if i > 0 {
            out.append(",\n");
        }
        let e = l.get(i);
        assert(expense_valid(e@));
        encode_expense_onto(e, &mut out);
        proof {
            if i == 0 {
                assert(l@.take(1) =~= seq![l@[0]]);
                assert(encode_records(l@.take(1)) == encode_expense(l@[0]));
                assert(out@ =~= "[\n"@ + encode_records(l@.take(1)));
            } else {
                let p = l@.take(i as int + 1);
                assert(p.drop_last() =~= l@.take(i as int));
                assert(p.last() == l@[i as int]);
                assert(p.len() >= 2);
                assert(encode_records(p) == encode_records(l@.take(i as int)) + lit_sep()
                    + encode_expense(l@[i as int]));
                assert(out@ =~= "[\n"@ + encode_records(p));
            }
        }
        i += 1;
    }
    proof {
        assert(l@.take(n as int) =~= l@);
    }
    out.append("\n]");
    proof {
        assert(out@ =~= "[\n"@ + encode_records(l@) + "\n]"@);
    }
    out
}

// ---------------------------------------------------------------------------
// The executable parser.
// ---------------------------------------------------------------------------
/// Match a fixed piece of text at position `pos` of `s`.
fn expect_lit(s: &str, pos: usize, lit: &str) -> (r: Option<usize>)
    requires
        pos <= s@.len(),
    ensures
        match r {
            Some(p) => {
                &&& pos <= p <= s@.len()
                &&& p - pos == lit@.len()
                &&& expect(s@.skip(pos as int), lit@) == Some(s@.skip(p as int))
            },
            None => expect(s@.skip(pos as int), lit@) is None,
        },
{
    let n = s.unicode_len();
    let m = lit.unicode_len();
    if n - pos < m {
        return None;
    }
    let mut i: usize = 0;
    while i < m
        invariant
            i <= m,
            m == lit@.len(),
            pos + m <= n,
            n == s@.len(),
            forall|j: int| 0 <= j < i ==> s@[pos + j] == lit@[j],
        decreases m - i,
    {
        if s.get_char(pos + i) != lit.get_char(i) {
            proof {
                if expect(s@.skip(pos as int), lit@) is Some {
                    assert(s@.skip(pos as int).take(m as int)[i as int] == lit@[i as int]);
                    assert(s@.skip(pos as int)[i as int] == s@[pos + i]);
                    assert(false);
                }
            }
            return None;
        }
        i += 1;
    }
    proof {
        assert(s@.skip(pos as int).take(m as int) =~= lit@);
        assert(s@.skip(pos as int).skip(m as int) =~= s@.skip(pos as int + m as int));
    }
    Some(pos + m)
}

/// Read a quoted string's content at position `pos`, appending it to `out`;
/// the position starts just after the opening quote and ends just after the
/// closing one.
fn parse_string_body_at(s: &str, pos: usize, out: &mut String) -> (r: Option<usize>)
    requires
        pos <= s@.len(),
    ensures
        match r {
            Some(p) => {
                &&& pos <= p <= s@.len()
                &&& final(out)@.len() >= old(out)@.len()
                &&& final(out)@.take(old(out)@.len() as int) == old(out)@
                &&& parse_string_body(s@.skip(pos as int)) == Some(
                    (final(out)@.skip(old(out)@.len() as int), s@.skip(p as int)),
                )
            },
            None => parse_string_body(s@.skip(pos as int)) is None,
        },
    decreases s@.len() - pos,
{
    let ghost tail = s@.skip(pos as int);
    let n = s.unicode_len();
    if pos == n {
        assert(tail.len() == 0);
        return None;
    }
    let c = s.get_char(pos);
    assert(c == tail[0]);
    if c == '"' {
        proof {
            assert(final(out)@.take(old(out)@.len() as int) =~= old(out)@);
            assert(final(out)@.skip(old(out)@.len() as int) =~= Seq::<char>::empty());
            assert(tail.skip(1) =~= s@.skip(pos as int + 1));
        }
        return Some(pos + 1);
    }
    if c == '\\' {
        if pos + 1 == n {
            return None;
        }
        let c1 = s.get_char(pos + 1);
        assert(c1 == tail[1]);
        if c1 == '"' || c1 == '\\' {
            push_char(out, c1);
            let ghost mid = out@;
            proof {
                assert(tail.skip(2) =~= s@.skip(pos as int + 2));
            }
            match parse_string_body_at(s, pos + 2, out) {
                None => None,
                Some(p) => {
                    proof {
                        let whole = final(out)@;
                        assert(whole.take(mid.len() as int) == mid);
                        assert forall|j: int| 0 <= j < mid.len() implies whole[j] == mid[j] by {
                            assert(whole.take(mid.len() as int)[j] == mid[j]);
                        }
                        assert(whole.take(old(out)@.len() as int) =~= old(out)@);
                        assert(whole.skip(old(out)@.len() as int) =~= seq![c1] + whole.skip(
                            mid.len() as int,
                        ));
                    }
                    Some(p)
                },
            }
        } else if c1 == 'u' {
            if n - pos < 6 {
                return None;
            }
            let c2 = s.get_char(pos + 2);
            let c3 = s.get_char(pos + 3);
            let c4 = s.get_char(pos + 4);
            let c5 = s.get_char(pos + 5);
            assert(c2 == tail[2] && c3 == tail[3] && c4 == tail[4] && c5 == tail[5]);
            if c2 != '0' || c3 != '0' {
                return None;
            }
            let h4 = match hex_digit(c4) {
                None => {
                    return None;
                },
                Some(h) => h,
            };
            let h5 = match hex_digit(c5) {
                None => {
                    return None;
                },
                Some(h) => h,
            };
            let code: u8 = h4 * 16 + h5;
            if code >= 0x20 {
                return None;
            }
            push_char(out, code as char);
            let ghost mid = out@;
            proof {
                assert((code as char) == (((hex_val(tail[4]) * 16 + hex_val(tail[5])) as u32)
                    as char));
                assert(tail.skip(6) =~= s@.skip(pos as int + 6));
            }
            match parse_string_body_at(s, pos + 6, out) {
                None => None,
                Some(p) => {
                    proof {
                        let whole = final(out)@;
                        assert(whole.take(mid.len() as int) == mid);
                        assert forall|j: int| 0 <= j < mid.len() implies whole[j] == mid[j] by {
                            assert(whole.take(mid.len() as int)[j] == mid[j]);
                        }
                        assert(whole.take(old(out)@.len() as int) =~= old(out)@);
                        assert(whole.skip(old(out)@.len() as int) =~= seq![(code as char)]
                            + whole.skip(mid.len() as int));
                    }
                    Some(p)
                },
            }
        } else {
            None
        }
    } else {
        push_char(out, c);
        let ghost mid = out@;
        proof {
            assert(tail.skip(1) =~= s@.skip(pos as int + 1));
        }
        match parse_string_body_at(s, pos + 1, out) {
            None => None,
            Some(p) => {
                proof {
                    let whole = final(out)@;
                    assert(whole.take(mid.len() as int) == mid);
                    assert forall|j: int| 0 <= j < mid.len() implies whole[j] == mid[j] by {
                        assert(whole.take(mid.len() as int)[j] == mid[j]);
                    }
                    assert(whole.take(old(out)@.len() as int) =~= old(out)@);
                    assert(whole.skip(old(out)@.len() as int) =~= seq![c] + whole.skip(
                        mid.len() as int,
                    ));
                }
                Some(p)
            },
        }
    }
}

fn hex_digit(c: char) -> (r: Option<u8>)
    ensures
        match r {
            Some(d) => is_hex(c) && d as int == hex_val(c) && d < 16,
            None => !is_hex(c),
        },
{
    if c >= '0' && c <= '9' {
        Some((c as u32 - '0' as u32) as u8)
    } else if c >= 'a' && c <= 'f' {
        Some((c as u32 - 'a' as u32) as u8 + 10)
    } else {
        None
    }
}

/// Read one record at position `pos`.
fn parse_record_at(s: &str, pos: usize) -> (r: Option<(Expense, usize)>)
    requires
        pos <= s@.len(),
    ensures
        match r {
            Some((e, p)) => {
                &&& pos <= p <= s@.len()
                &&& expense_valid(e@)
                &&& parse_record(s@.skip(pos as int)) == Some((e@, s@.skip(p as int)))
            },
            None => parse_record(s@.skip(pos as int)) is None,
        },
{
    let p1 = match expect_lit(s, pos, "  {\n    \"item_name\": \"") {
        None => {
            return None;
        },
        Some(p) => p,
    };
    let mut name = String::new();
    let p2 = match parse_string_body_at(s, p1, &mut name) {
        None => {
            return None;
        },
        Some(p) => p,
    };
    proof {
        assert(name@.skip(0) =~= name@);
    }
    let p3 = match expect_lit(s, p2, ",\n    \"price\": ") {
        None => {
            return None;
        },
        Some(p) => p,
    };
    let (cents, p4) = match crate::price::parse_number_at(s, p3) {
        None => {
            return None;
        },
        Some(x) => x,
    };
    let p5 = match expect_lit(s, p4, ",\n    \"date\": \"") {
        None => {
            return None;
        },
        Some(p) => p,
    };
    let mut date = String::new();
    let p6 = match parse_string_body_at(s, p5, &mut date) {
        None => {
            return None;
        },
        Some(p) => p,
    };
    proof {
        assert(date@.skip(0) =~= date@);
    }
    let p7 = match expect_lit(s, p6, "\n  }") {
        None => {
            return None;
        },
        Some(p) => p,
    };
    let e = Expense::new(name, cents, date);
    Some((e, p7))
}

/// Read a run of records at position `pos`, pushing them onto `out`.
fn parse_records_at(s: &str, pos: usize, out: &mut Vec<Expense>) -> (r: Option<usize>)
    requires
        pos <= s@.len(),
        ledger_wf(old(out)@.map_values(|e: Expense| e@)),
    ensures
        match r {
            Some(p) => {
                &&& pos <= p <= s@.len()
                &&& final(out)@.len() >= old(out)@.len()
                &&& final(out)@.take(old(out)@.len() as int) == old(out)@
                &&& parse_records(s@.skip(pos as int)) == Some(
                    (
                        final(out)@.map_values(|e: Expense| e@).skip(old(out)@.len() as int),
                        s@.skip(p as int),
                    ),
                )
                &&& ledger_wf(final(out)@.map_values(|e: Expense| e@))
            },
            None => parse_records(s@.skip(pos as int)) is None,
        },
    decreases s@.len() - pos,
{
    let (e, p1) = match parse_record_at(s, pos) {
        None => {
            return None;
        },
        Some(x) => x,
    };
    let ghost ev = e@;
    out.push(e);
    let ghost mid = out@;
    proof {
        assert(mid.map_values(|x: Expense| x@) =~= old(out)@.map_values(|x: Expense| x@).push(
            ev,
        ));
        assert(ledger_wf(mid.map_values(|x: Expense| x@)));
    }
    match expect_lit(s, p1, ",\n") {
        None => {
            proof {
                assert(final(out)@.take(old(out)@.len() as int) =~= old(out)@);
                assert(final(out)@.map_values(|x: Expense| x@).skip(old(out)@.len() as int)
                    =~= seq![ev]);
            }
            Some(p1)
        },
        Some(p2) => {
            proof {
                reveal_strlit(",\n");
                assert(pos < p2);
            }
            match parse_records_at(s, p2, out) {
                None => {
                    proof {
                        assert(s@.skip(p2 as int).len() < s@.skip(pos as int).len());
                    }
                    None
                },
                Some(p3) => {
                    proof {
                        let whole = final(out)@;
                        assert(s@.skip(p2 as int).len() < s@.skip(pos as int).len());
                        assert(whole.take(mid.len() as int) == mid);
                        assert forall|j: int| 0 <= j < mid.len() implies whole[j] == mid[j] by {
                            assert(whole.take(mid.len() as int)[j] == mid[j]);
                        }
                        assert(whole.take(old(out)@.len() as int) =~= old(out)@);
                        assert(whole.map_values(|x: Expense| x@).skip(old(out)@.len() as int)
                            =~= seq![ev] + whole.map_values(|x: Expense| x@).skip(
                            mid.len() as int,
                        ));
                    }
                    Some(p3)
                },
            }
        },
    }
}

/// Read a whole ledger from text. Anything that is not exactly one encoded
/// ledger yields the empty ledger; no error is ever reported.
pub fn decode(s: &str) -> (l: Ledger)
    ensures
        l.wf(),
        match spec_parse_ledger(s@) {
            Some(es) => l@ == es,
            None => l@ == Seq::<ExpenseV>::empty(),
        },
{
    let n = s.unicode_len();
    if n == 2 {
        let c0 = s.get_char(0);
        let c1 = s.get_char(1);
        if c0 == '[' && c1 == ']' {
            proof {
                reveal_strlit("[]");
                assert(s@ =~= "[]"@);
            }
            return Ledger::new();
        }
        proof {
            reveal_strlit("[]");
            assert(s@ != "[]"@) by {
                if s@ == "[]"@ {
                    assert(s@[0] == '[' && s@[1] == ']');
                }
            }
        }
    }
    proof {
        reveal_strlit("[]");
        if n != 2 {
            assert(s@ != "[]"@) by {
                assert("[]"@.len() == 2);
            }
        }
        assert(s@.skip(0) =~= s@);
    }
    match expect_lit(s, 0, "[\n") {
        None => Ledger::new(),
        Some(p1) => {
            let mut recs: Vec<Expense> = Vec::new();
            proof {
                assert(recs@.map_values(|x: Expense| x@) =~= Seq::<ExpenseV>::empty());
            }
            match parse_records_at(s, p1, &mut recs) {
                None => Ledger::new(),
                Some(p2) => {
                    let ghost rest = s@.skip(p2 as int);
                    if n - p2 == 2 {
                        let c0 = s.get_char(p2);
                        let c1 = s.get_char(p2 + 1);
                        if c0 == '\n' && c1 == ']' {
                            proof {
                                reveal_strlit("\n]");
                                assert(rest =~= "\n]"@);
                                assert(recs@.map_values(|x: Expense| x@).skip(0) =~= recs@.map_values(
                                    |x: Expense| x@,
                                ));
                            }
                            let l = Ledger { records: recs };
                            return l;
                        }
                        proof {
                            reveal_strlit("\n]");
                            assert(rest != "\n]"@) by {
                                if rest == "\n]"@ {
                                    assert(rest[0] == '\n' && rest[1] == ']');
                                }
                            }
                        }
                        return Ledger::new();
                    }
                    proof {
                        reveal_strlit("\n]");
                        assert(rest != "\n]"@) by {
                            assert("\n]"@.len() == 2);
                            assert(rest.len() != 2);
                        }
                    }
                    Ledger::new()
                },
            }
        },
    }
}

} // verus!
