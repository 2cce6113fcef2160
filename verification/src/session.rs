//! Command dispatch: one line of input, trimmed by the caller, names one of
//! the session's commands; anything else is unknown and leaves the ledger
//! untouched.

use vstd::prelude::*;

verus! {

/// The commands a session understands.
#[derive(Clone, Copy, Debug, PartialEq, Eq, Structural)]
pub enum Command {
    /// Append one record, after prompting for its name and price.
    Add,
    /// Print the ledger as a table.
    Ls,
    /// Remove every record with a given name.
    Delete,
    /// Print the sum of all prices.
    Total,
    /// Write the ledger to the persistence file.
    Save,
    /// Replace the ledger with the persistence file's content.
    Load,
    /// Clear the screen; no data operation.
    Clear,
    /// End the session.
    Exit,
    /// Anything else.
    Unknown,
}

/// Which command a trimmed line of input names.
pub open spec fn spec_parse_command(s: Seq<char>) -> Command {
    if s == "add"@ {
        Command::Add
    } else if s == "ls"@ {
        Command::Ls
    } else if s == "delete"@ {
        Command::Delete
    } else if s == "total"@ {
        Command::Total
    } else if s == "save"@ {
        Command::Save
    } else if s == "load"@ {
        Command::Load
    } else if s == "clear"@ {
        Command::Clear
    } else if s == "exit"@ {
        Command::Exit
    } else {
        Command::Unknown
    }
}

/// Whether two pieces of text are the same characters.
fn str_eq(a: &str, b: &str) -> (r: bool)
    ensures
        r == (a@ == b@),
{
    let na = a.unicode_len();
    let nb = b.unicode_len();
    if na != nb {
        return false;
    }
    let mut i: usize = 0;
    while i < na
        invariant
            i <= na,
            na == a@.len(),
            na == b@.len(),
            forall|j: int| 0 <= j < i ==> a@[j] == b@[j],
        decreases na - i,
    {
        if a.get_char(i) != b.get_char(i) {
            return false;
        }
        i += 1;
    }
    proof {
        assert(a@ =~= b@);
    }
    true
}

/// Parse one trimmed line of input into the command it names.
pub fn parse_command(s: &str) -> (c: Command)
    ensures
        c == spec_parse_command(s@),
{
    if str_eq(s, "add") {
        Command::Add
    } else if str_eq(s, "ls") {
        Command::Ls
    } else if str_eq(s, "delete") {
        Command::Delete
    } else if str_eq(s, "total") {
        Command::Total
    } else if str_eq(s, "save") {
        Command::Save
    } else if str_eq(s, "load") {
        Command::Load
    } else if str_eq(s, "clear") {
        Command::Clear
    } else if str_eq(s, "exit") {
        Command::Exit
    } else {
        Command::Unknown
    }
}

} // verus!
