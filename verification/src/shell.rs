//! The interactive shell's choice of what to do with a line of input.

use vstd::prelude::*;
use crate::text::{chars_of, chars_eq, spec_to_lowercase, spec_to_uppercase, starts_with, str_eq, sub_chars, to_lowercase, to_uppercase};

verus! {

/// What the shell does with a line.
#[derive(Debug, Clone, Copy, PartialEq, Eq, Structural)]
pub enum ShellCommand {
    /// Nothing: read the next line.
    Continue,
    /// Close the database and leave.
    Exit,
    /// Print the help text.
    Help,
    /// List the tables.
    Tables,
    /// Run the line as a query and print its rows.
    Query,
    /// Run the line as a statement.
    Execute,
}

/// The command for a line whose lower-case form is `lower` and upper-case
/// form is `upper`: the meta commands (`exit`, `quit`, `.exit`, `.quit`,
/// `help`, `.help`, `.tables`) and the empty line are recognised in any
/// case; a line whose upper-case form starts with `SELECT` is a query;
/// anything else is a statement.
pub open spec fn spec_command(lower: Seq<char>, upper: Seq<char>) -> ShellCommand {
    if lower == ""@ {
        ShellCommand::Continue
    } else if lower == "exit"@ || lower == "quit"@ || lower == ".exit"@ || lower == ".quit"@ {
        ShellCommand::Exit
    } else if lower == "help"@ || lower == ".help"@ {
        ShellCommand::Help
    } else if lower == ".tables"@ {
        ShellCommand::Tables
    } else if starts_with(upper, "SELECT"@) {
        ShellCommand::Query
    } else {
        ShellCommand::Execute
    }
}

/// What the shell does with the line `input`.
pub fn classify_command(input: &str) -> (c: ShellCommand)
    ensures
        c == spec_command(spec_to_lowercase(input@), spec_to_uppercase(input@)),
{
    let lower = to_lowercase(input);
    let l = lower.as_str();
    if str_eq(l, "") {
        return ShellCommand::Continue;
    }
    if str_eq(l, "exit") || str_eq(l, "quit") || str_eq(l, ".exit") || str_eq(l, ".quit") {
        return ShellCommand::Exit;
    }
    if str_eq(l, "help") || str_eq(l, ".help") {
        return ShellCommand::Help;
    }
    if str_eq(l, ".tables") {
        return ShellCommand::Tables;
    }
    let upper = to_uppercase(input);
    let u = chars_of(upper.as_str());
    let p = chars_of("SELECT");
    if p.len() <= u.len() {
        let head = sub_chars(&u, 0, p.len());
        if chars_eq(&head, "SELECT") {
            return ShellCommand::Query;
        }
    }
    ShellCommand::Execute
}

} // verus!
