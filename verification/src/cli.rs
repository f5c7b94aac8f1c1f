//! The commands that the program understands.
use vstd::prelude::*;

verus! {

#[derive(Debug, Clone, Copy, PartialEq, Eq, Structural)]
pub enum Command {
    Decode,
    Info,
}

/// `a` and `b` hold the same characters.
fn same_text(a: &str, b: &str) -> (r: bool)
    ensures
        r == (a@ == b@),
{
    String::from_str(a) == String::from_str(b)
}

impl Command {
    /// The command named by a command-line argument: `decode` or `info`.
    pub fn from_cli(arg: &str) -> (r: Result<Self, String>)
        ensures
            arg@ == "decode"@ ==> r == Ok::<Command, String>(Command::Decode),
            arg@ == "info"@ ==> r == Ok::<Command, String>(Command::Info),
            arg@ != "decode"@ && arg@ != "info"@ ==> r is Err && r->Err_0@ == "unknown command: "@
                + arg@,
    {
        proof {
            reveal_strlit("decode");
            reveal_strlit("info");
            assert("decode"@.len() != "info"@.len());
        }
        if same_text(arg, "decode") {
            Ok(Command::Decode)
        } else if same_text(arg, "info") {
            Ok(Command::Info)
        } else {
            let mut message = String::from_str("unknown command: ");
            message.append(arg);
            Err(message)
        }
    }
}

} // verus!
