//! `jsh`, the jos shell: what an entered line asks for.
use vstd::prelude::*;

verus! {

/// A shell command.
#[derive(Clone, Copy, PartialEq, Eq, Structural, Debug)]
pub enum Command {
    /// An empty line: nothing.
    Empty,
    /// `exit`: terminate with code 0.
    Exit,
    /// `help`: list the commands.
    Help,
    /// `spam`: the SQPOLL demo.
    Spam,
    /// `crash`: store into the program's own read-only code (the kernel kills
    /// the program).
    Crash,
    /// Anything else: report it.
    Unknown,
}

/// The text `help` prints.
pub fn help_text() -> (s: &'static str)
    ensures
        s@ == "commands: help spam crash exit\n"@,
{
    "commands: help spam crash exit\n"
}

/// Which command `line` is.
pub open spec fn command_of(line: Seq<u8>) -> Command {
    if line.len() == 0 {
        Command::Empty
    } else if line == seq![0x65u8, 0x78u8, 0x69u8, 0x74u8] {
        Command::Exit
    } else if line == seq![0x68u8, 0x65u8, 0x6cu8, 0x70u8] {
        Command::Help
    } else if line == seq![0x73u8, 0x70u8, 0x61u8, 0x6du8] {
        Command::Spam
    } else if line == seq![0x63u8, 0x72u8, 0x61u8, 0x73u8, 0x68u8] {
        Command::Crash
    } else {
        Command::Unknown
    }
}

fn is_word(line: &[u8], word: &[u8]) -> (r: bool)
    ensures
        r == (line@ == word@),
{
    if line.len() != word.len() {
        return false;
    }
    let mut i: usize = 0;
    while i < line.len()
        invariant
            line.len() == word.len(),
            i <= line.len(),
            forall|j: int| 0 <= j < i ==> line@[j] == word@[j],
        decreases line.len() - i,
    {
        if line[i] != word[i] {
            return false;
        }
        i = i + 1;
    }
    proof { assert(line@ =~= word@); }
    true
}

/// Run one entered line: decide which command it is.
pub fn dispatch(line: &[u8]) -> (c: Command)
    ensures
        c == command_of(line@),
{
    let exit_w: [u8; 4] = [0x65, 0x78, 0x69, 0x74];
    let help_w: [u8; 4] = [0x68, 0x65, 0x6c, 0x70];
    let spam_w: [u8; 4] = [0x73, 0x70, 0x61, 0x6d];
    let crash_w: [u8; 5] = [0x63, 0x72, 0x61, 0x73, 0x68];
    proof {
        assert(exit_w@ =~= seq![0x65u8, 0x78u8, 0x69u8, 0x74u8]);
        assert(help_w@ =~= seq![0x68u8, 0x65u8, 0x6cu8, 0x70u8]);
        assert(spam_w@ =~= seq![0x73u8, 0x70u8, 0x61u8, 0x6du8]);
        assert(crash_w@ =~= seq![0x63u8, 0x72u8, 0x61u8, 0x73u8, 0x68u8]);
    }
    if line.len() == 0 {
        Command::Empty
    } else if is_word(line, exit_w.as_slice()) {
        Command::Exit
    } else if is_word(line, help_w.as_slice()) {
        Command::Help
    } else if is_word(line, spam_w.as_slice()) {
        Command::Spam
    } else if is_word(line, crash_w.as_slice()) {
        Command::Crash
    } else {
        Command::Unknown
    }
}

} // verus!
