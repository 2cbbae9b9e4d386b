//! What an interactive session decides: how a line of input is taken in, cut
//! into tokens and understood. Reading and printing are left to the caller.

use crate::split::pieces;
use crate::split::split;
use crate::split::views;
use vstd::prelude::*;

verus! {

/// Separates the tokens of a line.
pub const SPACE: u8 = 32;

/// Ends a line of input.
pub const END_OF_LINE: u8 = 10;

/// The command `quit`.
pub open spec fn quit_long() -> Seq<u8> {
    seq![113u8, 117u8, 105u8, 116u8]
}

/// The command `q`, short for `quit`.
pub open spec fn quit_short() -> Seq<u8> {
    seq![113u8]
}

/// Whether `token` asks to end the session.
pub open spec fn is_quit(token: Seq<u8>) -> bool {
    token == quit_long() || token == quit_short()
}

/// What is kept of an input byte: the end of a line is kept as a space, so
/// that it ends the last token.
pub open spec fn kept(byte: u8) -> u8 {
    if byte == END_OF_LINE {
        SPACE
    } else {
        byte
    }
}

/// Takes one byte of input into `buffer` at position `at`, and says whether
/// the line is complete with it.
pub fn accept_byte(buffer: &mut [u8], at: usize, byte: u8) -> (complete: bool)
    requires
        at < old(buffer)@.len(),
    ensures
        complete <==> byte == END_OF_LINE,
        final(buffer)@ == old(buffer)@.update(at as int, kept(byte)),
{
    if byte == END_OF_LINE {
        buffer[at] = SPACE;
        true
    } else {
        buffer[at] = byte;
        false
    }
}

/// Cuts a line at its spaces.
pub fn tokenize(buffer: &[u8]) -> (tokens: Vec<&[u8]>)
    ensures
        views(tokens@) == pieces(buffer@, SPACE),
        tokens@.len() >= 1,
{
    proof {
        crate::split::lemma_pieces_nonempty(buffer@, SPACE);
    }
    split(buffer, SPACE)
}

/// Whether the command that `tokens` begin with ends the session: `quit` and
/// `q` do, and nothing else is a command.
pub fn interpret(tokens: &[&[u8]]) -> (quit: bool)
    requires
        tokens@.len() >= 1,
    ensures
        quit <==> is_quit(tokens@[0]@),
{
    let command = tokens[0];
    let long = command.len() == 4 && command[0] == 113 && command[1] == 117 && command[2] == 105
        && command[3] == 116;
    let short = command.len() == 1 && command[0] == 113;
    proof {
        if long {
            assert(command@ =~= quit_long());
        }
        if short {
            assert(command@ =~= quit_short());
        }
        if command@ == quit_long() {
            assert(quit_long().len() == 4);
            assert(quit_long()[0] == 113 && quit_long()[1] == 117 && quit_long()[2] == 105
                && quit_long()[3] == 116);
        }
        if command@ == quit_short() {
            assert(quit_short().len() == 1 && quit_short()[0] == 113);
        }
    }
    long || short
}

} // verus!
