use vstd::prelude::*;

use vstd::string::StrSliceExecFns;

use crate::instruction::{is_space, symbol, symbol_of, Instruction};

verus! {

/// Why a text is not a program.
#[derive(Clone, Copy, Debug, PartialEq, Eq, Structural)]
pub enum ParseError {
    /// The character at this position (counted in characters, from 0) is
    /// neither an instruction symbol nor whitespace.
    UnexpectedChar(usize),
}

/// Whether every character of `s` is a symbol or whitespace.
pub open spec fn is_program_text(s: Seq<char>) -> bool {
    forall|i: int| 0 <= i < s.len() ==> symbol_of(#[trigger] s[i]) is Some || is_space(s[i])
}

/// The position of the first character that is neither symbol nor whitespace.
pub open spec fn first_bad_char(s: Seq<char>, p: int) -> bool {
    &&& 0 <= p < s.len()
    &&& symbol_of(s[p]) is None
    &&& !is_space(s[p])
    &&& is_program_text(s.take(p))
}

/// The instructions that the symbols of `s` stand for, in order; other
/// characters contribute nothing.
pub open spec fn instructions_of(s: Seq<char>) -> Seq<Instruction>
    decreases s.len(),
{
    if s.len() == 0 {
        Seq::empty()
    } else {
        let rest = instructions_of(s.drop_last());
        match symbol_of(s.last()) {
            Some(ins) => rest.push(ins),
            None => rest,
        }
    }
}

/// Reads a program: each symbol gives its instruction, whitespace is skipped,
/// and any other character rejects the whole text.
pub fn parse_hand_code(input: &str) -> (r: Result<Vec<Instruction>, ParseError>)
    ensures
        r is Ok <==> is_program_text(input@),
        r matches Ok(v) ==> v@ == instructions_of(input@),
        r matches Err(ParseError::UnexpectedChar(p)) ==> first_bad_char(input@, p as int),
{
    let mut out: Vec<Instruction> = Vec::new();
    let len: usize = input.unicode_len();
    let mut pos: usize = 0;
    for c in it: input.chars()
        invariant
            it.seq() == input@,
            pos == it.index(),
            len == input@.len(),
            is_program_text(input@.take(pos as int)),
            out@ == instructions_of(input@.take(pos as int)),
    {
        assert(pos < len);
        assert(input@.take(pos + 1).drop_last() == input@.take(pos as int));
        match symbol(c) {
            Some(ins) => {
                out.push(ins);
            },
            None => {
                if !(c == ' ' || c == '\t' || c == '\n' || c == '\r') {
                    return Err(ParseError::UnexpectedChar(pos));
                }
            },
        }
        pos = pos + 1;
    }
    assert(input@.take(pos as int) == input@);
    Ok(out)
}

} // verus!
