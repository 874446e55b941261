//! Errors of every phase of the pipeline, each tagged with the phase it came
//! from and (whenever known) the 1-based source line.
use vstd::prelude::*;
use crate::text::{digits_of, push_bytes, push_digits, push_str, str_bytes};

verus! {

/// An error of the lexer, the parser, the compiler or of a running program.
/// `line` is the 1-based source line, or 0 where no line is known.
#[derive(Debug, Clone, PartialEq)]
pub enum SfError {
    Lex { message: Vec<u8>, line: u32 },
    Parse { message: Vec<u8>, line: u32 },
    Compile { message: Vec<u8>, line: u32 },
    Runtime { message: Vec<u8>, line: u32 },
}

/// The result type of every fallible operation of the library.
pub type SfResult<T> = Result<T, SfError>;

impl SfError {
    pub open spec fn spec_line(self) -> u32 {
        match self {
            SfError::Lex { line, .. } => line,
            SfError::Parse { line, .. } => line,
            SfError::Compile { line, .. } => line,
            SfError::Runtime { line, .. } => line,
        }
    }

    pub open spec fn spec_message(self) -> Seq<u8> {
        match self {
            SfError::Lex { message, .. } => message@,
            SfError::Parse { message, .. } => message@,
            SfError::Compile { message, .. } => message@,
            SfError::Runtime { message, .. } => message@,
        }
    }

    /// The text naming the error's phase.
    pub open spec fn phase_text(self) -> Seq<char> {
        match self {
            SfError::Lex { .. } => "lex error"@,
            SfError::Parse { .. } => "syntax error"@,
            SfError::Compile { .. } => "compile error"@,
            SfError::Runtime { .. } => "runtime error"@,
        }
    }

    /// The UTF-8 bytes of the phase's name.
    pub open spec fn phase_bytes(self) -> Seq<u8> {
        match self {
            SfError::Lex { .. } => str_bytes("lex error"),
            SfError::Parse { .. } => str_bytes("syntax error"),
            SfError::Compile { .. } => str_bytes("compile error"),
            SfError::Runtime { .. } => str_bytes("runtime error"),
        }
    }

    /// The full text of the error: `phase: message (line N)`, or
    /// `phase: message` when no line is known.
    pub open spec fn spec_render(self) -> Seq<u8> {
        let head = self.phase_bytes() + str_bytes(": ") + self.spec_message();
        if self.spec_line() > 0 {
            head + str_bytes(" (line ") + digits_of(self.spec_line() as nat) + str_bytes(")")
        } else {
            head
        }
    }

    pub fn lex(message: Vec<u8>, line: u32) -> (e: SfError)
        ensures
            e == (SfError::Lex { message, line }),
    {
        SfError::Lex { message, line }
    }

    pub fn parse(message: Vec<u8>, line: u32) -> (e: SfError)
        ensures
            e == (SfError::Parse { message, line }),
    {
        SfError::Parse { message, line }
    }

    pub fn compile(message: Vec<u8>, line: u32) -> (e: SfError)
        ensures
            e == (SfError::Compile { message, line }),
    {
        SfError::Compile { message, line }
    }

    pub fn runtime(message: Vec<u8>, line: u32) -> (e: SfError)
        ensures
            e == (SfError::Runtime { message, line }),
    {
        SfError::Runtime { message, line }
    }

    /// The source line the error points at (0 when unknown).
    pub fn line(&self) -> (l: u32)
        ensures
            l == self.spec_line(),
    {
        match self {
            SfError::Lex { line, .. } => *line,
            SfError::Parse { line, .. } => *line,
            SfError::Compile { line, .. } => *line,
            SfError::Runtime { line, .. } => *line,
        }
    }

    /// The name of the error's phase.
    pub fn phase(&self) -> (p: &'static str)
        ensures
            p@ == self.phase_text(),
            str_bytes(p) == self.phase_bytes(),
    {
        match self {
            SfError::Lex { .. } => "lex error",
            SfError::Parse { .. } => "syntax error",
            SfError::Compile { .. } => "compile error",
            SfError::Runtime { .. } => "runtime error",
        }
    }

    /// The error's message.
    pub fn message(&self) -> (m: &Vec<u8>)
        ensures
            m@ == self.spec_message(),
    {
        match self {
            SfError::Lex { message, .. } => message,
            SfError::Parse { message, .. } => message,
            SfError::Compile { message, .. } => message,
            SfError::Runtime { message, .. } => message,
        }
    }

    /// The full text of the error as UTF-8 bytes.
    pub fn render(&self) -> (r: Vec<u8>)
        ensures
            r@ == self.spec_render(),
    {
        let p = self.phase();
        let mut r: Vec<u8> = Vec::new();
        push_str(&mut r, p);
        push_str(&mut r, ": ");
        push_bytes(&mut r, self.message().as_slice());
        let l = self.line();
        if l > 0 {
            push_str(&mut r, " (line ");
            push_digits(&mut r, l as u64);
            push_str(&mut r, ")");
        }
        assert(r@ =~= self.spec_render());
        r
    }

    /// The full text of the error, as `Display` would print it.
    pub fn to_string(&self) -> (s: String)
        ensures
            vstd::utf8::valid_utf8(self.spec_render())
                ==> s@ == vstd::utf8::decode_utf8(self.spec_render()),
    {
        let r = self.render();
        utf8_to_string(r.as_slice())
    }
}

/// `String::from_utf8_lossy`, made an owned `String` by `Cow::into_owned`:
/// the text of the bytes. The contract claims that valid UTF-8 is decoded
/// exactly; what invalid sequences become (U+FFFD) is left unstated.
#[verifier::external_body]
fn utf8_to_string(b: &[u8]) -> (s: String)
    ensures
        vstd::utf8::valid_utf8(b@) ==> s@ == vstd::utf8::decode_utf8(b@),
{
    String::from_utf8_lossy(b).into_owned()
}

} // verus!
