use crate::tokens::{Token, TokenType, TokenView};
use vstd::prelude::*;

verus! {

/// The mathematical content of a diagnostic.
pub struct DiagnosticView {
    pub line: nat,
    pub location: Seq<char>,
    pub message: Seq<char>,
}

/// A line-addressed report of malformed input.
#[derive(Debug, PartialEq)]
pub struct Diagnostic {
    pub line: usize,
    pub location: String,
    pub message: String,
}

impl View for Diagnostic {
    type V = DiagnosticView;

    open spec fn view(&self) -> DiagnosticView {
        DiagnosticView { line: self.line as nat, location: self.location@, message: self.message@ }
    }
}

/// The views of a sequence of diagnostics.
pub open spec fn diagnostic_views(ds: Seq<Diagnostic>) -> Seq<DiagnosticView> {
    ds.map_values(|d: Diagnostic| d@)
}

/// A diagnostic with no location.
pub open spec fn line_diagnostic(line: nat, message: Seq<char>) -> DiagnosticView {
    DiagnosticView { line, location: Seq::empty(), message }
}

/// Where a token stands, as a diagnostic says it.
pub open spec fn token_location(t: TokenView) -> Seq<char> {
    if t.token_type == TokenType::Eof {
        " at end "@
    } else {
        "at '"@ + t.lexeme + "'"@
    }
}

/// A diagnostic reported at a token.
pub open spec fn token_diagnostic(t: TokenView, message: Seq<char>) -> DiagnosticView {
    DiagnosticView { line: t.line, location: token_location(t), message }
}

/// The character of a digit value.
pub open spec fn digit_of(d: nat) -> char {
    if d == 0 {
        '0'
    } else if d == 1 {
        '1'
    } else if d == 2 {
        '2'
    } else if d == 3 {
        '3'
    } else if d == 4 {
        '4'
    } else if d == 5 {
        '5'
    } else if d == 6 {
        '6'
    } else if d == 7 {
        '7'
    } else if d == 8 {
        '8'
    } else {
        '9'
    }
}

/// The decimal numeral of a natural number, without leading zeros.
pub open spec fn decimal(n: nat) -> Seq<char>
    decreases n,
{
    if n < 10 {
        seq![digit_of(n)]
    } else {
        decimal(n / 10).push(digit_of(n % 10))
    }
}

/// The line a diagnostic prints: `[line N] Error LOCATION: MESSAGE`.
pub open spec fn diagnostic_text(d: DiagnosticView) -> Seq<char> {
    "[line "@ + decimal(d.line) + "] Error "@ + d.location + ": "@ + d.message
}

fn digit_str(d: usize) -> (r: &'static str)
    requires
        d < 10,
    ensures
        r@ == seq![digit_of(d as nat)],
{
    proof {
        reveal_strlit("0");
        reveal_strlit("1");
        reveal_strlit("2");
        reveal_strlit("3");
        reveal_strlit("4");
        reveal_strlit("5");
        reveal_strlit("6");
        reveal_strlit("7");
        reveal_strlit("8");
        reveal_strlit("9");
    }
    if d == 0 {
        assert("0"@ =~= seq!['0']);
        "0"
    } else if d == 1 {
        assert("1"@ =~= seq!['1']);
        "1"
    } else if d == 2 {
        assert("2"@ =~= seq!['2']);
        "2"
    } else if d == 3 {
        assert("3"@ =~= seq!['3']);
        "3"
    } else if d == 4 {
        assert("4"@ =~= seq!['4']);
        "4"
    } else if d == 5 {
        assert("5"@ =~= seq!['5']);
        "5"
    } else if d == 6 {
        assert("6"@ =~= seq!['6']);
        "6"
    } else if d == 7 {
        assert("7"@ =~= seq!['7']);
        "7"
    } else if d == 8 {
        assert("8"@ =~= seq!['8']);
        "8"
    } else {
        assert("9"@ =~= seq!['9']);
        "9"
    }
}

fn append_decimal(out: &mut String, n: usize)
    ensures
        final(out)@ == old(out)@ + decimal(n as nat),
    decreases n,
{
    if n >= 10 {
        append_decimal(out, n / 10);
        out.append(digit_str(n % 10));
        assert(final(out)@ =~= old(out)@ + decimal(n as nat));
    } else {
        out.append(digit_str(n));
    }
}

impl Diagnostic {
    /// The diagnostic as one line of text.
    pub fn text(&self) -> (r: String)
        ensures
            r@ == diagnostic_text(self@),
    {
        let mut out = "[line ".to_owned();
        append_decimal(&mut out, self.line);
        out.append("] Error ");
        out.append(self.location.as_str());
        out.append(": ");
        out.append(self.message.as_str());
        out
    }
}

/// A diagnostic for a line, with no location.
pub fn error(line: usize, message: &str) -> (r: Diagnostic)
    ensures
        r@ == line_diagnostic(line as nat, message@),
{
    let location = String::new();
    Diagnostic { line, location, message: message.to_owned() }
}

/// A diagnostic at a token: "at end" for the end of input, else at its lexeme.
pub fn token_error(token: Token, message: &str) -> (r: Diagnostic)
    ensures
        r@ == token_diagnostic(token@, message@),
{
    let location = if token.token_type == TokenType::Eof {
        " at end ".to_owned()
    } else {
        let mut l = "at '".to_owned();
        l.append(token.lexeme.as_str());
        l.append("'");
        l
    };
    Diagnostic { line: token.line, location, message: message.to_owned() }
}

} // verus!
