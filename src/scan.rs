use crate::errors::{diagnostic_views, error, line_diagnostic, Diagnostic, DiagnosticView};
use crate::helpers::{alpha_char, alphanumeric_char, digit_char, is_alpha, is_alphanumeric, is_digit};
use crate::tokens::{keyword_type, lemma_keyword_type, literal_type, token_views, Keywords, Token, TokenType, TokenView};
use vstd::prelude::*;
use vstd::string::*;

verus! {

/// A class of characters that a run of the scanner consumes.
pub enum CharClass {
    Digit,
    Alphanumeric,
    /// Every character but the given one.
    Except(char),
}

pub open spec fn in_class(c: char, k: CharClass) -> bool {
    match k {
        CharClass::Digit => digit_char(c),
        CharClass::Alphanumeric => alphanumeric_char(c),
        CharClass::Except(e) => c != e,
    }
}

/// The number of characters of class `k` that follow one another from index `j` on.
pub open spec fn run(s: Seq<char>, j: int, k: CharClass) -> nat
    decreases s.len() - j,
{
    if 0 <= j < s.len() && in_class(s[j], k) {
        1 + run(s, j + 1, k)
    } else {
        0
    }
}

/// The number of characters from index `j` on before the first `*/`, or to the end if there is none.
pub open spec fn comment_len(s: Seq<char>, j: int) -> nat
    decreases s.len() - j,
{
    if j < 0 || j >= s.len() {
        0
    } else if j + 1 < s.len() && s[j] == '*' && s[j + 1] == '/' {
        0
    } else {
        1 + comment_len(s, j + 1)
    }
}

/// The number of line breaks in a text.
pub open spec fn count_newlines(t: Seq<char>) -> nat
    decreases t.len(),
{
    if t.len() == 0 {
        0
    } else {
        count_newlines(t.drop_last()) + if t.last() == '\n' {
            1nat
        } else {
            0nat
        }
    }
}

/// A string of decimal digits without its leading zeros, keeping at least one digit.
pub open spec fn strip_leading_zeros(d: Seq<char>) -> Seq<char>
    decreases d.len(),
{
    if d.len() > 1 && d[0] == '0' {
        strip_leading_zeros(d.drop_first())
    } else {
        d
    }
}

/// A string of decimal digits without its trailing zeros.
pub open spec fn strip_trailing_zeros(d: Seq<char>) -> Seq<char>
    decreases d.len(),
{
    if d.len() > 0 && d.last() == '0' {
        strip_trailing_zeros(d.drop_last())
    } else {
        d
    }
}

/// The canonical decimal spelling of the number with integer digits `int_part` and
/// fractional digits `frac_part`: no leading zeros (but one before the point), no trailing
/// fractional zeros, and no point when no fractional digit is left (`007.50` is `7.5`,
/// `3.0` is `3`).
pub open spec fn canonical_number(int_part: Seq<char>, frac_part: Seq<char>) -> Seq<char> {
    let f = strip_trailing_zeros(frac_part);
    if f.len() == 0 {
        strip_leading_zeros(int_part)
    } else {
        strip_leading_zeros(int_part) + seq!['.'] + f
    }
}

/// The value of a number lexeme `digit+ ('.' digit+)?`, in canonical decimal spelling.
/// The value is exact: it is not rounded to a 64-bit float. Up to 15 significant digits
/// this is also how such a float prints; beyond about 17 the two differ
/// (`12345678901234567891` stays as it is here, where the float prints
/// `12345678901234567000`).
pub open spec fn number_value(lexeme: Seq<char>) -> Seq<char> {
    let d = run(lexeme, 0, CharClass::Digit) as int;
    let frac = if d < lexeme.len() {
        lexeme.subrange(d + 1, lexeme.len() as int)
    } else {
        Seq::empty()
    };
    canonical_number(lexeme.subrange(0, d), frac)
}

/// What one step of the scanner does from index `i`: where the next step starts, the line
/// it starts on, and the token and diagnostic it emits, if any.
pub struct ScanStep {
    pub next: int,
    pub line: nat,
    pub token: Option<TokenView>,
    pub diagnostic: Option<DiagnosticView>,
}

/// The end-of-input token.
pub open spec fn eof_token(line: nat) -> TokenView {
    TokenView { token_type: TokenType::Eof, lexeme: Seq::empty(), literal: None, line }
}

/// A step that emits the token `s[i..next]` of category `t`, with no literal.
pub open spec fn token_step(s: Seq<char>, i: int, next: int, line: nat, t: TokenType) -> ScanStep {
    ScanStep {
        next,
        line,
        token: Some(TokenView { token_type: t, lexeme: s.subrange(i, next), literal: None, line }),
        diagnostic: None,
    }
}

/// A step that emits nothing.
pub open spec fn skip_step(next: int, line: nat) -> ScanStep {
    ScanStep { next, line, token: None, diagnostic: None }
}

/// A one- or two-character operator: `two` when `=` follows, else `one`.
pub open spec fn operator_step(s: Seq<char>, i: int, line: nat, one: TokenType, two: TokenType) -> ScanStep {
    if i + 1 < s.len() && s[i + 1] == '=' {
        token_step(s, i, i + 2, line, two)
    } else {
        token_step(s, i, i + 1, line, one)
    }
}

/// A number literal from the digit at `i`: a maximal run of digits, then a point and a
/// further run of digits if a digit follows the point.
pub open spec fn number_step(s: Seq<char>, i: int, line: nat) -> ScanStep {
    let e = i + 1 + run(s, i + 1, CharClass::Digit);
    let end = if e + 1 < s.len() && s[e] == '.' && digit_char(s[e + 1]) {
        e + 2 + run(s, e + 2, CharClass::Digit)
    } else {
        e
    };
    let lexeme = s.subrange(i, end);
    ScanStep {
        next: end,
        line,
        token: Some(
            TokenView {
                token_type: TokenType::Number,
                lexeme,
                literal: Some(number_value(lexeme)),
                line,
            },
        ),
        diagnostic: None,
    }
}

/// A word from the letter at `i`: a keyword if it is spelled as one, else an identifier.
pub open spec fn identifier_step(s: Seq<char>, i: int, line: nat) -> ScanStep {
    let end = i + 1 + run(s, i + 1, CharClass::Alphanumeric);
    token_step(s, i, end, line, keyword_type(s.subrange(i, end)))
}

/// A string literal from the quote at `i` through the next quote. Its literal is the text
/// between the quotes. Without a closing quote it runs to the end of input, with a
/// diagnostic.
pub open spec fn string_step(s: Seq<char>, i: int, line: nat) -> ScanStep {
    let close = i + 1 + run(s, i + 1, CharClass::Except('"'));
    if close < s.len() {
        let body = s.subrange(i + 1, close);
        ScanStep {
            next: close + 1,
            line: line + count_newlines(body),
            token: Some(
                TokenView {
                    token_type: TokenType::String,
                    lexeme: s.subrange(i, close + 1),
                    literal: Some(body),
                    line,
                },
            ),
            diagnostic: None,
        }
    } else {
        let body = s.subrange(i + 1, s.len() as int);
        let end_line = line + count_newlines(body);
        ScanStep {
            next: s.len() as int,
            line: end_line,
            token: Some(
                TokenView {
                    token_type: TokenType::String,
                    lexeme: s.subrange(i, s.len() as int),
                    literal: Some(body),
                    line,
                },
            ),
            diagnostic: Some(line_diagnostic(end_line, "Error: Unterminated string"@)),
        }
    }
}

/// A slash: a line comment, a block comment, or the division operator.
pub open spec fn slash_step(s: Seq<char>, i: int, line: nat) -> ScanStep {
    if i + 1 < s.len() && s[i + 1] == '/' {
        skip_step(i + 2 + run(s, i + 2, CharClass::Except('\n')), line)
    } else if i + 1 < s.len() && s[i + 1] == '*' {
        let k = comment_len(s, i + 2);
        let end_line = line + count_newlines(s.subrange(i + 2, i + 2 + k));
        if i + 2 + k < s.len() {
            skip_step(i + 2 + k + 2, end_line)
        } else {
            ScanStep {
                next: s.len() as int,
                line: end_line,
                token: None,
                diagnostic: Some(line_diagnostic(end_line, "Error: Unterminated block comment"@)),
            }
        }
    } else {
        token_step(s, i, i + 1, line, TokenType::Slash)
    }
}

/// One step of the scanner from index `i` (`0 <= i < s.len()`) on line `line`.
pub open spec fn scan_step(s: Seq<char>, i: int, line: nat) -> ScanStep {
    let c = s[i];
    if digit_char(c) {
        number_step(s, i, line)
    } else if alpha_char(c) {
        identifier_step(s, i, line)
    } else if c == '(' {
        token_step(s, i, i + 1, line, TokenType::LeftParen)
    } else if c == ')' {
        token_step(s, i, i + 1, line, TokenType::RightParen)
    } else if c == '{' {
        token_step(s, i, i + 1, line, TokenType::LeftBrace)
    } else if c == '}' {
        token_step(s, i, i + 1, line, TokenType::RightBrace)
    } else if c == ',' {
        token_step(s, i, i + 1, line, TokenType::Comma)
    } else if c == '.' {
        token_step(s, i, i + 1, line, TokenType::Dot)
    } else if c == '-' {
        token_step(s, i, i + 1, line, TokenType::Minus)
    } else if c == '+' {
        token_step(s, i, i + 1, line, TokenType::Plus)
    } else if c == ';' {
        token_step(s, i, i + 1, line, TokenType::Semicolon)
    } else if c == '*' {
        token_step(s, i, i + 1, line, TokenType::Star)
    } else if c == '!' {
        operator_step(s, i, line, TokenType::Bang, TokenType::BangEqual)
    } else if c == '=' {
        operator_step(s, i, line, TokenType::Equal, TokenType::EqualEqual)
    } else if c == '<' {
        operator_step(s, i, line, TokenType::Less, TokenType::LessEqual)
    } else if c == '>' {
        operator_step(s, i, line, TokenType::Greater, TokenType::GreaterEqual)
    } else if c == '/' {
        slash_step(s, i, line)
    } else if c == ' ' || c == '\r' || c == '\t' {
        skip_step(i + 1, line)
    } else if c == '\n' {
        skip_step(i + 1, line + 1)
    } else if c == '"' {
        string_step(s, i, line)
    } else {
        ScanStep {
            next: i + 1,
            line,
            token: None,
            diagnostic: Some(line_diagnostic(line, "Unexpected character."@)),
        }
    }
}

/// An optional value as a sequence of zero or one items.
pub open spec fn opt_seq<A>(o: Option<A>) -> Seq<A> {
    match o {
        Some(a) => seq![a],
        None => Seq::empty(),
    }
}

proof fn lemma_run_bound(s: Seq<char>, j: int, k: CharClass)
    requires
        0 <= j <= s.len(),
    ensures
        j + run(s, j, k) <= s.len(),
    decreases s.len() - j,
{
    if j < s.len() && in_class(s[j], k) {
        lemma_run_bound(s, j + 1, k);
    }
}

proof fn lemma_comment_len_bound(s: Seq<char>, j: int)
    requires
        0 <= j <= s.len(),
    ensures
        j + comment_len(s, j) <= s.len(),
        j + comment_len(s, j) < s.len() ==> {
            let e = j + comment_len(s, j);
            e + 1 < s.len() && s[e] == '*' && s[e + 1] == '/'
        },
    decreases s.len() - j,
{
    if j < s.len() && !(j + 1 < s.len() && s[j] == '*' && s[j + 1] == '/') {
        lemma_comment_len_bound(s, j + 1);
    }
}

/// A step consumes at least one character and stays within the input.
pub proof fn lemma_step_advances(s: Seq<char>, i: int, line: nat)
    requires
        0 <= i < s.len(),
    ensures
        i < scan_step(s, i, line).next <= s.len(),
{
    lemma_run_bound(s, i + 1, CharClass::Digit);
    lemma_run_bound(s, i + 1, CharClass::Alphanumeric);
    lemma_run_bound(s, i + 1, CharClass::Except('"'));
    let e = i + 1 + run(s, i + 1, CharClass::Digit);
    if e + 2 <= s.len() {
        lemma_run_bound(s, e + 2, CharClass::Digit);
    }
    if i + 2 <= s.len() {
        lemma_run_bound(s, i + 2, CharClass::Except('\n'));
        lemma_comment_len_bound(s, i + 2);
    }
}

/// The tokens and the diagnostics of scanning `s` from index `i` on line `line`.
pub open spec fn scan_from(s: Seq<char>, i: int, line: nat) -> (Seq<TokenView>, Seq<DiagnosticView>)
    decreases s.len() - i,
{
    if i < 0 || i >= s.len() {
        (seq![eof_token(line)], Seq::empty())
    } else {
        let st = scan_step(s, i, line);
        proof {
            lemma_step_advances(s, i, line);
        }
        let rest = scan_from(s, st.next, st.line);
        (opt_seq(st.token) + rest.0, opt_seq(st.diagnostic) + rest.1)
    }
}

/// The tokens and the diagnostics of a whole source text.
pub open spec fn scan(s: Seq<char>) -> (Seq<TokenView>, Seq<DiagnosticView>) {
    scan_from(s, 0, 1)
}

proof fn lemma_run_subrange(s: Seq<char>, a: int, b: int, j: int, k: CharClass)
    requires
        0 <= a <= j <= b <= s.len(),
    ensures
        run(s.subrange(a, b), j - a, k) == if run(s, j, k) <= b - j {
            run(s, j, k) as int
        } else {
            b - j
        },
    decreases b - j,
{
    if j < b && in_class(s[j], k) {
        lemma_run_subrange(s, a, b, j + 1, k);
    }
}

proof fn lemma_newlines_step(s: Seq<char>, a: int, b: int)
    requires
        0 <= a <= b < s.len(),
    ensures
        count_newlines(s.subrange(a, b + 1)) == count_newlines(s.subrange(a, b)) + if s[b] == '\n' {
            1nat
        } else {
            0nat
        },
{
    assert(s.subrange(a, b + 1).drop_last() =~= s.subrange(a, b));
}

proof fn lemma_step_token_not_eof(s: Seq<char>, i: int, line: nat)
    requires
        0 <= i < s.len(),
    ensures
        scan_step(s, i, line).token is Some ==> scan_step(s, i, line).token->Some_0.token_type
            != TokenType::Eof,
{
    lemma_keyword_type(s.subrange(i, i + 1 + run(s, i + 1, CharClass::Alphanumeric)));
}

/// From any position, scanning ends with exactly one end-of-input token, and it is the last.
pub proof fn lemma_scan_from_single_eof(s: Seq<char>, i: int, line: nat)
    requires
        0 <= i,
    ensures
        scan_from(s, i, line).0.len() >= 1,
        scan_from(s, i, line).0.last().token_type == TokenType::Eof,
        forall|k: int|
            0 <= k < scan_from(s, i, line).0.len() - 1 ==> #[trigger] scan_from(
                s,
                i,
                line,
            ).0[k].token_type != TokenType::Eof,
    decreases s.len() - i,
{
    if i < s.len() {
        let st = scan_step(s, i, line);
        lemma_step_advances(s, i, line);
        lemma_step_token_not_eof(s, i, line);
        lemma_scan_from_single_eof(s, st.next, st.line);
        let rest = scan_from(s, st.next, st.line).0;
        let all = scan_from(s, i, line).0;
        assert(all == opt_seq(st.token) + rest);
        assert forall|k: int| 0 <= k < all.len() - 1 implies #[trigger] all[k].token_type
            != TokenType::Eof by {
            if st.token is Some && k == 0 {
            } else if st.token is Some {
                assert(all[k] == rest[k - 1]);
            } else {
                assert(all[k] == rest[k]);
            }
        }
    }
}

/// Scanning any text terminates with exactly one end-of-input token, the last one.
pub proof fn scan_ends_with_single_eof(s: Seq<char>)
    ensures
        scan(s).0.len() >= 1,
        scan(s).0.last().token_type == TokenType::Eof,
        forall|k: int| 0 <= k < scan(s).0.len() - 1 ==> #[trigger] scan(s).0[k].token_type
            != TokenType::Eof,
{
    lemma_scan_from_single_eof(s, 0, 1);
}

/// Every character of `t` is a digit.
pub open spec fn all_digits(t: Seq<char>) -> bool {
    forall|k: int| 0 <= k < t.len() ==> digit_char(#[trigger] t[k])
}

/// `t` is a number literal: `digit+ ('.' digit+)?`.
pub open spec fn is_number_lexeme(t: Seq<char>) -> bool {
    ||| (t.len() > 0 && all_digits(t))
    ||| exists|d: int|
        0 < d && d + 1 < t.len() && #[trigger] t[d] == '.' && all_digits(t.subrange(0, d))
            && all_digits(t.subrange(d + 1, t.len() as int))
}

proof fn lemma_run_exact(s: Seq<char>, j: int, e: int, k: CharClass)
    requires
        0 <= j <= e <= s.len(),
        forall|m: int| j <= m < e ==> in_class(#[trigger] s[m], k),
        e == s.len() || !in_class(s[e], k),
    ensures
        run(s, j, k) == e - j,
    decreases e - j,
{
    if j < e {
        lemma_run_exact(s, j + 1, e, k);
    }
}

/// A number literal standing alone scans to exactly one `Number` token: its lexeme is the
/// whole literal and its payload the literal's value, in canonical decimal spelling.
pub proof fn number_literal_scans_to_one_token(lex: Seq<char>)
    requires
        is_number_lexeme(lex),
    ensures
        scan(lex) == (
            seq![
                TokenView {
                    token_type: TokenType::Number,
                    lexeme: lex,
                    literal: Some(number_value(lex)),
                    line: 1,
                },
                eof_token(1),
            ],
            Seq::<DiagnosticView>::empty(),
        ),
{
    let n = lex.len() as int;
    if lex.len() > 0 && all_digits(lex) {
        lemma_run_exact(lex, 1, n, CharClass::Digit);
    } else {
        let d = choose|d: int|
            0 < d && d + 1 < lex.len() && #[trigger] lex[d] == '.' && all_digits(lex.subrange(0, d))
                && all_digits(lex.subrange(d + 1, lex.len() as int));
        assert forall|m: int| 1 <= m < d implies digit_char(#[trigger] lex[m]) by {
            assert(lex.subrange(0, d)[m] == lex[m]);
        }
        assert forall|m: int| d + 2 <= m < n implies digit_char(#[trigger] lex[m]) by {
            assert(lex.subrange(d + 1, n)[m - d - 1] == lex[m]);
        }
        assert(lex.subrange(0, d)[0] == lex[0]);
        assert(lex.subrange(d + 1, n)[0] == lex[d + 1]);
        lemma_run_exact(lex, 1, d, CharClass::Digit);
        lemma_run_exact(lex, d + 2, n, CharClass::Digit);
    }
    let st = scan_step(lex, 0, 1);
    assert(st.next == n);
    assert(lex.subrange(0, n) =~= lex);
    let rest = scan_from(lex, n, 1);
    assert(scan(lex).0 =~= seq![st.token->Some_0] + rest.0);
    assert(scan(lex).1 =~= Seq::<DiagnosticView>::empty());
}

/// The scanner at a digit emits one `Number` token: its lexeme is a number literal that
/// is as long as it can be, and its payload is that literal's value.
pub proof fn number_step_emits_literal(s: Seq<char>, i: int, line: nat)
    requires
        0 <= i < s.len(),
        digit_char(s[i]),
    ensures
        ({
            let st = scan_step(s, i, line);
            let lexeme = s.subrange(i, st.next);
            &&& st.token == Some(
                TokenView {
                    token_type: TokenType::Number,
                    lexeme,
                    literal: Some(number_value(lexeme)),
                    line,
                },
            )
            &&& st.diagnostic is None
            &&& st.line == line
            &&& is_number_lexeme(lexeme)
            &&& st.next == s.len() || !digit_char(s[st.next])
            &&& all_digits(lexeme) ==> !(st.next + 1 < s.len() && s[st.next] == '.' && digit_char(
                s[st.next + 1],
            ))
        }),
{
    let st = scan_step(s, i, line);
    lemma_run_bound(s, i + 1, CharClass::Digit);
    let e = i + 1 + run(s, i + 1, CharClass::Digit);
    lemma_run_facts(s, i + 1, CharClass::Digit);
    let lexeme = s.subrange(i, st.next);
    if e + 1 < s.len() && s[e] == '.' && digit_char(s[e + 1]) {
        lemma_run_bound(s, e + 2, CharClass::Digit);
        lemma_run_facts(s, e + 2, CharClass::Digit);
        let d = e - i;
        assert(lexeme[d] == '.');
        assert(all_digits(lexeme.subrange(0, d)));
        assert(all_digits(lexeme.subrange(d + 1, lexeme.len() as int)));
        assert(!digit_char(lexeme[d]));
    } else {
        assert(all_digits(lexeme));
    }
}

/// The characters a run covers are of its class, and the one after it is not.
proof fn lemma_run_facts(s: Seq<char>, j: int, k: CharClass)
    requires
        0 <= j <= s.len(),
    ensures
        forall|m: int| j <= m < j + run(s, j, k) ==> in_class(#[trigger] s[m], k),
        j + run(s, j, k) == s.len() || !in_class(s[j + run(s, j, k)], k),
    decreases s.len() - j,
{
    if j < s.len() && in_class(s[j], k) {
        lemma_run_facts(s, j + 1, k);
    }
}

/// At a quote whose closing quote is at `close`, with no quote between, the scanner emits
/// one `String` token: its lexeme runs from quote to quote, its payload is the text strictly
/// between them, and its line is the one it starts on. Scanning goes on after the closing
/// quote, one line further for each line break in the text.
pub proof fn string_literal_step(s: Seq<char>, i: int, close: int, line: nat)
    requires
        0 <= i < close < s.len(),
        s[i] == '"',
        s[close] == '"',
        forall|m: int| i < m < close ==> #[trigger] s[m] != '"',
    ensures
        ({
            let body = s.subrange(i + 1, close);
            let token = TokenView {
                token_type: TokenType::String,
                lexeme: s.subrange(i, close + 1),
                literal: Some(body),
                line,
            };
            let rest = scan_from(s, close + 1, line + count_newlines(body));
            &&& scan_step(s, i, line) == ScanStep {
                next: close + 1,
                line: line + count_newlines(body),
                token: Some(token),
                diagnostic: None,
            }
            &&& scan_from(s, i, line) == (seq![token] + rest.0, rest.1)
        }),
{
    lemma_run_exact(s, i + 1, close, CharClass::Except('"'));
    let st = scan_step(s, i, line);
    let rest = scan_from(s, st.next, st.line);
    assert(opt_seq(st.diagnostic) + rest.1 =~= rest.1);
}

/// At a quote with no closing quote after it, scanning still ends with the end-of-input
/// token, after one `String` token that holds the rest of the text, and reports exactly one
/// diagnostic, for that string.
pub proof fn unterminated_string_scan(s: Seq<char>, i: int, line: nat)
    requires
        0 <= i < s.len(),
        s[i] == '"',
        forall|m: int| i < m < s.len() ==> #[trigger] s[m] != '"',
    ensures
        ({
            let body = s.subrange(i + 1, s.len() as int);
            let end_line = line + count_newlines(body);
            scan_from(s, i, line) == (
                seq![
                    TokenView {
                        token_type: TokenType::String,
                        lexeme: s.subrange(i, s.len() as int),
                        literal: Some(body),
                        line,
                    },
                    eof_token(end_line),
                ],
                seq![line_diagnostic(end_line, "Error: Unterminated string"@)],
            )
        }),
{
    lemma_run_exact(s, i + 1, s.len() as int, CharClass::Except('"'));
    let st = scan_step(s, i, line);
    let rest = scan_from(s, st.next, st.line);
    assert(scan_from(s, i, line).0 =~= seq![st.token->Some_0] + rest.0);
    assert(scan_from(s, i, line).1 =~= seq![st.diagnostic->Some_0] + rest.1);
}

/// The first token of a scan, unless it is the end of input, is emitted by a step at some
/// index.
proof fn lemma_first_token_step(s: Seq<char>, i: int, line: nat)
    requires
        0 <= i,
        scan_from(s, i, line).0[0].token_type != TokenType::Eof,
    ensures
        exists|j: int, ln: nat|
            i <= j < s.len() && #[trigger] scan_step(s, j, ln).token == Some(
                scan_from(s, i, line).0[0],
            ),
    decreases s.len() - i,
{
    if i < s.len() {
        let st = scan_step(s, i, line);
        lemma_step_advances(s, i, line);
        if st.token is Some {
            assert(scan_from(s, i, line).0[0] == st.token->Some_0);
            assert(scan_step(s, i, line).token == Some(scan_from(s, i, line).0[0]));
        } else {
            assert(scan_from(s, i, line).0 =~= scan_from(s, st.next, st.line).0);
            lemma_first_token_step(s, st.next, st.line);
        }
    }
}

/// A literal token, scanned again from its lexeme alone, gives a token of the same category
/// and lexeme, then the end of input. A `Nil` token is spelled `nil`.
proof fn lemma_literal_token_rescans(s: Seq<char>, j: int, ln: nat)
    requires
        0 <= j < s.len(),
        scan_step(s, j, ln).token is Some,
        literal_type(scan_step(s, j, ln).token->Some_0.token_type),
    ensures
        ({
            let tok = scan_step(s, j, ln).token->Some_0;
            let again = scan(tok.lexeme).0;
            &&& again.len() == 2
            &&& again[0].token_type == tok.token_type
            &&& again[0].lexeme == tok.lexeme
            &&& again[1].token_type == TokenType::Eof
            &&& tok.token_type == TokenType::Nil ==> tok.lexeme == "nil"@
        }),
{
    let c = s[j];
    let tok = scan_step(s, j, ln).token->Some_0;
    let lex = tok.lexeme;
    if digit_char(c) {
        number_step_emits_literal(s, j, ln);
        number_literal_scans_to_one_token(lex);
    } else if alpha_char(c) {
        let end = j + 1 + run(s, j + 1, CharClass::Alphanumeric);
        lemma_run_bound(s, j + 1, CharClass::Alphanumeric);
        lemma_run_facts(s, j + 1, CharClass::Alphanumeric);
        assert(lex == s.subrange(j, end));
        assert forall|m: int| 1 <= m < lex.len() implies in_class(
            #[trigger] lex[m],
            CharClass::Alphanumeric,
        ) by {
            assert(lex[m] == s[j + m]);
        }
        lemma_run_exact(lex, 1, lex.len() as int, CharClass::Alphanumeric);
        assert(lex.subrange(0, lex.len() as int) =~= lex);
        lemma_keyword_type(lex);
        assert(lex[0] == c);
        let st = scan_step(lex, 0, 1);
        assert(st.next == lex.len());
        assert(scan(lex).0 =~= seq![st.token->Some_0] + scan_from(lex, lex.len() as int, 1).0);
    } else if c == '"' {
        let close = j + 1 + run(s, j + 1, CharClass::Except('"'));
        lemma_run_bound(s, j + 1, CharClass::Except('"'));
        lemma_run_facts(s, j + 1, CharClass::Except('"'));
        let n = lex.len() as int;
        if close < s.len() {
            assert(lex == s.subrange(j, close + 1));
            assert forall|m: int| 1 <= m < n - 1 implies in_class(
                #[trigger] lex[m],
                CharClass::Except('"'),
            ) by {
                assert(lex[m] == s[j + m]);
            }
            assert(lex[n - 1] == s[close]);
            lemma_run_exact(lex, 1, n - 1, CharClass::Except('"'));
        } else {
            assert(lex == s.subrange(j, s.len() as int));
            assert forall|m: int| 1 <= m < n implies in_class(
                #[trigger] lex[m],
                CharClass::Except('"'),
            ) by {
                assert(lex[m] == s[j + m]);
            }
            lemma_run_exact(lex, 1, n, CharClass::Except('"'));
        }
        assert(lex[0] == c);
        assert(lex.subrange(0, n) =~= lex);
        let st = scan_step(lex, 0, 1);
        assert(st.next == n);
        assert(scan(lex).0 =~= seq![st.token->Some_0] + scan_from(lex, n, st.line).0);
    }
}

/// The first token of a scan, if it is a literal, scans again from its lexeme alone to a
/// token of the same category and lexeme, then the end of input.
pub proof fn lemma_first_literal_rescans(s: Seq<char>)
    requires
        literal_type(scan(s).0[0].token_type),
    ensures
        ({
            let tok = scan(s).0[0];
            let again = scan(tok.lexeme).0;
            &&& again.len() == 2
            &&& again[0].token_type == tok.token_type
            &&& again[0].lexeme == tok.lexeme
            &&& again[1].token_type == TokenType::Eof
            &&& tok.token_type == TokenType::Nil ==> tok.lexeme == "nil"@
        }),
{
    lemma_first_token_step(s, 0, 1);
    let (j, ln) = choose|j: int, ln: nat|
        0 <= j < s.len() && #[trigger] scan_step(s, j, ln).token == Some(scan(s).0[0]);
    lemma_literal_token_rescans(s, j, ln);
}

/// `p` followed by a quote begins `s`.
pub open spec fn quote_after(s: Seq<char>, p: Seq<char>) -> bool {
    &&& p.len() < s.len()
    &&& s.subrange(0, p.len() as int) == p
    &&& s[p.len() as int] == '"'
}

proof fn lemma_run_prefix(s: Seq<char>, p: Seq<char>, j: int, k: CharClass)
    requires
        quote_after(s, p),
        0 <= j <= p.len(),
        !in_class('"', k),
    ensures
        run(s, j, k) == run(p, j, k),
    decreases p.len() - j,
{
    if j < p.len() {
        assert(s[j] == s.subrange(0, p.len() as int)[j]);
        lemma_run_prefix(s, p, j + 1, k);
    }
}

/// Before a quote, a step on a text that goes on is the step on the text alone, unless it
/// reads a quote or a slash.
proof fn lemma_step_prefix(s: Seq<char>, p: Seq<char>, i: int, line: nat)
    requires
        quote_after(s, p),
        0 <= i < p.len(),
        p[i] != '"',
        p[i] != '/',
    ensures
        scan_step(s, i, line) == scan_step(p, i, line),
{
    let n = p.len() as int;
    assert forall|m: int| 0 <= m < n implies #[trigger] s[m] == p[m] by {
        assert(s.subrange(0, n)[m] == s[m]);
    }
    assert forall|a: int, b: int| 0 <= a <= b <= n implies #[trigger] s.subrange(a, b)
        == p.subrange(a, b) by {
        assert(s.subrange(a, b) =~= p.subrange(a, b));
    }
    lemma_run_prefix(s, p, i + 1, CharClass::Digit);
    lemma_run_prefix(s, p, i + 1, CharClass::Alphanumeric);
    lemma_run_bound(p, i + 1, CharClass::Digit);
    lemma_run_bound(p, i + 1, CharClass::Alphanumeric);
    let e = i + 1 + run(p, i + 1, CharClass::Digit);
    if e + 2 <= n {
        lemma_run_prefix(s, p, e + 2, CharClass::Digit);
        lemma_run_bound(p, e + 2, CharClass::Digit);
    }
}

/// Scanning a text that goes on past `p` reports, up to the end of `p`, what scanning `p`
/// alone reports, and goes on from the end of `p` on the line where `p` ends; provided that
/// `p` holds no quote and no slash.
proof fn lemma_scan_prefix(s: Seq<char>, p: Seq<char>, i: int, line: nat)
    requires
        quote_after(s, p),
        0 <= i <= p.len(),
        forall|m: int| 0 <= m < p.len() ==> #[trigger] p[m] != '"' && p[m] != '/',
    ensures
        scan_from(s, i, line).1 == scan_from(p, i, line).1 + scan_from(
            s,
            p.len() as int,
            scan_from(p, i, line).0.last().line,
        ).1,
    decreases p.len() - i,
{
    if i < p.len() {
        lemma_step_prefix(s, p, i, line);
        lemma_step_advances(p, i, line);
        let st = scan_step(p, i, line);
        lemma_scan_prefix(s, p, st.next, st.line);
        lemma_scan_from_single_eof(p, st.next, st.line);
        assert(scan_from(p, i, line).0.last() == scan_from(p, st.next, st.line).0.last());
        assert(scan_from(s, i, line).1 =~= scan_from(p, i, line).1 + scan_from(
            s,
            p.len() as int,
            scan_from(p, i, line).0.last().line,
        ).1);
    } else {
        assert(scan_from(p, i, line).1 =~= Seq::<DiagnosticView>::empty());
        assert(scan_from(s, i, line).1 =~= Seq::<DiagnosticView>::empty() + scan_from(s, i, line).1);
    }
}

/// A text made of a part that scans with no diagnostic and holds no quote and no slash,
/// then a quote that is never closed: scanning it ends with the end-of-input token and
/// reports exactly one diagnostic, for the unterminated string.
pub proof fn unterminated_string_after_prefix(p: Seq<char>, b: Seq<char>)
    requires
        forall|m: int| 0 <= m < p.len() ==> #[trigger] p[m] != '"' && p[m] != '/',
        forall|m: int| 0 <= m < b.len() ==> #[trigger] b[m] != '"',
        scan(p).1.len() == 0,
    ensures
        ({
            let s = p + seq!['"'] + b;
            let end_line = scan(p).0.last().line + count_newlines(b);
            &&& scan(s).0.last().token_type == TokenType::Eof
            &&& scan(s).1 == seq![line_diagnostic(end_line, "Error: Unterminated string"@)]
        }),
{
    let s = p + seq!['"'] + b;
    let n = p.len() as int;
    assert(s.subrange(0, n) =~= p);
    assert(s[n] == '"');
    lemma_scan_prefix(s, p, 0, 1);
    assert forall|m: int| n < m < s.len() implies #[trigger] s[m] != '"' by {
        assert(s[m] == b[m - n - 1]);
    }
    assert(s.subrange(n + 1, s.len() as int) =~= b);
    unterminated_string_scan(s, n, scan(p).0.last().line);
    scan_ends_with_single_eof(s);
    assert(scan(s).1 =~= scan(p).1 + scan_from(s, n, scan(p).0.last().line).1);
}

/// The state of a scanner, as values.
pub struct ScannerView {
    pub source: Seq<char>,
    pub tokens: Seq<TokenView>,
    pub diagnostics: Seq<DiagnosticView>,
    pub current: nat,
    pub line: nat,
}

/// Turns source text into tokens, collecting the diagnostics it finds on the way.
pub struct Scanner {
    source: String,
    chars: Vec<char>,
    tokens: Vec<Token>,
    diagnostics: Vec<Diagnostic>,
    start: usize,
    current: usize,
    line: usize,
    keywords: Keywords,
}

impl View for Scanner {
    type V = ScannerView;

    closed spec fn view(&self) -> ScannerView {
        ScannerView {
            source: self.source@,
            tokens: token_views(self.tokens@),
            diagnostics: diagnostic_views(self.diagnostics@),
            current: self.current as nat,
            line: self.line as nat,
        }
    }
}

impl Scanner {
    pub closed spec fn wf(&self) -> bool {
        &&& self.chars@ == self.source@
        &&& self.keywords.wf()
        &&& self.start <= self.current <= self.chars@.len()
        &&& self.chars@.len() < usize::MAX
        &&& self.line <= self.current + 1
    }

    closed spec fn frame(&self, prev: Scanner) -> bool {
        &&& self.source == prev.source
        &&& self.chars == prev.chars
        &&& self.keywords == prev.keywords
        &&& self.start == prev.start
    }

    /// The scanner went from `prev` through the step `st`.
    closed spec fn stepped(&self, prev: Scanner, st: ScanStep) -> bool {
        &&& self.frame(prev)
        &&& self.current == st.next
        &&& self.line == st.line
        &&& token_views(self.tokens@) == token_views(prev.tokens@) + opt_seq(st.token)
        &&& diagnostic_views(self.diagnostics@) == diagnostic_views(prev.diagnostics@) + opt_seq(
            st.diagnostic,
        )
    }

    /// A scanner at the start of `source`, on line 1.
    pub fn new(source: &str) -> (r: Self)
        requires
            source@.len() < usize::MAX,
        ensures
            r.wf(),
            r@ == (ScannerView {
                source: source@,
                tokens: Seq::empty(),
                diagnostics: Seq::empty(),
                current: 0,
                line: 1,
            }),
    {
        let n = source.unicode_len();
        let mut chars: Vec<char> = Vec::new();
        let mut i: usize = 0;
        while i < n
            invariant
                n == source@.len(),
                i <= n,
                chars@ == source@.subrange(0, i as int),
            decreases n - i,
        {
            chars.push(source.get_char(i));
            i = i + 1;
            assert(chars@ =~= source@.subrange(0, i as int));
        }
        assert(chars@ =~= source@);
        let r = Self {
            source: source.to_owned(),
            chars,
            tokens: Vec::new(),
            diagnostics: Vec::new(),
            start: 0,
            current: 0,
            line: 1,
            keywords: Keywords::new(),
        };
        assert(token_views(r.tokens@) =~= Seq::empty());
        assert(diagnostic_views(r.diagnostics@) =~= Seq::empty());
        r
    }

    /// The diagnostics collected so far.
    pub fn diagnostics(&self) -> (r: &Vec<Diagnostic>)
        ensures
            diagnostic_views(r@) == self@.diagnostics,
    {
        &self.diagnostics
    }

    fn is_at_end(&self) -> (r: bool)
        ensures
            r == (self.current >= self.chars@.len()),
    {
        self.current >= self.chars.len()
    }

    /// The character at the cursor, or `'\0'` at the end.
    fn peek(&self) -> (r: char)
        ensures
            r == if self.current < self.chars@.len() {
                self.chars@[self.current as int]
            } else {
                '\0'
            },
    {
        if self.current >= self.chars.len() {
            '\0'
        } else {
            self.chars[self.current]
        }
    }

    /// The character after the cursor, or `'\0'` past the end.
    fn peek_next(&self) -> (r: char)
        requires
            self.current < usize::MAX,
        ensures
            r == if self.current + 1 < self.chars@.len() {
                self.chars@[self.current + 1]
            } else {
                '\0'
            },
    {
        if self.current + 1 >= self.chars.len() {
            '\0'
        } else {
            self.chars[self.current + 1]
        }
    }

    /// Consumes the character at the cursor if it is `expected`.
    fn check_next(&mut self, expected: char) -> (r: bool)
        requires
            old(self).wf(),
        ensures
            final(self).wf(),
            final(self).frame(*old(self)),
            final(self).tokens == old(self).tokens,
            final(self).diagnostics == old(self).diagnostics,
            final(self).line == old(self).line,
            r == (old(self).current < old(self).chars@.len() && old(self).chars@[old(
                self,
            ).current as int] == expected),
            final(self).current == if r {
                old(self).current + 1
            } else {
                old(self).current as int
            },
    {
        if self.current >= self.chars.len() {
            return false;
        }
        if self.chars[self.current] != expected {
            return false;
        }
        self.current = self.current + 1;
        true
    }

    fn advance(&mut self) -> (r: char)
        requires
            old(self).wf(),
            old(self).current < old(self).chars@.len(),
        ensures
            final(self).wf(),
            final(self).frame(*old(self)),
            final(self).tokens == old(self).tokens,
            final(self).diagnostics == old(self).diagnostics,
            final(self).line == old(self).line,
            final(self).current == old(self).current + 1,
            r == old(self).chars@[old(self).current as int],
    {
        let c = self.chars[self.current];
        self.current = self.current + 1;
        c
    }

    fn add_token(&mut self, token_type: TokenType)
        requires
            old(self).wf(),
        ensures
            final(self).wf(),
            final(self).frame(*old(self)),
            final(self).current == old(self).current,
            final(self).line == old(self).line,
            final(self).diagnostics == old(self).diagnostics,
            token_views(final(self).tokens@) == token_views(old(self).tokens@).push(
                TokenView {
                    token_type,
                    lexeme: old(self).chars@.subrange(old(self).start as int, old(self).current as int),
                    literal: None,
                    line: old(self).line as nat,
                },
            ),
    {
        self.add_token_literal(token_type, None);
    }

    fn add_token_literal(&mut self, token_type: TokenType, literal: Option<String>)
        requires
            old(self).wf(),
        ensures
            final(self).wf(),
            final(self).frame(*old(self)),
            final(self).current == old(self).current,
            final(self).line == old(self).line,
            final(self).diagnostics == old(self).diagnostics,
            token_views(final(self).tokens@) == token_views(old(self).tokens@).push(
                TokenView {
                    token_type,
                    lexeme: old(self).chars@.subrange(old(self).start as int, old(self).current as int),
                    literal: crate::tokens::opt_string_view(literal),
                    line: old(self).line as nat,
                },
            ),
    {
        let text = self.source.as_str().substring_char(self.start, self.current).to_owned();
        let ghost before = self.tokens@;
        self.tokens.push(Token::new(token_type, text, literal, self.line));
        assert(token_views(self.tokens@) =~= token_views(before).push(self.tokens@.last()@));
    }

    fn substring(&self, from: usize, to: usize) -> (r: String)
        requires
            self.wf(),
            from <= to <= self.chars@.len(),
        ensures
            r@ == self.chars@.subrange(from as int, to as int),
    {
        self.source.as_str().substring_char(from, to).to_owned()
    }

    /// The canonical spelling of the number with integer digits `chars[int_start..int_end]`
    /// and fractional digits `chars[frac_start..frac_end]`.
    fn canonical_text(&self, int_start: usize, int_end: usize, frac_start: usize, frac_end: usize) -> (r:
        String)
        requires
            self.wf(),
            int_start < int_end <= self.chars@.len(),
            frac_start <= frac_end <= self.chars@.len(),
        ensures
            r@ == canonical_number(
                self.chars@.subrange(int_start as int, int_end as int),
                self.chars@.subrange(frac_start as int, frac_end as int),
            ),
    {
        let ghost s = self.chars@;
        let mut a = int_start;
        while a + 1 < int_end && self.chars[a] == '0'
            invariant
                self.wf(),
                s == self.chars@,
                int_start <= a < int_end <= s.len(),
                strip_leading_zeros(s.subrange(int_start as int, int_end as int))
                    == strip_leading_zeros(s.subrange(a as int, int_end as int)),
            decreases int_end - a,
        {
            assert(s.subrange(a as int, int_end as int).drop_first() =~= s.subrange(
                a + 1,
                int_end as int,
            ));
            a = a + 1;
        }
        let mut b = frac_end;
        while b > frac_start && self.chars[b - 1] == '0'
            invariant
                self.wf(),
                s == self.chars@,
                frac_start <= b <= frac_end <= s.len(),
                strip_trailing_zeros(s.subrange(frac_start as int, frac_end as int))
                    == strip_trailing_zeros(s.subrange(frac_start as int, b as int)),
            decreases b,
        {
            assert(s.subrange(frac_start as int, b as int).drop_last() =~= s.subrange(
                frac_start as int,
                b - 1,
            ));
            b = b - 1;
        }
        let mut out = self.substring(a, int_end);
        if b > frac_start {
            out.append(".");
            let frac = self.substring(frac_start, b);
            out.append(frac.as_str());
            proof {
                reveal_strlit(".");
            }
            assert(out@ =~= s.subrange(a as int, int_end as int) + seq!['.'] + s.subrange(
                frac_start as int,
                b as int,
            ));
        }
        out
    }

    fn number(&mut self)
        requires
            old(self).wf(),
            old(self).start < old(self).chars@.len(),
            old(self).current == old(self).start + 1,
            old(self).line <= old(self).start + 1,
            digit_char(old(self).chars@[old(self).start as int]),
        ensures
            final(self).wf(),
            final(self).stepped(
                *old(self),
                number_step(old(self).chars@, old(self).start as int, old(self).line as nat),
            ),
    {
        let ghost s = self.chars@;
        let ghost i = self.start as int;
        let ghost prev = *self;
        proof {
            lemma_run_bound(s, i + 1, CharClass::Digit);
        }
        while is_digit(self.peek())
            invariant
                self.wf(),
                self.frame(prev),
                s == self.chars@,
                i == self.start,
                self.tokens == prev.tokens,
                self.diagnostics == prev.diagnostics,
                self.line == prev.line,
                i + 1 <= self.current,
                run(s, i + 1, CharClass::Digit) == (self.current - i - 1) + run(
                    s,
                    self.current as int,
                    CharClass::Digit,
                ),
            decreases s.len() - self.current,
        {
            self.advance();
        }
        let int_end = self.current;
        assert(int_end == i + 1 + run(s, i + 1, CharClass::Digit));
        if self.peek() == '.' && is_digit(self.peek_next()) {
            self.advance();
            proof {
                lemma_run_bound(s, int_end + 1, CharClass::Digit);
            }
            while is_digit(self.peek())
                invariant
                    self.wf(),
                    self.frame(prev),
                    s == self.chars@,
                    i == self.start,
                    self.tokens == prev.tokens,
                    self.diagnostics == prev.diagnostics,
                    self.line == prev.line,
                    int_end + 1 <= self.current,
                    run(s, int_end + 1, CharClass::Digit) == (self.current - int_end - 1) + run(
                        s,
                        self.current as int,
                        CharClass::Digit,
                    ),
                decreases s.len() - self.current,
            {
                self.advance();
            }
            assert(run(s, int_end + 1, CharClass::Digit) == 1 + run(s, int_end + 2, CharClass::Digit));
        }
        let end = self.current;
        let frac_start = if end > int_end {
            int_end + 1
        } else {
            int_end
        };
        let value = self.canonical_text(self.start, int_end, frac_start, end);
        proof {
            let lexeme = s.subrange(i, end as int);
            lemma_run_subrange(s, i, end as int, i, CharClass::Digit);
            assert(run(lexeme, 0, CharClass::Digit) == int_end - i);
            assert(lexeme.subrange(0, int_end - i) =~= s.subrange(i, int_end as int));
            if end > int_end {
                assert(lexeme.subrange(int_end - i + 1, lexeme.len() as int) =~= s.subrange(
                    frac_start as int,
                    end as int,
                ));
            } else {
                assert(s.subrange(frac_start as int, end as int) =~= Seq::<char>::empty());
            }
            assert(value@ == number_value(lexeme));
        }
        self.add_token_literal(TokenType::Number, Some(value));
        assert(end == number_step(s, i, prev.line as nat).next);
        assert(token_views(self.tokens@) =~= token_views(prev.tokens@) + opt_seq(
            number_step(s, i, prev.line as nat).token,
        ));
        assert(diagnostic_views(self.diagnostics@) =~= diagnostic_views(prev.diagnostics@) + opt_seq(
            number_step(s, i, prev.line as nat).diagnostic,
        ));
    }


    fn identifier(&mut self)
        requires
            old(self).wf(),
            old(self).start < old(self).chars@.len(),
            old(self).current == old(self).start + 1,
            old(self).line <= old(self).start + 1,
            alpha_char(old(self).chars@[old(self).start as int]),
        ensures
            final(self).wf(),
            final(self).stepped(
                *old(self),
                identifier_step(old(self).chars@, old(self).start as int, old(self).line as nat),
            ),
    {
        let ghost s = self.chars@;
        let ghost i = self.start as int;
        let ghost prev = *self;
        proof {
            lemma_run_bound(s, i + 1, CharClass::Alphanumeric);
        }
        while is_alphanumeric(self.peek())
            invariant
                self.wf(),
                self.frame(prev),
                s == self.chars@,
                i == self.start,
                self.tokens == prev.tokens,
                self.diagnostics == prev.diagnostics,
                self.line == prev.line,
                i + 1 <= self.current,
                run(s, i + 1, CharClass::Alphanumeric) == (self.current - i - 1) + run(
                    s,
                    self.current as int,
                    CharClass::Alphanumeric,
                ),
            decreases s.len() - self.current,
        {
            self.advance();
        }
        let text = self.substring(self.start, self.current);
        let token_type = self.keywords.get(&text);
        self.add_token(token_type);
        assert(token_views(self.tokens@) =~= token_views(prev.tokens@) + opt_seq(
            identifier_step(s, i, prev.line as nat).token,
        ));
        assert(diagnostic_views(self.diagnostics@) =~= diagnostic_views(prev.diagnostics@) + opt_seq(
            identifier_step(s, i, prev.line as nat).diagnostic,
        ));
    }

    fn string(&mut self)
        requires
            old(self).wf(),
            old(self).start < old(self).chars@.len(),
            old(self).current == old(self).start + 1,
            old(self).line <= old(self).start + 1,
            old(self).chars@[old(self).start as int] == '"',
        ensures
            final(self).wf(),
            final(self).stepped(
                *old(self),
                string_step(old(self).chars@, old(self).start as int, old(self).line as nat),
            ),
    {
        let ghost s = self.chars@;
        let ghost i = self.start as int;
        let ghost prev = *self;
        proof {
            lemma_run_bound(s, i + 1, CharClass::Except('"'));
            assert(s.subrange(i + 1, i + 1) =~= Seq::<char>::empty());
        }
        let mut newlines: usize = 0;
        while !self.is_at_end() && self.peek() != '"'
            invariant
                self.wf(),
                self.frame(prev),
                s == self.chars@,
                i == self.start,
                self.tokens == prev.tokens,
                self.diagnostics == prev.diagnostics,
                self.line == prev.line,
                i + 1 <= self.current,
                run(s, i + 1, CharClass::Except('"')) == (self.current - i - 1) + run(
                    s,
                    self.current as int,
                    CharClass::Except('"'),
                ),
                newlines == count_newlines(s.subrange(i + 1, self.current as int)),
                newlines <= self.current - i - 1,
            decreases s.len() - self.current,
        {
            proof {
                lemma_newlines_step(s, i + 1, self.current as int);
            }
            if self.peek() == '\n' {
                newlines = newlines + 1;
            }
            self.advance();
        }
        let line = self.line;
        if self.is_at_end() {
            let value = self.substring(self.start + 1, self.current);
            self.add_token_literal(TokenType::String, Some(value));
            self.line = line + newlines;
            let ghost before = self.diagnostics@;
            self.diagnostics.push(error(self.line, "Error: Unterminated string"));
            assert(diagnostic_views(self.diagnostics@) =~= diagnostic_views(before).push(
                self.diagnostics@.last()@,
            ));
        } else {
            self.advance();
            let value = self.substring(self.start + 1, self.current - 1);
            self.add_token_literal(TokenType::String, Some(value));
            self.line = line + newlines;
        }
        assert(token_views(self.tokens@) =~= token_views(prev.tokens@) + opt_seq(
            string_step(s, i, prev.line as nat).token,
        ));
        assert(diagnostic_views(self.diagnostics@) =~= diagnostic_views(prev.diagnostics@) + opt_seq(
            string_step(s, i, prev.line as nat).diagnostic,
        ));
    }

    fn slash(&mut self)
        requires
            old(self).wf(),
            old(self).start < old(self).chars@.len(),
            old(self).current == old(self).start + 1,
            old(self).line <= old(self).start + 1,
            old(self).chars@[old(self).start as int] == '/',
        ensures
            final(self).wf(),
            final(self).stepped(
                *old(self),
                slash_step(old(self).chars@, old(self).start as int, old(self).line as nat),
            ),
    {
        let ghost s = self.chars@;
        let ghost i = self.start as int;
        let ghost prev = *self;
        if self.check_next('/') {
            proof {
                lemma_run_bound(s, i + 2, CharClass::Except('\n'));
            }
            while self.peek() != '\n' && !self.is_at_end()
                invariant
                    self.wf(),
                    self.frame(prev),
                    s == self.chars@,
                    i == self.start,
                    self.tokens == prev.tokens,
                    self.diagnostics == prev.diagnostics,
                    self.line == prev.line,
                    i + 2 <= self.current,
                    run(s, i + 2, CharClass::Except('\n')) == (self.current - i - 2) + run(
                        s,
                        self.current as int,
                        CharClass::Except('\n'),
                    ),
                decreases s.len() - self.current,
            {
                self.advance();
            }
            assert(token_views(self.tokens@) =~= token_views(prev.tokens@) + opt_seq(
                slash_step(s, i, prev.line as nat).token,
            ));
            assert(diagnostic_views(self.diagnostics@) =~= diagnostic_views(prev.diagnostics@)
                + opt_seq(slash_step(s, i, prev.line as nat).diagnostic));
        } else if self.check_next('*') {
            proof {
                lemma_comment_len_bound(s, i + 2);
                assert(s.subrange(i + 2, i + 2) =~= Seq::<char>::empty());
            }
            let mut newlines: usize = 0;
            while !self.is_at_end() && !(self.peek() == '*' && self.peek_next() == '/')
                invariant
                    self.wf(),
                    self.frame(prev),
                    s == self.chars@,
                    i == self.start,
                    self.tokens == prev.tokens,
                    self.diagnostics == prev.diagnostics,
                    self.line == prev.line,
                    i + 2 <= self.current,
                    comment_len(s, i + 2) == (self.current - i - 2) + comment_len(
                        s,
                        self.current as int,
                    ),
                    newlines == count_newlines(s.subrange(i + 2, self.current as int)),
                    newlines <= self.current - i - 2,
                decreases s.len() - self.current,
            {
                proof {
                    lemma_newlines_step(s, i + 2, self.current as int);
                }
                if self.peek() == '\n' {
                    newlines = newlines + 1;
                }
                self.advance();
            }
            self.line = self.line + newlines;
            if self.is_at_end() {
                let ghost before = self.diagnostics@;
                self.diagnostics.push(error(self.line, "Error: Unterminated block comment"));
                assert(diagnostic_views(self.diagnostics@) =~= diagnostic_views(before).push(
                    self.diagnostics@.last()@,
                ));
            } else {
                self.advance();
                self.advance();
            }
            assert(token_views(self.tokens@) =~= token_views(prev.tokens@) + opt_seq(
                slash_step(s, i, prev.line as nat).token,
            ));
            assert(diagnostic_views(self.diagnostics@) =~= diagnostic_views(prev.diagnostics@)
                + opt_seq(slash_step(s, i, prev.line as nat).diagnostic));
        } else {
            self.add_token(TokenType::Slash);
            assert(token_views(self.tokens@) =~= token_views(prev.tokens@) + opt_seq(
                slash_step(s, i, prev.line as nat).token,
            ));
            assert(diagnostic_views(self.diagnostics@) =~= diagnostic_views(prev.diagnostics@)
                + opt_seq(slash_step(s, i, prev.line as nat).diagnostic));
        }
    }


    fn scan_token(&mut self)
        requires
            old(self).wf(),
            old(self).current < old(self).chars@.len(),
            old(self).start == old(self).current,
            old(self).line <= old(self).start + 1,
        ensures
            final(self).wf(),
            final(self).stepped(
                *old(self),
                scan_step(old(self).chars@, old(self).start as int, old(self).line as nat),
            ),
    {
        let ghost s = self.chars@;
        let ghost i = self.start as int;
        let ghost prev = *self;
        let c = self.advance();
        if is_digit(c) {
            self.number();
            return ;
        }
        if is_alpha(c) {
            self.identifier();
            return ;
        }
        match c {
            '(' => self.add_token(TokenType::LeftParen),
            ')' => self.add_token(TokenType::RightParen),
            '{' => self.add_token(TokenType::LeftBrace),
            '}' => self.add_token(TokenType::RightBrace),
            ',' => self.add_token(TokenType::Comma),
            '.' => self.add_token(TokenType::Dot),
            '-' => self.add_token(TokenType::Minus),
            '+' => self.add_token(TokenType::Plus),
            ';' => self.add_token(TokenType::Semicolon),
            '*' => self.add_token(TokenType::Star),
            '!' => {
                if self.check_next('=') {
                    self.add_token(TokenType::BangEqual);
                } else {
                    self.add_token(TokenType::Bang);
                }
            },
            '=' => {
                if self.check_next('=') {
                    self.add_token(TokenType::EqualEqual);
                } else {
                    self.add_token(TokenType::Equal);
                }
            },
            '<' => {
                if self.check_next('=') {
                    self.add_token(TokenType::LessEqual);
                } else {
                    self.add_token(TokenType::Less);
                }
            },
            '>' => {
                if self.check_next('=') {
                    self.add_token(TokenType::GreaterEqual);
                } else {
                    self.add_token(TokenType::Greater);
                }
            },
            '/' => self.slash(),
            ' ' | '\r' | '\t' => {},
            '\n' => self.line = self.line + 1,
            '"' => self.string(),
            _ => {
                let ghost before = self.diagnostics@;
                self.diagnostics.push(error(self.line, "Unexpected character."));
                assert(diagnostic_views(self.diagnostics@) =~= diagnostic_views(before).push(
                    self.diagnostics@.last()@,
                ));
            },
        }
        assert(token_views(self.tokens@) =~= token_views(prev.tokens@) + opt_seq(
            scan_step(s, i, prev.line as nat).token,
        ));
        assert(diagnostic_views(self.diagnostics@) =~= diagnostic_views(prev.diagnostics@) + opt_seq(
            scan_step(s, i, prev.line as nat).diagnostic,
        ));
    }

    /// Scans the rest of the source and returns every token so far, the last one the end of
    /// input.
    pub fn scan_tokens(&mut self) -> (r: Vec<Token>)
        requires
            old(self).wf(),
        ensures
            final(self).wf(),
            final(self)@.source == old(self)@.source,
            final(self)@.current == old(self)@.source.len(),
            final(self)@.tokens == old(self)@.tokens + scan_from(
                old(self)@.source,
                old(self)@.current as int,
                old(self)@.line,
            ).0,
            final(self)@.diagnostics == old(self)@.diagnostics + scan_from(
                old(self)@.source,
                old(self)@.current as int,
                old(self)@.line,
            ).1,
            token_views(r@) == final(self)@.tokens,
    {
        let ghost s = self.chars@;
        let ghost prev = *self;
        while !self.is_at_end()
            invariant
                self.wf(),
                self.source == prev.source,
                self.chars == prev.chars,
                s == self.chars@,
                token_views(self.tokens@) + scan_from(s, self.current as int, self.line as nat).0
                    == token_views(prev.tokens@) + scan_from(
                    s,
                    prev.current as int,
                    prev.line as nat,
                ).0,
                diagnostic_views(self.diagnostics@) + scan_from(
                    s,
                    self.current as int,
                    self.line as nat,
                ).1 == diagnostic_views(prev.diagnostics@) + scan_from(
                    s,
                    prev.current as int,
                    prev.line as nat,
                ).1,
            decreases s.len() - self.current,
        {
            let ghost before = *self;
            self.start = self.current;
            self.scan_token();
            proof {
                let st = scan_step(s, before.current as int, before.line as nat);
                let rest = scan_from(s, st.next, st.line);
                assert(token_views(self.tokens@) + rest.0 =~= token_views(before.tokens@) + (
                opt_seq(st.token) + rest.0));
                assert(diagnostic_views(self.diagnostics@) + rest.1 =~= diagnostic_views(
                    before.diagnostics@,
                ) + (opt_seq(st.diagnostic) + rest.1));
            }
        }
        let ghost before = self.tokens@;
        self.tokens.push(Token::new(TokenType::Eof, String::new(), None, self.line));
        assert(token_views(self.tokens@) =~= token_views(before) + seq![eof_token(self.line as nat)]);
        let r = self.tokens.clone();
        assert(r@ =~= self.tokens@);
        r
    }

}

} // verus!
