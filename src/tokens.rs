use vstd::prelude::*;

verus! {

/// The lexical categories of the language.
#[derive(Debug, Clone, Copy, PartialEq, Eq, Structural)]
pub enum TokenType {
    // Single-character tokens.
    LeftParen,
    RightParen,
    LeftBrace,
    RightBrace,
    Comma,
    Dot,
    Minus,
    Plus,
    Semicolon,
    Slash,
    Star,
    // One or two character tokens.
    Bang,
    BangEqual,
    Equal,
    EqualEqual,
    Greater,
    GreaterEqual,
    Less,
    LessEqual,
    // Literals.
    Identifier,
    String,
    Number,
    // Keywords.
    And,
    Class,
    Else,
    False,
    Fun,
    For,
    If,
    Nil,
    Or,
    Print,
    Return,
    Super,
    This,
    True,
    Var,
    While,
    Eof,
}

/// The name of a category, as it is spelled in the enumeration.
pub open spec fn category_name(t: TokenType) -> Seq<char> {
    match t {
        TokenType::LeftParen => "LeftParen"@,
        TokenType::RightParen => "RightParen"@,
        TokenType::LeftBrace => "LeftBrace"@,
        TokenType::RightBrace => "RightBrace"@,
        TokenType::Comma => "Comma"@,
        TokenType::Dot => "Dot"@,
        TokenType::Minus => "Minus"@,
        TokenType::Plus => "Plus"@,
        TokenType::Semicolon => "Semicolon"@,
        TokenType::Slash => "Slash"@,
        TokenType::Star => "Star"@,
        TokenType::Bang => "Bang"@,
        TokenType::BangEqual => "BangEqual"@,
        TokenType::Equal => "Equal"@,
        TokenType::EqualEqual => "EqualEqual"@,
        TokenType::Greater => "Greater"@,
        TokenType::GreaterEqual => "GreaterEqual"@,
        TokenType::Less => "Less"@,
        TokenType::LessEqual => "LessEqual"@,
        TokenType::Identifier => "Identifier"@,
        TokenType::String => "String"@,
        TokenType::Number => "Number"@,
        TokenType::And => "And"@,
        TokenType::Class => "Class"@,
        TokenType::Else => "Else"@,
        TokenType::False => "False"@,
        TokenType::Fun => "Fun"@,
        TokenType::For => "For"@,
        TokenType::If => "If"@,
        TokenType::Nil => "Nil"@,
        TokenType::Or => "Or"@,
        TokenType::Print => "Print"@,
        TokenType::Return => "Return"@,
        TokenType::Super => "Super"@,
        TokenType::This => "This"@,
        TokenType::True => "True"@,
        TokenType::Var => "Var"@,
        TokenType::While => "While"@,
        TokenType::Eof => "Eof"@,
    }
}

impl TokenType {
    /// The category's name.
    pub fn name(&self) -> (r: &'static str)
        ensures
            r@ == category_name(*self),
    {
        match self {
            TokenType::LeftParen => "LeftParen",
            TokenType::RightParen => "RightParen",
            TokenType::LeftBrace => "LeftBrace",
            TokenType::RightBrace => "RightBrace",
            TokenType::Comma => "Comma",
            TokenType::Dot => "Dot",
            TokenType::Minus => "Minus",
            TokenType::Plus => "Plus",
            TokenType::Semicolon => "Semicolon",
            TokenType::Slash => "Slash",
            TokenType::Star => "Star",
            TokenType::Bang => "Bang",
            TokenType::BangEqual => "BangEqual",
            TokenType::Equal => "Equal",
            TokenType::EqualEqual => "EqualEqual",
            TokenType::Greater => "Greater",
            TokenType::GreaterEqual => "GreaterEqual",
            TokenType::Less => "Less",
            TokenType::LessEqual => "LessEqual",
            TokenType::Identifier => "Identifier",
            TokenType::String => "String",
            TokenType::Number => "Number",
            TokenType::And => "And",
            TokenType::Class => "Class",
            TokenType::Else => "Else",
            TokenType::False => "False",
            TokenType::Fun => "Fun",
            TokenType::For => "For",
            TokenType::If => "If",
            TokenType::Nil => "Nil",
            TokenType::Or => "Or",
            TokenType::Print => "Print",
            TokenType::Return => "Return",
            TokenType::Super => "Super",
            TokenType::This => "This",
            TokenType::True => "True",
            TokenType::Var => "Var",
            TokenType::While => "While",
            TokenType::Eof => "Eof",
        }
    }
}

/// The mathematical content of a token.
pub struct TokenView {
    pub token_type: TokenType,
    pub lexeme: Seq<char>,
    pub literal: Option<Seq<char>>,
    pub line: nat,
}

/// A classified, line-tagged unit of source text.
#[derive(Debug, PartialEq)]
pub struct Token {
    pub token_type: TokenType,
    pub lexeme: String,
    pub literal: Option<String>,
    pub line: usize,
}

pub open spec fn opt_string_view(o: Option<String>) -> Option<Seq<char>> {
    match o {
        Some(s) => Some(s@),
        None => None,
    }
}

impl View for Token {
    type V = TokenView;

    open spec fn view(&self) -> TokenView {
        TokenView {
            token_type: self.token_type,
            lexeme: self.lexeme@,
            literal: opt_string_view(self.literal),
            line: self.line as nat,
        }
    }
}

/// The views of a sequence of tokens.
pub open spec fn token_views(ts: Seq<Token>) -> Seq<TokenView> {
    ts.map_values(|t: Token| t@)
}

/// What `Token::into_string` gives: the category's name, a space, the lexeme.
pub open spec fn token_text(t: TokenView) -> Seq<char> {
    category_name(t.token_type) + " "@ + t.lexeme
}

impl Token {
    pub fn new(token_type: TokenType, lexeme: String, literal: Option<String>, line: usize) -> (r:
        Self)
        ensures
            r.token_type == token_type,
            r.lexeme == lexeme,
            r.literal == literal,
            r.line == line,
    {
        Self { token_type, lexeme, literal, line }
    }

    pub fn into_string(self) -> (r: String)
        ensures
            r@ == token_text(self@),
    {
        let mut text = self.token_type.name().to_owned();
        text.append(" ");
        text.append(self.lexeme.as_str());
        text
    }
}

impl From<TokenType> for Token {
    /// A token of the given category with an empty lexeme, no literal, on line 0.
    fn from(token_type: TokenType) -> (r: Self)
        ensures
            r@ == (TokenView { token_type, lexeme: Seq::empty(), literal: None, line: 0 }),
    {
        Self { token_type, lexeme: String::new(), literal: None, line: 0 }
    }
}

impl vstd::std_specs::convert::FromSpecImpl<TokenType> for Token {
    open spec fn obeys_from_spec() -> bool {
        false
    }

    open spec fn from_spec(token_type: TokenType) -> Token {
        arbitrary()
    }
}

impl Clone for Token {
    fn clone(&self) -> (r: Self)
        ensures
            r == *self,
    {
        let literal = match &self.literal {
            Some(s) => Some(s.clone()),
            None => None,
        };
        Token {
            token_type: self.token_type,
            lexeme: self.lexeme.clone(),
            literal,
            line: self.line,
        }
    }
}

/// A token of a category that `primary` takes as a literal.
pub open spec fn literal_type(k: TokenType) -> bool {
    k == TokenType::Number || k == TokenType::String || k == TokenType::True || k
        == TokenType::False || k == TokenType::Nil
}

/// The reserved words and the category of each.
pub open spec fn keyword_table() -> Seq<(Seq<char>, TokenType)> {
    seq![
        ("and"@, TokenType::And),
        ("class"@, TokenType::Class),
        ("else"@, TokenType::Else),
        ("false"@, TokenType::False),
        ("for"@, TokenType::For),
        ("fun"@, TokenType::Fun),
        ("if"@, TokenType::If),
        ("nil"@, TokenType::Nil),
        ("or"@, TokenType::Or),
        ("print"@, TokenType::Print),
        ("return"@, TokenType::Return),
        ("super"@, TokenType::Super),
        ("this"@, TokenType::This),
        ("true"@, TokenType::True),
        ("var"@, TokenType::Var),
        ("while"@, TokenType::While),
    ]
}

/// The category of the first entry of `table` spelled `s`; `Identifier` if there is none.
pub open spec fn lookup_keyword(table: Seq<(Seq<char>, TokenType)>, s: Seq<char>) -> TokenType
    decreases table.len(),
{
    if table.len() == 0 {
        TokenType::Identifier
    } else if table[0].0 == s {
        table[0].1
    } else {
        lookup_keyword(table.drop_first(), s)
    }
}

/// The category of a word: its reserved category, or `Identifier`.
pub open spec fn keyword_type(s: Seq<char>) -> TokenType {
    lookup_keyword(keyword_table(), s)
}

/// The fixed table of reserved words.
pub struct Keywords {
    keywords: Vec<(String, TokenType)>,
}

impl Keywords {
    /// The table's entries as spellings and categories.
    pub closed spec fn entries(&self) -> Seq<(Seq<char>, TokenType)> {
        self.keywords@.map_values(|e: (String, TokenType)| (e.0@, e.1))
    }

    pub open spec fn wf(&self) -> bool {
        self.entries() == keyword_table()
    }

    pub fn new() -> (r: Self)
        ensures
            r.wf(),
    {
        let mut keywords: Vec<(String, TokenType)> = Vec::new();
        keywords.push(("and".to_owned(), TokenType::And));
        keywords.push(("class".to_owned(), TokenType::Class));
        keywords.push(("else".to_owned(), TokenType::Else));
        keywords.push(("false".to_owned(), TokenType::False));
        keywords.push(("for".to_owned(), TokenType::For));
        keywords.push(("fun".to_owned(), TokenType::Fun));
        keywords.push(("if".to_owned(), TokenType::If));
        keywords.push(("nil".to_owned(), TokenType::Nil));
        keywords.push(("or".to_owned(), TokenType::Or));
        keywords.push(("print".to_owned(), TokenType::Print));
        keywords.push(("return".to_owned(), TokenType::Return));
        keywords.push(("super".to_owned(), TokenType::Super));
        keywords.push(("this".to_owned(), TokenType::This));
        keywords.push(("true".to_owned(), TokenType::True));
        keywords.push(("var".to_owned(), TokenType::Var));
        keywords.push(("while".to_owned(), TokenType::While));
        let r = Self { keywords };
        assert(r.entries() =~= keyword_table());
        r
    }

    pub fn get(&self, key: &String) -> (r: TokenType)
        requires
            self.wf(),
        ensures
            r == keyword_type(key@),
    {
        let mut i: usize = 0;
        assert(keyword_table().subrange(0, keyword_table().len() as int) =~= keyword_table());
        while i < self.keywords.len()
            invariant
                self.wf(),
                i <= self.keywords@.len(),
                lookup_keyword(keyword_table(), key@) == lookup_keyword(
                    keyword_table().subrange(i as int, keyword_table().len() as int),
                    key@,
                ),
            decreases self.keywords@.len() - i,
        {
            proof {
                assert(self.entries()[i as int] == (self.keywords@[i as int].0@, self.keywords@[i as int].1));
                assert(keyword_table().subrange(i as int, keyword_table().len() as int).drop_first()
                    =~= keyword_table().subrange(i as int + 1, keyword_table().len() as int));
            }
            if self.keywords[i].0 == *key {
                return self.keywords[i].1;
            }
            i = i + 1;
        }
        proof {
            assert(keyword_table().subrange(i as int, keyword_table().len() as int).len() == 0);
        }
        TokenType::Identifier
    }
}

/// A spelling's category is found in the table, or it is `Identifier`.
pub proof fn lemma_lookup_found(table: Seq<(Seq<char>, TokenType)>, s: Seq<char>)
    ensures
        lookup_keyword(table, s) == TokenType::Identifier || exists|k: int|
            0 <= k < table.len() && #[trigger] table[k] == (s, lookup_keyword(table, s)),
    decreases table.len(),
{
    if table.len() > 0 && table[0].0 != s {
        lemma_lookup_found(table.drop_first(), s);
        if lookup_keyword(table, s) != TokenType::Identifier {
            let k = choose|k: int|
                0 <= k < table.drop_first().len() && #[trigger] table.drop_first()[k] == (
                    s,
                    lookup_keyword(table, s),
                );
            assert(table[k + 1] == (s, lookup_keyword(table, s)));
        }
    }
}

/// A word's category is never the end of input, and it is `Nil` only for `nil`.
pub proof fn lemma_keyword_type(s: Seq<char>)
    ensures
        keyword_type(s) != TokenType::Eof,
        keyword_type(s) == TokenType::Nil ==> s == "nil"@,
{
    lemma_lookup_found(keyword_table(), s);
}

} // verus!
