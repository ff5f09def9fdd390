use vstd::prelude::*;
use crate::number::{canonical_numeral, is_number_char, is_numeral, number_char, Numeral};
use crate::text::{
    char_is_alphabetic, char_is_whitespace, chars_of, is_alphabetic, is_whitespace, lowercase,
    lowercase_text, text_of,
};

verus! {

/// The binary operators, and the minus sign of negation.
#[derive(Debug, Copy, Clone, PartialEq, Eq, Structural)]
pub enum Operator {
    Plus,
    Minus,
    Star,
    Slash,
    Percent,
    Caret,
}

/// The two parentheses.
#[derive(Debug, Copy, Clone, PartialEq, Eq, Structural)]
pub enum Delimiters {
    LParen,
    RParen,
}

/// The named functions of one argument. `Log` is the logarithm to base 10,
/// `Ln` the natural one and `Lg` the one to base 2.
#[derive(Debug, Copy, Clone, PartialEq, Eq, Structural)]
pub enum Function {
    Sqrt,
    Sin,
    Cos,
    Tan,
    Log,
    Ln,
    Lg,
}

/// The named constants.
#[derive(Debug, Copy, Clone, PartialEq, Eq, Structural)]
pub enum Constance {
    PI,
    E,
}

/// A token that stands for a value. A constant keeps its name here; it gets
/// its value when the expression is parsed.
#[derive(Debug, PartialEq, Eq)]
pub enum Literals {
    Number(Numeral),
    Constance(Constance),
}

/// One lexical unit of an expression.
#[derive(Debug, PartialEq, Eq)]
pub enum Token {
    Literals(Literals),
    Operator(Operator),
    Function(Function),
    Delimiters(Delimiters),
}

/// Why a text is no sequence of tokens.
#[derive(Debug, PartialEq, Eq)]
pub enum TokenError {
    /// A character that starts no token.
    InvalidCharacter(char),
    /// A run of digits and points that is no numeral, as written.
    InvalidNumber(String),
    /// A word that is no keyword, as written.
    InvalidIdentifier(String),
}

/// What a `Literals` is to the specifications: a number is its numeral.
pub enum LiteralsView {
    Number(Seq<char>),
    Constance(Constance),
}

/// What a `Token` is to the specifications.
pub enum TokenView {
    Literals(LiteralsView),
    Operator(Operator),
    Function(Function),
    Delimiters(Delimiters),
}

/// What a `TokenError` is to the specifications.
pub enum TokenErrorView {
    InvalidCharacter(char),
    InvalidNumber(Seq<char>),
    InvalidIdentifier(Seq<char>),
}

impl View for Literals {
    type V = LiteralsView;

    open spec fn view(&self) -> LiteralsView {
        match self {
            Literals::Number(n) => LiteralsView::Number(n@),
            Literals::Constance(c) => LiteralsView::Constance(*c),
        }
    }
}

impl View for Token {
    type V = TokenView;

    open spec fn view(&self) -> TokenView {
        match self {
            Token::Literals(l) => TokenView::Literals(l@),
            Token::Operator(o) => TokenView::Operator(*o),
            Token::Function(f) => TokenView::Function(*f),
            Token::Delimiters(d) => TokenView::Delimiters(*d),
        }
    }
}

impl View for TokenError {
    type V = TokenErrorView;

    open spec fn view(&self) -> TokenErrorView {
        match self {
            TokenError::InvalidCharacter(c) => TokenErrorView::InvalidCharacter(*c),
            TokenError::InvalidNumber(s) => TokenErrorView::InvalidNumber(s@),
            TokenError::InvalidIdentifier(s) => TokenErrorView::InvalidIdentifier(s@),
        }
    }
}

impl Clone for Literals {
    fn clone(&self) -> (r: Self)
        ensures
            r@ == self@,
    {
        match self {
            Literals::Number(n) => Literals::Number(n.clone()),
            Literals::Constance(c) => Literals::Constance(*c),
        }
    }
}

impl Clone for Token {
    fn clone(&self) -> (r: Self)
        ensures
            r@ == self@,
    {
        match self {
            Token::Literals(l) => Token::Literals(l.clone()),
            Token::Operator(o) => Token::Operator(*o),
            Token::Function(f) => Token::Function(*f),
            Token::Delimiters(d) => Token::Delimiters(*d),
        }
    }
}

/// The views of a sequence of tokens, in order.
pub open spec fn token_views(tokens: Seq<Token>) -> Seq<TokenView> {
    tokens.map_values(|t: Token| t@)
}

/// The outcome of scanning, to the specifications.
pub type Scanned = Result<Seq<TokenView>, TokenErrorView>;

/// The token that the single character `c` is, if it is one.
pub open spec fn symbol(c: char) -> Option<TokenView> {
    if c == '+' {
        Some(TokenView::Operator(Operator::Plus))
    } else if c == '-' {
        Some(TokenView::Operator(Operator::Minus))
    } else if c == '*' {
        Some(TokenView::Operator(Operator::Star))
    } else if c == '/' {
        Some(TokenView::Operator(Operator::Slash))
    } else if c == '%' {
        Some(TokenView::Operator(Operator::Percent))
    } else if c == '^' {
        Some(TokenView::Operator(Operator::Caret))
    } else if c == '(' {
        Some(TokenView::Delimiters(Delimiters::LParen))
    } else if c == ')' {
        Some(TokenView::Delimiters(Delimiters::RParen))
    } else if c == '√' {
        Some(TokenView::Function(Function::Sqrt))
    } else if c == 'π' {
        Some(TokenView::Literals(LiteralsView::Constance(Constance::PI)))
    } else {
        None
    }
}

/// The token that the word `word` names. The table is in lower case.
pub open spec fn keyword(word: Seq<char>) -> Option<TokenView> {
    if word == seq!['e'] {
        Some(TokenView::Literals(LiteralsView::Constance(Constance::E)))
    } else if word == seq!['p', 'i'] {
        Some(TokenView::Literals(LiteralsView::Constance(Constance::PI)))
    } else if word == seq!['s', 'q', 'r', 't'] {
        Some(TokenView::Function(Function::Sqrt))
    } else if word == seq!['s', 'i', 'n'] {
        Some(TokenView::Function(Function::Sin))
    } else if word == seq!['c', 'o', 's'] {
        Some(TokenView::Function(Function::Cos))
    } else if word == seq!['t', 'a', 'n'] {
        Some(TokenView::Function(Function::Tan))
    } else if word == seq!['l', 'o', 'g'] {
        Some(TokenView::Function(Function::Log))
    } else if word == seq!['l', 'n'] {
        Some(TokenView::Function(Function::Ln))
    } else if word == seq!['l', 'g'] {
        Some(TokenView::Function(Function::Lg))
    } else {
        None
    }
}

/// What a character is to the scanner where it may start a token.
#[derive(Debug, Copy, Clone, PartialEq, Eq, Structural)]
pub enum CharClass {
    /// A token by itself.
    Symbol,
    /// A digit or the point: it starts a numeral.
    Numeric,
    /// Whitespace, which is skipped.
    Blank,
    /// A letter: it starts a word.
    Letter,
    /// Nothing that an expression may hold.
    Other,
}

/// The class of `c`, given whether it is whitespace and whether it is
/// alphabetic. The single-character tokens come first, whatever else they
/// are, then the characters of numerals.
pub open spec fn class_of(c: char, blank: bool, letter: bool) -> CharClass {
    if symbol(c) is Some {
        CharClass::Symbol
    } else if is_number_char(c) {
        CharClass::Numeric
    } else if blank {
        CharClass::Blank
    } else if letter {
        CharClass::Letter
    } else {
        CharClass::Other
    }
}

/// The class of `c`.
pub open spec fn char_class(c: char) -> CharClass {
    class_of(c, char_is_whitespace(c), char_is_alphabetic(c))
}

/// The end of the longest run of digits and points of `s` that starts at `i`.
pub open spec fn number_end(s: Seq<char>, i: int) -> int
    decreases s.len() - i,
{
    if 0 <= i < s.len() && is_number_char(s[i]) {
        number_end(s, i + 1)
    } else {
        i
    }
}

/// The end of the longest run of alphabetic characters of `s` that starts
/// at `i`.
pub open spec fn word_end(s: Seq<char>, i: int) -> int
    decreases s.len() - i,
{
    if 0 <= i < s.len() && char_is_alphabetic(s[i]) {
        word_end(s, i + 1)
    } else {
        i
    }
}

/// A run of digits and points ends at or after its start, within the text.
pub proof fn lemma_number_end(s: Seq<char>, i: int)
    requires
        0 <= i <= s.len(),
    ensures
        i <= number_end(s, i) <= s.len(),
    decreases s.len() - i,
{
    if i < s.len() && is_number_char(s[i]) {
        lemma_number_end(s, i + 1);
    }
}

/// A word ends at or after its start, within the text.
pub proof fn lemma_word_end(s: Seq<char>, i: int)
    requires
        0 <= i <= s.len(),
    ensures
        i <= word_end(s, i) <= s.len(),
    decreases s.len() - i,
{
    if i < s.len() && char_is_alphabetic(s[i]) {
        lemma_word_end(s, i + 1);
    }
}

/// `t` in front of the tokens of `rest`; the error of `rest` where it is one.
pub open spec fn followed_by(t: TokenView, rest: Scanned) -> Scanned {
    match rest {
        Ok(ts) => Ok(seq![t] + ts),
        Err(e) => Err(e),
    }
}

/// `before` in front of the tokens of `rest`; the error of `rest` where it
/// is one.
pub open spec fn preceded_by(before: Seq<TokenView>, rest: Scanned) -> Scanned {
    match rest {
        Ok(ts) => Ok(before + ts),
        Err(e) => Err(e),
    }
}

/// The tokens of `s` from position `i` on, or the first error met.
pub open spec fn scan_from(s: Seq<char>, i: int) -> Scanned
    decreases s.len() - i,
{
    if !(0 <= i < s.len()) {
        Ok(Seq::empty())
    } else {
        match char_class(s[i]) {
            CharClass::Symbol => followed_by(symbol(s[i])->0, scan_from(s, i + 1)),
            CharClass::Numeric => {
                let j = number_end(s, i + 1);
                let run = s.subrange(i, j);
                if is_numeral(run) {
                    proof {
                        lemma_number_end(s, i + 1);
                    }
                    followed_by(
                        TokenView::Literals(LiteralsView::Number(canonical_numeral(run))),
                        scan_from(s, j),
                    )
                } else {
                    Err(TokenErrorView::InvalidNumber(run))
                }
            },
            CharClass::Blank => scan_from(s, i + 1),
            CharClass::Letter => {
                let j = word_end(s, i + 1);
                let word = s.subrange(i, j);
                match keyword(lowercase_text(word)) {
                    Some(t) => {
                        proof {
                            lemma_word_end(s, i + 1);
                        }
                        followed_by(t, scan_from(s, j))
                    },
                    None => Err(TokenErrorView::InvalidIdentifier(word)),
                }
            },
            CharClass::Other => Err(TokenErrorView::InvalidCharacter(s[i])),
        }
    }
}

/// The tokens of the text `s`, or the first error met from the left.
pub open spec fn scan(s: Seq<char>) -> Scanned {
    scan_from(s, 0)
}

/// The token that the single character `c` is, if it is one.
pub fn symbol_token(c: char) -> (r: Option<Token>)
    ensures
        r is Some <==> symbol(c) is Some,
        r matches Some(t) ==> symbol(c) == Some(t@),
{
    if c == '+' {
        Some(Token::Operator(Operator::Plus))
    } else if c == '-' {
        Some(Token::Operator(Operator::Minus))
    } else if c == '*' {
        Some(Token::Operator(Operator::Star))
    } else if c == '/' {
        Some(Token::Operator(Operator::Slash))
    } else if c == '%' {
        Some(Token::Operator(Operator::Percent))
    } else if c == '^' {
        Some(Token::Operator(Operator::Caret))
    } else if c == '(' {
        Some(Token::Delimiters(Delimiters::LParen))
    } else if c == ')' {
        Some(Token::Delimiters(Delimiters::RParen))
    } else if c == '√' {
        Some(Token::Function(Function::Sqrt))
    } else if c == 'π' {
        Some(Token::Literals(Literals::Constance(Constance::PI)))
    } else {
        None
    }
}

/// Whether `word` is exactly the characters `name`.
fn spells(word: &Vec<char>, name: &[char]) -> (b: bool)
    ensures
        b == (word@ == name@),
{
    if word.len() != name.len() {
        return false;
    }
    let mut k: usize = 0;
    while k < word.len()
        invariant
            word.len() == name.len(),
            0 <= k <= word.len(),
            word@.take(k as int) == name@.take(k as int),
        decreases word.len() - k,
    {
        if word[k] != name[k] {
            return false;
        }
        assert(word@.take(k + 1) =~= word@.take(k as int).push(word@[k as int]));
        assert(name@.take(k + 1) =~= name@.take(k as int).push(name@[k as int]));
        k += 1;
    }
    assert(word@ =~= word@.take(k as int));
    assert(name@ =~= name@.take(k as int));
    true
}

/// The token that `word` names, where `word` is a word in lower case.
pub fn keyword_token(word: &Vec<char>) -> (r: Option<Token>)
    ensures
        r is Some <==> keyword(word@) is Some,
        r matches Some(t) ==> keyword(word@) == Some(t@),
{
    let e = ['e'];
    let pi = ['p', 'i'];
    let sqrt = ['s', 'q', 'r', 't'];
    let sin = ['s', 'i', 'n'];
    let cos = ['c', 'o', 's'];
    let tan = ['t', 'a', 'n'];
    let log = ['l', 'o', 'g'];
    let ln = ['l', 'n'];
    let lg = ['l', 'g'];
    proof {
        assert(e@ =~= seq!['e']);
        assert(pi@ =~= seq!['p', 'i']);
        assert(sqrt@ =~= seq!['s', 'q', 'r', 't']);
        assert(sin@ =~= seq!['s', 'i', 'n']);
        assert(cos@ =~= seq!['c', 'o', 's']);
        assert(tan@ =~= seq!['t', 'a', 'n']);
        assert(log@ =~= seq!['l', 'o', 'g']);
        assert(ln@ =~= seq!['l', 'n']);
        assert(lg@ =~= seq!['l', 'g']);
    }
    if spells(word, &e) {
        Some(Token::Literals(Literals::Constance(Constance::E)))
    } else if spells(word, &pi) {
        Some(Token::Literals(Literals::Constance(Constance::PI)))
    } else if spells(word, &sqrt) {
        Some(Token::Function(Function::Sqrt))
    } else if spells(word, &sin) {
        Some(Token::Function(Function::Sin))
    } else if spells(word, &cos) {
        Some(Token::Function(Function::Cos))
    } else if spells(word, &tan) {
        Some(Token::Function(Function::Tan))
    } else if spells(word, &log) {
        Some(Token::Function(Function::Log))
    } else if spells(word, &ln) {
        Some(Token::Function(Function::Ln))
    } else if spells(word, &lg) {
        Some(Token::Function(Function::Lg))
    } else {
        None
    }
}

/// The class of `c`, given whether it is whitespace and whether it is
/// alphabetic.
pub fn classify(c: char, blank: bool, letter: bool) -> (k: CharClass)
    ensures
        k == class_of(c, blank, letter),
{
    if symbol_token(c).is_some() {
        CharClass::Symbol
    } else if number_char(c) {
        CharClass::Numeric
    } else if blank {
        CharClass::Blank
    } else if letter {
        CharClass::Letter
    } else {
        CharClass::Other
    }
}

/// Splits a text into its tokens. Whitespace separates tokens and is
/// dropped; a numeral and a word each reach as far as they can. The first
/// character or run, from the left, that is no token ends the scan with its
/// error.
pub fn token_parser(inputs: &str) -> (r: Result<Vec<Token>, TokenError>)
    ensures
        r matches Ok(tokens) ==> scan(inputs@) == Ok::<Seq<TokenView>, TokenErrorView>(
            token_views(tokens@),
        ),
        r matches Err(e) ==> scan(inputs@) == Err::<Seq<TokenView>, TokenErrorView>(e@),
{
    let characters = chars_of(inputs);
    let ghost s = characters@;
    let n: usize = characters.len();
    let mut i: usize = 0;
    let mut tokens: Vec<Token> = Vec::new();
    while i < n
        invariant
            s == characters@,
            s == inputs@,
            n == s.len(),
            0 <= i <= n,
            scan(s) == preceded_by(token_views(tokens@), scan_from(s, i as int)),
        decreases n - i,
    {
        let c = characters[i];
        let ghost before = token_views(tokens@);
        match classify(c, is_whitespace(c), is_alphabetic(c)) {
            CharClass::Symbol => {
                let t = symbol_token(c).unwrap();
                proof {
                    let rest = scan_from(s, i + 1);
                    assert(token_views(tokens@.push(t)) =~= before.push(t@));
                    if rest is Ok {
                        assert(before + (seq![t@] + rest->Ok_0) =~= before.push(t@) + rest->Ok_0);
                    }
                }
                tokens.push(t);
                i += 1;
            },
            CharClass::Numeric => {
                let mut j: usize = i + 1;
                while j < n && number_char(characters[j])
                    invariant
                        s == characters@,
                        n == s.len(),
                        i < j <= n,
                        number_end(s, j as int) == number_end(s, i + 1),
                    decreases n - j,
                {
                    j += 1;
                }
                let nums = text_of(&characters, i, j);
                match Numeral::parse(nums.as_str()) {
                    Some(v) => {
                        let t = Token::Literals(Literals::Number(v));
                        proof {
                            let rest = scan_from(s, j as int);
                            assert(token_views(tokens@.push(t)) =~= before.push(t@));
                            if rest is Ok {
                                assert(before + (seq![t@] + rest->Ok_0) =~= before.push(t@)
                                    + rest->Ok_0);
                            }
                        }
                        tokens.push(t);
                    },
                    None => {
                        return Err(TokenError::InvalidNumber(nums));
                    },
                }
                i = j;
            },
            CharClass::Blank => {
                i += 1;
            },
            CharClass::Letter => {
                let mut j: usize = i + 1;
                while j < n && is_alphabetic(characters[j])
                    invariant
                        s == characters@,
                        n == s.len(),
                        i < j <= n,
                        word_end(s, j as int) == word_end(s, i + 1),
                    decreases n - j,
                {
                    j += 1;
                }
                let id = text_of(&characters, i, j);
                let low = lowercase(id.as_str());
                let word = chars_of(low.as_str());
                match keyword_token(&word) {
                    Some(t) => {
                        proof {
                            let rest = scan_from(s, j as int);
                            assert(token_views(tokens@.push(t)) =~= before.push(t@));
                            if rest is Ok {
                                assert(before + (seq![t@] + rest->Ok_0) =~= before.push(t@)
                                    + rest->Ok_0);
                            }
                        }
                        tokens.push(t);
                    },
                    None => {
                        return Err(TokenError::InvalidIdentifier(id));
                    },
                }
                i = j;
            },
            CharClass::Other => {
                return Err(TokenError::InvalidCharacter(c));
            },
        }
    }
    assert(token_views(tokens@) + Seq::<TokenView>::empty() =~= token_views(tokens@));
    Ok(tokens)
}

} // verus!
