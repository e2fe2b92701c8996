//! Tokens and the lexer that produces them from text.

use vstd::prelude::*;
use vstd::std_specs::iter::IteratorSpec;

verus! {

/// A decimal literal: a sign, the digits before the point and the digits after it,
/// each digit held as its value `0..=9`.
#[derive(Debug, Clone)]
pub struct Decimal {
    pub negative: bool,
    pub whole: Vec<u8>,
    pub fraction: Vec<u8>,
}

/// The mathematical content of a [`Decimal`].
pub struct DecimalModel {
    pub negative: bool,
    pub whole: Seq<u8>,
    pub fraction: Seq<u8>,
}

impl View for Decimal {
    type V = DecimalModel;

    open spec fn view(&self) -> DecimalModel {
        DecimalModel { negative: self.negative, whole: self.whole@, fraction: self.fraction@ }
    }
}

/// A copy of a vector of plain values.
pub(crate) fn copy_items<T: Copy>(v: &Vec<T>) -> (r: Vec<T>)
    ensures
        r@ == v@,
{
    let mut r: Vec<T> = Vec::new();
    let mut i: usize = 0;
    while i < v.len()
        invariant
            i <= v.len(),
            r@ == v@.subrange(0, i as int),
        decreases v.len() - i,
    {
        r.push(v[i]);
        i = i + 1;
        assert(r@ =~= v@.subrange(0, i as int));
    }
    assert(r@ =~= v@);
    r
}

impl Decimal {
    /// A copy of this literal.
    pub fn duplicate(&self) -> (r: Decimal)
        ensures
            r@ == self@,
    {
        Decimal {
            negative: self.negative,
            whole: copy_items(&self.whole),
            fraction: copy_items(&self.fraction),
        }
    }

    /// A whole number of one digit, with a sign.
    pub fn digit(negative: bool, d: u8) -> (r: Decimal)
        requires
            d < 10,
        ensures
            r@ == (DecimalModel { negative, whole: seq![d], fraction: seq![] }),
    {
        let mut whole: Vec<u8> = Vec::new();
        whole.push(d);
        Decimal { negative, whole, fraction: Vec::new() }
    }
}

/// A token of the equation language.
#[derive(Debug, Clone)]
pub enum Token {
    Pi,
    E,
    Number(Decimal),
    Pronumeral(char),
    Add,
    Sub,
    Mul,
    Div,
    Pow,
    LParen,
    RParen,
    Eq,
}

/// The mathematical content of a [`Token`].
pub enum TokenModel {
    Pi,
    E,
    Number(DecimalModel),
    Pronumeral(char),
    Add,
    Sub,
    Mul,
    Div,
    Pow,
    LParen,
    RParen,
    Eq,
}

impl View for Token {
    type V = TokenModel;

    open spec fn view(&self) -> TokenModel {
        match self {
            Token::Pi => TokenModel::Pi,
            Token::E => TokenModel::E,
            Token::Number(d) => TokenModel::Number(d@),
            Token::Pronumeral(c) => TokenModel::Pronumeral(*c),
            Token::Add => TokenModel::Add,
            Token::Sub => TokenModel::Sub,
            Token::Mul => TokenModel::Mul,
            Token::Div => TokenModel::Div,
            Token::Pow => TokenModel::Pow,
            Token::LParen => TokenModel::LParen,
            Token::RParen => TokenModel::RParen,
            Token::Eq => TokenModel::Eq,
        }
    }
}

impl Token {
    /// A copy of this token.
    pub fn duplicate(&self) -> (r: Token)
        ensures
            r@ == self@,
    {
        match self {
            Token::Pi => Token::Pi,
            Token::E => Token::E,
            Token::Number(d) => Token::Number(d.duplicate()),
            Token::Pronumeral(c) => Token::Pronumeral(*c),
            Token::Add => Token::Add,
            Token::Sub => Token::Sub,
            Token::Mul => Token::Mul,
            Token::Div => Token::Div,
            Token::Pow => Token::Pow,
            Token::LParen => Token::LParen,
            Token::RParen => Token::RParen,
            Token::Eq => Token::Eq,
        }
    }
}

/// The models of a sequence of tokens.
pub open spec fn token_views(ts: Seq<Token>) -> Seq<TokenModel> {
    ts.map_values(|t: Token| t@)
}

/// One result of the lexer: a token, or `None` for a character that starts no
/// token, with the span of characters `start..end` that it covers.
#[derive(Debug, Clone)]
pub struct Lexeme {
    pub token: Option<Token>,
    pub start: usize,
    pub end: usize,
}

pub struct LexemeModel {
    pub token: Option<TokenModel>,
    pub start: nat,
    pub end: nat,
}

impl View for Lexeme {
    type V = LexemeModel;

    open spec fn view(&self) -> LexemeModel {
        LexemeModel {
            token: match self.token {
                Some(t) => Some(t@),
                None => None,
            },
            start: self.start as nat,
            end: self.end as nat,
        }
    }
}

/// The models of a sequence of lexemes.
pub open spec fn views(ls: Seq<Lexeme>) -> Seq<LexemeModel> {
    ls.map_values(|l: Lexeme| l@)
}

pub proof fn lemma_views_push(ls: Seq<Lexeme>, l: Lexeme)
    ensures
        views(ls.push(l)) == views(ls).push(l@),
{
    assert(views(ls.push(l)) =~= views(ls).push(l@));
}

pub open spec fn is_digit(c: char) -> bool {
    48 <= c as u32 && c as u32 <= 57
}

pub open spec fn is_letter(c: char) -> bool {
    (65 <= c as u32 && c as u32 <= 90) || (97 <= c as u32 && c as u32 <= 122)
}

pub open spec fn is_space(c: char) -> bool {
    c == ' ' || c == '\t' || c == '\n' || c == '\r' || c == '\x0c'
}

pub open spec fn digit_value(c: char) -> u8 {
    (c as u32 - 48) as u8
}

pub open spec fn digit_values(t: Seq<char>) -> Seq<u8> {
    t.map_values(|c: char| digit_value(c))
}

/// The number of digits in the run that starts at `pos`.
pub open spec fn digit_run(s: Seq<char>, pos: int) -> nat
    decreases s.len() - pos,
{
    if 0 <= pos < s.len() && is_digit(s[pos]) {
        1 + digit_run(s, pos + 1)
    } else {
        0
    }
}

/// Whether the two characters at `pos` spell the constant pi (`pi` or `PI`).
pub open spec fn pi_at(s: Seq<char>, pos: int) -> bool {
    0 <= pos && pos + 1 < s.len() && ((s[pos] == 'p' && s[pos + 1] == 'i') || (s[pos] == 'P'
        && s[pos + 1] == 'I'))
}

/// Whether a decimal point followed by a digit stands right after the digit run at `pos`.
pub open spec fn has_fraction(s: Seq<char>, pos: int) -> bool {
    let d = digit_run(s, pos);
    pos + d + 1 < s.len() && s[pos + d] == '.' && is_digit(s[pos + d + 1])
}

/// The length of the longest match at `pos`, which is at least one character
/// (a character that starts no token is a match of length one).
pub open spec fn match_len(s: Seq<char>, pos: int) -> nat {
    let d = digit_run(s, pos);
    if d > 0 {
        if has_fraction(s, pos) {
            d + 1 + digit_run(s, pos + d + 1)
        } else {
            d
        }
    } else if pi_at(s, pos) {
        2
    } else {
        1
    }
}

pub open spec fn symbol(c: char) -> Option<TokenModel> {
    if c == '+' {
        Some(TokenModel::Add)
    } else if c == '-' {
        Some(TokenModel::Sub)
    } else if c == '*' {
        Some(TokenModel::Mul)
    } else if c == '/' {
        Some(TokenModel::Div)
    } else if c == '^' {
        Some(TokenModel::Pow)
    } else if c == '(' {
        Some(TokenModel::LParen)
    } else if c == ')' {
        Some(TokenModel::RParen)
    } else if c == '=' {
        Some(TokenModel::Eq)
    } else {
        None
    }
}

/// The token that the longest match at `pos` denotes, or `None` where the
/// character there starts no token.
pub open spec fn token_at(s: Seq<char>, pos: int) -> Option<TokenModel> {
    let c = s[pos];
    let d = digit_run(s, pos);
    if d > 0 {
        Some(
            TokenModel::Number(
                DecimalModel {
                    negative: false,
                    whole: digit_values(s.subrange(pos, pos + d)),
                    fraction: if has_fraction(s, pos) {
                        digit_values(s.subrange(pos + d + 1, pos + match_len(s, pos)))
                    } else {
                        seq![]
                    },
                },
            ),
        )
    } else if pi_at(s, pos) {
        Some(TokenModel::Pi)
    } else if c == 'e' {
        Some(TokenModel::E)
    } else if is_letter(c) {
        Some(TokenModel::Pronumeral(c))
    } else {
        symbol(c)
    }
}

pub proof fn lemma_digit_run_bound(s: Seq<char>, pos: int)
    requires
        0 <= pos <= s.len(),
    ensures
        pos + digit_run(s, pos) <= s.len(),
        forall|k: int| pos <= k < pos + digit_run(s, pos) ==> is_digit(#[trigger] s[k]),
    decreases s.len() - pos,
{
    if pos < s.len() && is_digit(s[pos]) {
        lemma_digit_run_bound(s, pos + 1);
    }
}

pub proof fn lemma_match_len_bound(s: Seq<char>, pos: int)
    requires
        0 <= pos < s.len(),
    ensures
        1 <= match_len(s, pos),
        pos + match_len(s, pos) <= s.len(),
{
    lemma_digit_run_bound(s, pos);
    let d = digit_run(s, pos);
    if d > 0 && has_fraction(s, pos) {
        lemma_digit_run_bound(s, pos + d + 1);
    }
}

/// What the lexer yields for the text from `pos` on: whitespace is skipped, and
/// every other position starts the longest match there.
pub open spec fn lexemes(s: Seq<char>, pos: int) -> Seq<LexemeModel>
    decreases s.len() - pos,
{
    if pos < 0 || pos >= s.len() {
        seq![]
    } else if is_space(s[pos]) {
        lexemes(s, pos + 1)
    } else {
        let n = match_len(s, pos);
        if n >= 1 && pos + n <= s.len() {
            seq![LexemeModel { token: token_at(s, pos), start: pos as nat, end: (pos + n) as nat }]
                + lexemes(s, pos + n)
        } else {
            seq![]
        }
    }
}

fn is_digit_char(c: char) -> (r: bool)
    ensures
        r == is_digit(c),
{
    48 <= c as u32 && c as u32 <= 57
}

fn is_letter_char(c: char) -> (r: bool)
    ensures
        r == is_letter(c),
{
    (65 <= c as u32 && c as u32 <= 90) || (97 <= c as u32 && c as u32 <= 122)
}

fn is_space_char(c: char) -> (r: bool)
    ensures
        r == is_space(c),
{
    c == ' ' || c == '\t' || c == '\n' || c == '\r' || c == '\x0c'
}

fn symbol_token(c: char) -> (r: Option<Token>)
    ensures
        match r {
            Some(t) => symbol(c) == Some(t@),
            None => symbol(c) is None,
        },
{
    if c == '+' {
        Some(Token::Add)
    } else if c == '-' {
        Some(Token::Sub)
    } else if c == '*' {
        Some(Token::Mul)
    } else if c == '/' {
        Some(Token::Div)
    } else if c == '^' {
        Some(Token::Pow)
    } else if c == '(' {
        Some(Token::LParen)
    } else if c == ')' {
        Some(Token::RParen)
    } else if c == '=' {
        Some(Token::Eq)
    } else {
        None
    }
}

/// Reads the run of digits at `pos`, returning where it ends and the digit values.
fn scan_digits(s: &Vec<char>, pos: usize) -> (r: (usize, Vec<u8>))
    requires
        pos <= s.len(),
    ensures
        r.0 == pos + digit_run(s@, pos as int),
        r.1@ == digit_values(s@.subrange(pos as int, r.0 as int)),
{
    let mut j: usize = pos;
    let mut ds: Vec<u8> = Vec::new();
    while j < s.len() && is_digit_char(s[j])
        invariant
            pos <= j <= s.len(),
            digit_run(s@, pos as int) == (j - pos) + digit_run(s@, j as int),
            ds@ == digit_values(s@.subrange(pos as int, j as int)),
        decreases s.len() - j,
    {
        ds.push(((s[j] as u32) - 48) as u8);
        proof {
            assert(digit_values(s@.subrange(pos as int, j + 1)) =~= digit_values(
                s@.subrange(pos as int, j as int),
            ).push(digit_value(s@[j as int])));
        }
        j = j + 1;
    }
    (j, ds)
}

/// Splits a sequence of characters into lexemes.
pub fn lex_chars(s: &Vec<char>) -> (r: Vec<Lexeme>)
    ensures
        views(r@) == lexemes(s@, 0),
{
    let mut out: Vec<Lexeme> = Vec::new();
    let mut pos: usize = 0;
    while pos < s.len()
        invariant
            pos <= s.len(),
            lexemes(s@, 0) == views(out@) + lexemes(s@, pos as int),
        decreases s.len() - pos,
    {
        let c = s[pos];
        if is_space_char(c) {
            pos = pos + 1;
        } else {
            proof {
                lemma_match_len_bound(s@, pos as int);
                lemma_digit_run_bound(s@, pos as int);
            }
            let (dend, whole) = scan_digits(s, pos);
            let tok: Option<Token>;
            let end: usize;
            if dend > pos {
                if s.len() - dend > 1 && s[dend] == '.' && is_digit_char(s[dend + 1]) {
                    let (fend, fraction) = scan_digits(s, dend + 1);
                    tok = Some(Token::Number(Decimal { negative: false, whole, fraction }));
                    end = fend;
                } else {
                    tok = Some(Token::Number(Decimal { negative: false, whole, fraction: Vec::new() }));
                    end = dend;
                }
            } else if pos + 1 < s.len() && ((c == 'p' && s[pos + 1] == 'i') || (c == 'P' && s[pos
                + 1] == 'I')) {
                tok = Some(Token::Pi);
                end = pos + 2;
            } else if c == 'e' {
                tok = Some(Token::E);
                end = pos + 1;
            } else if is_letter_char(c) {
                tok = Some(Token::Pronumeral(c));
                end = pos + 1;
            } else {
                tok = symbol_token(c);
                end = pos + 1;
            }
            let lx = Lexeme { token: tok, start: pos, end };
            let ghost before = out@;
            assert(lx@ == LexemeModel {
                token: token_at(s@, pos as int),
                start: pos as nat,
                end: (pos + match_len(s@, pos as int)) as nat,
            });
            out.push(lx);
            proof {
                assert(out@ == before.push(lx));
                lemma_views_push(before, lx);
                assert(lexemes(s@, 0) =~= views(out@) + lexemes(
                    s@,
                    end as int,
                ));
            }
            pos = end;
        }
    }
    proof {
        assert(views(out@) =~= lexemes(s@, 0));
    }
    out
}

/// Splits a text into lexemes: see [`lexemes`].
pub fn lex(text: &str) -> (r: Vec<Lexeme>)
    ensures
        views(r@) == lexemes(text@, 0),
{
    broadcast use vstd::string::axiom_spec_iter, vstd::string::next_postcondition;

    let mut chars: Vec<char> = Vec::new();
    let mut it = text.chars();
    loop
        invariant
            chars@ + IteratorSpec::remaining(&it) == text@,
            it.obeys_prophetic_iter_laws(),
            IteratorSpec::decrease(&it) is Some,
        ensures
            chars@ == text@,
        decreases IteratorSpec::decrease(&it)->0,
    {
        match it.next() {
            Some(c) => {
                chars.push(c);
            },
            None => {
                break ;
            },
        }
    }
    lex_chars(&chars)
}

} // verus!
