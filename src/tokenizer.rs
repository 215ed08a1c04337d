//! The lexer: one forward pass over the characters of the input.
use vstd::prelude::*;
use crate::text::{
    chars_of, is_letter, is_alphabetic_char, is_digit, is_digit_char, is_white_space,
    is_white_space_char, string_of,
};

verus! {

#[derive(Clone, Copy, PartialEq, Eq, Debug, Structural)]
pub enum TokenType {
    INT,
    FLOAT,
    ADD,
    SUB,
    MUL,
    DIV,
    EXP,
    LN,
    LOG,
    SIN,
    COS,
    OpenParen,
    CloseParen,
}

/// A token; `value` holds the digit text of a number and is `None` otherwise.
#[derive(Clone, PartialEq, Debug)]
pub struct Token {
    pub token_type: TokenType,
    pub value: Option<String>,
}

/// What a token is, with its text as a sequence of characters.
pub struct TokenView {
    pub kind: TokenType,
    pub literal: Option<Seq<char>>,
}

impl View for Token {
    type V = TokenView;

    open spec fn view(&self) -> TokenView {
        TokenView {
            kind: self.token_type,
            literal: match self.value {
                Some(s) => Some(s@),
                None => None,
            },
        }
    }
}

/// The views of a sequence of tokens.
pub open spec fn tokens_view(ts: Seq<Token>) -> Seq<TokenView> {
    ts.map_values(|t: Token| t@)
}

/// A number token carries its text: a non-empty digit string for an integer; for a
/// decimal, digits and exactly one point, starting with a digit.
pub open spec fn token_wf(t: TokenView) -> bool {
    match t.kind {
        TokenType::INT => t.literal matches Some(l) && l.len() > 0 && forall|m: int|
            0 <= m < l.len() ==> is_digit(#[trigger] l[m]),
        TokenType::FLOAT => t.literal matches Some(l) && l.len() > 0 && is_digit(l[0])
            && dot_count(l) == 1 && forall|m: int|
            0 <= m < l.len() ==> is_digit(#[trigger] l[m]) || l[m] == '.',
        _ => true,
    }
}

pub open spec fn tokens_wf(ts: Seq<TokenView>) -> bool {
    forall|k: int| 0 <= k < ts.len() ==> token_wf(#[trigger] ts[k])
}

#[derive(Clone, PartialEq, Debug)]
pub enum TokenizeError {
    /// A character that starts no token.
    UnrecognizedCharacter(char),
    /// A word that names none of `log`, `ln`, `sin`, `cos`.
    InvalidFunctionName(String),
    /// A number with a second decimal point, with the text of the whole number.
    MalformedNumber(String),
}

pub enum TokenizeErrorView {
    UnrecognizedCharacter(char),
    InvalidFunctionName(Seq<char>),
    MalformedNumber(Seq<char>),
}

impl View for TokenizeError {
    type V = TokenizeErrorView;

    open spec fn view(&self) -> TokenizeErrorView {
        match self {
            TokenizeError::UnrecognizedCharacter(c) => TokenizeErrorView::UnrecognizedCharacter(*c),
            TokenizeError::InvalidFunctionName(w) => TokenizeErrorView::InvalidFunctionName(w@),
            TokenizeError::MalformedNumber(t) => TokenizeErrorView::MalformedNumber(t@),
        }
    }
}

/// A character that may continue a number: a digit, a decimal point or an underscore.
pub open spec fn is_number_char(c: char) -> bool {
    is_digit(c) || c == '.' || c == '_'
}

/// The length of the run of number characters that starts at `i`.
pub open spec fn number_len(s: Seq<char>, i: int) -> nat
    decreases s.len() - i,
{
    if 0 <= i < s.len() && is_number_char(s[i]) {
        1 + number_len(s, i + 1)
    } else {
        0
    }
}

/// The length of the run of alphabetic characters that starts at `i`.
pub open spec fn word_len(s: Seq<char>, i: int) -> nat
    decreases s.len() - i,
{
    if 0 <= i < s.len() && is_letter(s[i]) {
        1 + word_len(s, i + 1)
    } else {
        0
    }
}

/// The number of decimal points in `s`.
pub open spec fn dot_count(s: Seq<char>) -> nat
    decreases s.len(),
{
    if s.len() == 0 {
        0
    } else {
        dot_count(s.drop_last()) + if s.last() == '.' {
            1nat
        } else {
            0nat
        }
    }
}

/// `s` without its underscores.
pub open spec fn strip_underscores(s: Seq<char>) -> Seq<char>
    decreases s.len(),
{
    if s.len() == 0 {
        s
    } else if s.last() == '_' {
        strip_underscores(s.drop_last())
    } else {
        strip_underscores(s.drop_last()).push(s.last())
    }
}

/// The function that a word names, if any.
pub open spec fn function_kind(w: Seq<char>) -> Option<TokenType> {
    if w == seq!['l', 'o', 'g'] {
        Some(TokenType::LOG)
    } else if w == seq!['l', 'n'] {
        Some(TokenType::LN)
    } else if w == seq!['s', 'i', 'n'] {
        Some(TokenType::SIN)
    } else if w == seq!['c', 'o', 's'] {
        Some(TokenType::COS)
    } else {
        None
    }
}

/// The token of a one-character operator or parenthesis.
pub open spec fn symbol_kind(c: char) -> Option<TokenType> {
    if c == '+' {
        Some(TokenType::ADD)
    } else if c == '-' {
        Some(TokenType::SUB)
    } else if c == '*' {
        Some(TokenType::MUL)
    } else if c == '/' {
        Some(TokenType::DIV)
    } else if c == '^' {
        Some(TokenType::EXP)
    } else if c == '(' {
        Some(TokenType::OpenParen)
    } else if c == ')' {
        Some(TokenType::CloseParen)
    } else {
        None
    }
}

/// The token of a run of number characters, or `MalformedNumber` with the run if it holds
/// two decimal points or more.
pub open spec fn number_token(run: Seq<char>) -> Result<TokenView, TokenizeErrorView> {
    if dot_count(run) > 1 {
        Err(TokenizeErrorView::MalformedNumber(run))
    } else {
        Ok(
            TokenView {
                kind: if dot_count(run) == 1 {
                    TokenType::FLOAT
                } else {
                    TokenType::INT
                },
                literal: Some(strip_underscores(run)),
            },
        )
    }
}

/// `t` followed by the tokens of `rest`, or the error of `rest`.
pub open spec fn prepend(
    t: TokenView,
    rest: Result<Seq<TokenView>, TokenizeErrorView>,
) -> Result<Seq<TokenView>, TokenizeErrorView> {
    match rest {
        Ok(ts) => Ok(seq![t] + ts),
        Err(e) => Err(e),
    }
}

/// The tokens of `s` from position `i` on, or the first error met on the way.
/// Digits, white space, symbols and letters are disjoint classes of characters,
/// so the order in which they are tried does not matter.
pub open spec fn lex(s: Seq<char>, i: int) -> Result<Seq<TokenView>, TokenizeErrorView>
    decreases if i < s.len() { s.len() - i } else { 0 },
{
    if i < 0 || i >= s.len() {
        Ok(Seq::empty())
    } else {
        let c = s[i];
        if is_digit(c) {
            let j = i + 1 + number_len(s, i + 1);
            match number_token(s.subrange(i, j)) {
                Ok(t) => prepend(t, lex(s, j)),
                Err(e) => Err(e),
            }
        } else if is_white_space(c) {
            lex(s, i + 1)
        } else if symbol_kind(c) is Some {
            prepend(TokenView { kind: symbol_kind(c)->0, literal: None }, lex(s, i + 1))
        } else if is_letter(c) {
            let j = i + 1 + word_len(s, i + 1);
            let w = s.subrange(i, j);
            match function_kind(w) {
                Some(k) => prepend(TokenView { kind: k, literal: None }, lex(s, j)),
                None => Err(TokenizeErrorView::InvalidFunctionName(w)),
            }
        } else {
            Err(TokenizeErrorView::UnrecognizedCharacter(c))
        }
    }
}

/// `done` followed by the tokens of `rest`, or the error of `rest`.
pub open spec fn extend(
    done: Seq<TokenView>,
    rest: Result<Seq<TokenView>, TokenizeErrorView>,
) -> Result<Seq<TokenView>, TokenizeErrorView> {
    match rest {
        Ok(ts) => Ok(done + ts),
        Err(e) => Err(e),
    }
}

proof fn lemma_number_len_bound(s: Seq<char>, i: int)
    requires
        0 <= i <= s.len(),
    ensures
        i + number_len(s, i) <= s.len(),
    decreases s.len() - i,
{
    if i < s.len() {
        lemma_number_len_bound(s, i + 1);
    }
}

proof fn lemma_number_run(s: Seq<char>, i: int, k: int)
    requires
        0 <= i <= k < i + number_len(s, i),
    ensures
        k < s.len(),
        is_number_char(s[k]),
    decreases k - i,
{
    if i < k {
        lemma_number_run(s, i + 1, k);
    }
}

/// A run of number characters that starts with a digit leaves, once its underscores
/// are gone, a non-empty string of digits and points that starts with a digit and
/// holds as many points as the run.
proof fn lemma_strip_shape(run: Seq<char>)
    requires
        run.len() > 0,
        is_digit(run[0]),
        forall|m: int| 0 <= m < run.len() ==> is_number_char(#[trigger] run[m]),
    ensures
        strip_underscores(run).len() > 0,
        is_digit(strip_underscores(run)[0]),
        dot_count(strip_underscores(run)) == dot_count(run),
        forall|m: int|
            0 <= m < strip_underscores(run).len() ==> is_digit(
                #[trigger] strip_underscores(run)[m],
            ) || strip_underscores(run)[m] == '.',
    decreases run.len(),
{
    if run.len() > 1 {
        let d = run.drop_last();
        assert(forall|m: int| 0 <= m < d.len() ==> d[m] == run[m]);
        lemma_strip_shape(d);
        if run.last() != '_' {
            let r = strip_underscores(d).push(run.last());
            assert(forall|m: int| 0 <= m < r.len() - 1 ==> r[m] == strip_underscores(d)[m]);
            assert(r[r.len() - 1] == run.last());
            assert(is_number_char(run[run.len() - 1]));
            assert(r.drop_last() =~= strip_underscores(d));
        }
    } else {
        assert(strip_underscores(run.drop_last()).len() == 0);
        assert(strip_underscores(run) =~= run);
    }
}

/// A string without points holds none.
proof fn lemma_no_dots(l: Seq<char>)
    requires
        dot_count(l) == 0,
    ensures
        forall|m: int| 0 <= m < l.len() ==> #[trigger] l[m] != '.',
    decreases l.len(),
{
    if l.len() > 0 {
        lemma_no_dots(l.drop_last());
        assert(forall|m: int| 0 <= m < l.len() - 1 ==> l[m] == l.drop_last()[m]);
    }
}

proof fn lemma_prepend_wf(t: TokenView, rest: Result<Seq<TokenView>, TokenizeErrorView>)
    requires
        token_wf(t),
        rest matches Ok(ts) ==> tokens_wf(ts),
    ensures
        prepend(t, rest) matches Ok(ts) ==> tokens_wf(ts),
{
    if let Ok(ts) = rest {
        let all = seq![t] + ts;
        assert forall|k: int| 0 <= k < all.len() implies token_wf(#[trigger] all[k]) by {
            if k > 0 {
                assert(all[k] == ts[k - 1]);
            }
        }
    }
}

/// Every integer token that the lexer makes carries a non-empty digit string,
/// and every decimal one carries its text.
pub proof fn lemma_lex_wf(s: Seq<char>, i: int)
    ensures
        lex(s, i) matches Ok(ts) ==> tokens_wf(ts),
    decreases if i < s.len() { s.len() - i } else { 0 },
{
    if 0 <= i < s.len() {
        let c = s[i];
        if is_digit(c) {
            let j = i + 1 + number_len(s, i + 1);
            lemma_lex_wf(s, j);
            let run = s.subrange(i, j);
            lemma_number_len_bound(s, i + 1);
            assert forall|m: int| 0 <= m < run.len() implies is_number_char(#[trigger] run[m]) by {
                lemma_number_run(s, i, i + m);
            }
            lemma_strip_shape(run);
            if dot_count(run) == 0 {
                lemma_no_dots(strip_underscores(run));
            }
            if let Ok(t) = number_token(run) {
                lemma_prepend_wf(t, lex(s, j));
            }
        } else if is_white_space(c) {
            lemma_lex_wf(s, i + 1);
        } else if symbol_kind(c) is Some {
            lemma_lex_wf(s, i + 1);
            lemma_prepend_wf(TokenView { kind: symbol_kind(c)->0, literal: None }, lex(s, i + 1));
        } else if is_letter(c) {
            let j = i + 1 + word_len(s, i + 1);
            lemma_lex_wf(s, j);
            if let Some(k) = function_kind(s.subrange(i, j)) {
                lemma_prepend_wf(TokenView { kind: k, literal: None }, lex(s, j));
            }
        }
    }
}

/// A copy of a token.
pub fn copy_token(t: &Token) -> (r: Token)
    ensures
        r@ == t@,
{
    Token {
        token_type: t.token_type,
        value: match &t.value {
            Some(v) => Some(v.clone()),
            None => None,
        },
    }
}

/// The function that the word `w` names, if any.
fn function_kind_of(w: &Vec<char>) -> (r: Option<TokenType>)
    ensures
        r == function_kind(w@),
{
    if w.len() == 3 && w[0] == 'l' && w[1] == 'o' && w[2] == 'g' {
        assert(w@ =~= seq!['l', 'o', 'g']);
        Some(TokenType::LOG)
    } else if w.len() == 2 && w[0] == 'l' && w[1] == 'n' {
        assert(w@ =~= seq!['l', 'n']);
        Some(TokenType::LN)
    } else if w.len() == 3 && w[0] == 's' && w[1] == 'i' && w[2] == 'n' {
        assert(w@ =~= seq!['s', 'i', 'n']);
        Some(TokenType::SIN)
    } else if w.len() == 3 && w[0] == 'c' && w[1] == 'o' && w[2] == 's' {
        assert(w@ =~= seq!['c', 'o', 's']);
        Some(TokenType::COS)
    } else {
        assert(w@ != seq!['l', 'o', 'g'] && w@ != seq!['l', 'n']);
        assert(w@ != seq!['s', 'i', 'n'] && w@ != seq!['c', 'o', 's']);
        None
    }
}

/// The token of a one-character operator or parenthesis.
fn symbol_kind_of(c: char) -> (r: Option<TokenType>)
    ensures
        r == symbol_kind(c),
{
    if c == '+' {
        Some(TokenType::ADD)
    } else if c == '-' {
        Some(TokenType::SUB)
    } else if c == '*' {
        Some(TokenType::MUL)
    } else if c == '/' {
        Some(TokenType::DIV)
    } else if c == '^' {
        Some(TokenType::EXP)
    } else if c == '(' {
        Some(TokenType::OpenParen)
    } else if c == ')' {
        Some(TokenType::CloseParen)
    } else {
        None
    }
}

/// A cursor over the input's characters and the tokens read so far.
pub struct Tokenizer {
    pub input: Vec<char>,
    pub current_index: usize,
    pub tokens: Vec<Token>,
}

impl Tokenizer {
    /// The cursor stands within the input or just past its end.
    pub open spec fn wf(&self) -> bool {
        self.current_index <= self.input.len()
    }

    pub fn new(input: &str) -> (r: Tokenizer)
        ensures
            r.wf(),
            r.input@ == input@,
            r.current_index == 0,
            r.tokens@.len() == 0,
    {
        Tokenizer { input: chars_of(input), current_index: 0, tokens: Vec::new() }
    }

    /// The character under the cursor, if any.
    pub fn peek(&self) -> (r: Option<&char>)
        ensures
            r == (if self.current_index < self.input.len() {
                Some(&self.input@[self.current_index as int])
            } else {
                None
            }),
    {
        if self.current_index < self.input.len() {
            Some(&self.input[self.current_index])
        } else {
            None
        }
    }

    /// The character under the cursor, if any; the cursor moves forward by one either way.
    pub fn consume(&mut self) -> (r: Option<&char>)
        requires
            old(self).current_index < usize::MAX,
        ensures
            final(self).input == old(self).input,
            final(self).tokens == old(self).tokens,
            final(self).current_index == old(self).current_index + 1,
            r == (if old(self).current_index < old(self).input.len() {
                Some(&old(self).input@[old(self).current_index as int])
            } else {
                None
            }),
    {
        let i = self.current_index;
        self.current_index = i + 1;
        if i < self.input.len() {
            Some(&self.input[i])
        } else {
            None
        }
    }

    /// Reads the run of alphabetic characters under the cursor and pushes the
    /// function token that it names.
    pub fn tokenize_function(&mut self) -> (r: Result<(), TokenizeError>)
        requires
            old(self).wf(),
        ensures
            final(self).wf(),
            final(self).input == old(self).input,
            ({
                let s = old(self).input@;
                let i = old(self).current_index as int;
                let w = s.subrange(i, i + word_len(s, i));
                &&& final(self).current_index == i + word_len(s, i)
                &&& match function_kind(w) {
                    Some(k) => r is Ok && final(self).tokens@ == old(self).tokens@.push(
                        Token { token_type: k, value: None },
                    ),
                    None => r is Err && r->Err_0@ == TokenizeErrorView::InvalidFunctionName(w)
                        && final(self).tokens == old(self).tokens,
                }
            }),
    {
        let start = self.current_index;
        let mut chars: Vec<char> = Vec::new();
        loop
            invariant
                self.wf(),
                self.input == old(self).input,
                self.tokens == old(self).tokens,
                start == old(self).current_index,
                start <= self.current_index,
                chars@ == self.input@.subrange(start as int, self.current_index as int),
                word_len(self.input@, start as int) == (self.current_index - start) + word_len(
                    self.input@,
                    self.current_index as int,
                ),
            ensures
                word_len(self.input@, self.current_index as int) == 0,
            decreases self.input.len() - self.current_index,
        {
            if self.current_index < self.input.len() && is_alphabetic_char(
                self.input[self.current_index],
            ) {
                let c = self.input[self.current_index];
                chars.push(c);
                self.current_index = self.current_index + 1;
                assert(chars@ =~= self.input@.subrange(start as int, self.current_index as int));
            } else {
                break ;
            }
        }
        match function_kind_of(&chars) {
            Some(k) => {
                self.tokens.push(Token { token_type: k, value: None });
                Ok(())
            },
            None => Err(TokenizeError::InvalidFunctionName(string_of(&chars))),
        }
    }

    /// Reads the run of digits, decimal points and underscores under the cursor
    /// and pushes its number token, the underscores left out.
    pub fn tokenize_number(&mut self) -> (r: Result<(), TokenizeError>)
        requires
            old(self).wf(),
        ensures
            final(self).wf(),
            final(self).input == old(self).input,
            ({
                let s = old(self).input@;
                let i = old(self).current_index as int;
                let j = i + number_len(s, i);
                &&& final(self).current_index == j
                &&& match number_token(s.subrange(i, j)) {
                    Ok(t) => r is Ok && tokens_view(final(self).tokens@) == tokens_view(
                        old(self).tokens@,
                    ).push(t),
                    Err(e) => r is Err && r->Err_0@ == e && final(self).tokens
                        == old(self).tokens,
                }
            }),
    {
        let start = self.current_index;
        let mut raw: Vec<char> = Vec::new();
        let mut num: Vec<char> = Vec::new();
        let mut is_float = false;
        let mut malformed = false;
        loop
            invariant
                self.wf(),
                self.input == old(self).input,
                self.tokens == old(self).tokens,
                start == old(self).current_index,
                start <= self.current_index,
                raw@ == self.input@.subrange(start as int, self.current_index as int),
                num@ == strip_underscores(raw@),
                is_float == (dot_count(raw@) >= 1),
                malformed == (dot_count(raw@) >= 2),
                number_len(self.input@, start as int) == (self.current_index - start)
                    + number_len(self.input@, self.current_index as int),
            ensures
                number_len(self.input@, self.current_index as int) == 0,
            decreases self.input.len() - self.current_index,
        {
            if self.current_index >= self.input.len() {
                break ;
            }
            let ghost before = raw@;
            let c = self.input[self.current_index];
            if is_digit_char(c) {
                num.push(c);
            } else if c == '.' {
                if is_float {
                    malformed = true;
                }
                is_float = true;
                num.push(c);
            } else if c != '_' {
                break ;
            }
            raw.push(c);
            self.current_index = self.current_index + 1;
            assert(raw@ =~= self.input@.subrange(start as int, self.current_index as int));
            assert(raw@.drop_last() =~= before);
        }
        if malformed {
            return Err(TokenizeError::MalformedNumber(string_of(&raw)));
        }
        let literal = string_of(&num);
        if is_float {
            self.tokens.push(Token { token_type: TokenType::FLOAT, value: Some(literal) });
        } else {
            self.tokens.push(Token { token_type: TokenType::INT, value: Some(literal) });
        }
        assert(tokens_view(self.tokens@) =~= tokens_view(old(self).tokens@).push(
            self.tokens@.last()@,
        ));
        Ok(())
    }

    /// Reads the rest of the input and returns every token read so far, or the
    /// first error met.
    pub fn tokenize(&mut self) -> (r: Result<Vec<Token>, TokenizeError>)
        requires
            old(self).wf(),
        ensures
            final(self).wf(),
            final(self).input == old(self).input,
            match lex(old(self).input@, old(self).current_index as int) {
                Ok(ts) => r is Ok && tokens_view(r->Ok_0@) == tokens_view(old(self).tokens@) + ts
                    && tokens_view(final(self).tokens@) == tokens_view(r->Ok_0@),
                Err(e) => r is Err && r->Err_0@ == e,
            },
    {
        while self.current_index < self.input.len()
            invariant
                self.wf(),
                self.input == old(self).input,
                extend(tokens_view(self.tokens@), lex(self.input@, self.current_index as int))
                    == extend(
                    tokens_view(old(self).tokens@),
                    lex(self.input@, old(self).current_index as int),
                ),
            decreases self.input.len() - self.current_index,
        {
            let ghost done = tokens_view(self.tokens@);
            let ghost i = self.current_index as int;
            let c = self.input[self.current_index];
            if is_digit_char(c) {
                let res = self.tokenize_number();
                match res {
                    Ok(()) => {},
                    Err(e) => {
                        return Err(e);
                    },
                }
                proof {
                    let t = tokens_view(self.tokens@).last();
                    match lex(self.input@, self.current_index as int) {
                        Ok(ts) => assert(done.push(t) + ts =~= done + (seq![t] + ts)),
                        Err(e) => {},
                    }
                }
            } else if is_white_space_char(c) {
                self.consume();
            } else if let Some(k) = symbol_kind_of(c) {
                self.consume();
                self.tokens.push(Token { token_type: k, value: None });
                proof {
                    let t = TokenView { kind: k, literal: None };
                    assert(tokens_view(self.tokens@) =~= done.push(t));
                    match lex(self.input@, self.current_index as int) {
                        Ok(ts) => assert(done.push(t) + ts =~= done + (seq![t] + ts)),
                        Err(e) => {},
                    }
                }
            } else if is_alphabetic_char(c) {
                let res = self.tokenize_function();
                match res {
                    Ok(()) => {},
                    Err(e) => {
                        return Err(e);
                    },
                }
                proof {
                    let t = tokens_view(self.tokens@).last();
                    assert(tokens_view(self.tokens@) =~= done.push(t));
                    match lex(self.input@, self.current_index as int) {
                        Ok(ts) => assert(done.push(t) + ts =~= done + (seq![t] + ts)),
                        Err(e) => {},
                    }
                }
            } else {
                return Err(TokenizeError::UnrecognizedCharacter(c));
            }
        }
        let mut out: Vec<Token> = Vec::new();
        let mut k: usize = 0;
        while k < self.tokens.len()
            invariant
                self.wf(),
                self.input == old(self).input,
                extend(tokens_view(self.tokens@), lex(self.input@, self.current_index as int))
                    == extend(
                    tokens_view(old(self).tokens@),
                    lex(self.input@, old(self).current_index as int),
                ),
                self.current_index >= self.input.len(),
                k <= self.tokens.len(),
                out.len() == k,
                forall|j: int| 0 <= j < k ==> #[trigger] out@[j]@ == self.tokens@[j]@,
            decreases self.tokens.len() - k,
        {
            out.push(copy_token(&self.tokens[k]));
            k = k + 1;
        }
        assert(tokens_view(out@) =~= tokens_view(self.tokens@));
        assert(tokens_view(self.tokens@) + Seq::<TokenView>::empty() =~= tokens_view(
            self.tokens@,
        ));
        Ok(out)
    }
}

} // verus!
