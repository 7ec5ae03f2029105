//! The scanner: turns source text into tokens, one at a time.
use vstd::prelude::*;
use crate::text::{chars_of, push_char};
use crate::token::{Token, TokenType, keyword_kind, look_up_keywords};

verus! {

/// The character at `i`, or `'\0'` past the end.
pub open spec fn char_at(input: Seq<char>, i: int) -> char {
    if 0 <= i < input.len() {
        input[i]
    } else {
        '\0'
    }
}

pub open spec fn is_space(c: char) -> bool {
    c == '\n' || c == '\r' || c == '\t' || c == ' '
}

pub open spec fn is_letter_char(c: char) -> bool {
    ('a' <= c && c <= 'z') || ('A' <= c && c <= 'Z')
}

pub open spec fn is_digit_char(c: char) -> bool {
    '0' <= c && c <= '9'
}

/// The first position from `i` on that holds no white space.
pub open spec fn skip_spaces(input: Seq<char>, i: int) -> int
    decreases input.len() - i,
{
    if 0 <= i < input.len() && is_space(input[i]) {
        skip_spaces(input, i + 1)
    } else {
        i
    }
}

/// The end of the run of letters that starts at `i`.
pub open spec fn letters_end(input: Seq<char>, i: int) -> int
    decreases input.len() - i,
{
    if 0 <= i < input.len() && is_letter_char(input[i]) {
        letters_end(input, i + 1)
    } else {
        i
    }
}

/// The end of the run of digits that starts at `i`.
pub open spec fn digits_end(input: Seq<char>, i: int) -> int
    decreases input.len() - i,
{
    if 0 <= i < input.len() && is_digit_char(input[i]) {
        digits_end(input, i + 1)
    } else {
        i
    }
}

/// The first position from `i` on that holds a double quote, or the end.
pub open spec fn quote_end(input: Seq<char>, i: int) -> int
    decreases input.len() - i,
{
    if 0 <= i < input.len() && input[i] != '"' {
        quote_end(input, i + 1)
    } else {
        i
    }
}

/// One step of scanning from `pos`: the kind of the next token, its text, and the position
/// after it. Past the white space at the end of the input comes the end-of-input token, which
/// stays put; any character that no rule reads, `'\0'` among them, is an illegal token.
pub open spec fn lex_step(input: Seq<char>, pos: int) -> (TokenType, Seq<char>, int) {
    let p = skip_spaces(input, pos);
    if p < 0 || p >= input.len() {
        (TokenType::Eof, ""@, p)
    } else {
        let c = input[p];
        if c == ';' {
            (TokenType::SemiColon, ";"@, p + 1)
        } else if c == '<' {
            if char_at(input, p + 1) == '=' {
                (TokenType::EqualLessThan, "<="@, p + 2)
            } else {
                (TokenType::LessThan, "<"@, p + 1)
            }
        } else if c == '=' {
            (TokenType::Equal, "="@, p + 1)
        } else if c == ':' {
            if char_at(input, p + 1) == '=' {
                (TokenType::Assign, ":="@, p + 2)
            } else {
                (TokenType::Illegal, ""@, p + 1)
            }
        } else if c == '*' {
            (TokenType::Mul, "*"@, p + 1)
        } else if c == '-' {
            (TokenType::Minus, "-"@, p + 1)
        } else if c == '+' {
            (TokenType::Add, "+"@, p + 1)
        } else if c == '/' {
            (TokenType::Divide, "/"@, p + 1)
        } else if c == '"' {
            let e = quote_end(input, p + 1);
            if e < input.len() {
                (TokenType::String, input.subrange(p + 1, e), e + 1)
            } else {
                (TokenType::Illegal, ""@, e)
            }
        } else if is_letter_char(c) {
            let e = letters_end(input, p);
            (keyword_kind(input.subrange(p, e)), input.subrange(p, e), e)
        } else if is_digit_char(c) {
            let e = digits_end(input, p);
            (TokenType::Number, input.subrange(p, e), e)
        } else {
            (TokenType::Illegal, ""@, p + 1)
        }
    }
}

pub proof fn lemma_skip_spaces_bounds(input: Seq<char>, i: int)
    requires
        0 <= i <= input.len(),
    ensures
        i <= skip_spaces(input, i) <= input.len(),
        !is_space(char_at(input, skip_spaces(input, i))),
    decreases input.len() - i,
{
    if 0 <= i < input.len() && is_space(input[i]) {
        lemma_skip_spaces_bounds(input, i + 1);
    }
}

proof fn lemma_run_ends(input: Seq<char>, i: int)
    requires
        0 <= i <= input.len(),
    ensures
        i <= letters_end(input, i) <= input.len(),
        i <= digits_end(input, i) <= input.len(),
        i <= quote_end(input, i) <= input.len(),
    decreases input.len() - i,
{
    if i < input.len() {
        lemma_run_ends(input, i + 1);
    }
}

/// Scanning moves forward and stays within the input; only the end-of-input token stays put.
pub proof fn lemma_lex_step_progress(input: Seq<char>, pos: int)
    requires
        0 <= pos <= input.len(),
    ensures
        pos <= lex_step(input, pos).2 <= input.len(),
        lex_step(input, pos).0 != TokenType::Eof ==> pos < lex_step(input, pos).2,
{
    lemma_skip_spaces_bounds(input, pos);
    let p = skip_spaces(input, pos);
    if p < input.len() {
        lemma_run_ends(input, p);
        lemma_run_ends(input, p + 1);
    }
}

/// Once the end of input is reached, scanning again gives it again, from the same place.
pub proof fn lemma_eof_repeats(input: Seq<char>, pos: int)
    requires
        0 <= pos <= input.len(),
        lex_step(input, pos).0 == TokenType::Eof,
    ensures
        lex_step(input, lex_step(input, pos).2) == lex_step(input, pos),
{
    lemma_skip_spaces_bounds(input, pos);
}

/// The tokens from `pos` on, up to and with the first end-of-input token.
pub open spec fn lex_all(input: Seq<char>, pos: int) -> Seq<(TokenType, Seq<char>)>
    decreases input.len() - pos,
{
    if 0 <= pos <= input.len() {
        let (t, text, next) = lex_step(input, pos);
        if t == TokenType::Eof {
            seq![(t, text)]
        } else if pos < next <= input.len() {
            seq![(t, text)] + lex_all(input, next)
        } else {
            seq![(t, text)]
        }
    } else {
        Seq::empty()
    }
}

/// Whether the text after `s` stands inside a comment.
pub open spec fn in_comment_after(s: Seq<char>) -> bool
    decreases s.len(),
{
    if s.len() == 0 {
        false
    } else if s.last() == '{' {
        true
    } else if s.last() == '}' {
        false
    } else {
        in_comment_after(s.drop_last())
    }
}

/// The text without its comments: a comment runs from `{` to the next `}`, or to the end.
pub open spec fn strip_comments(s: Seq<char>) -> Seq<char>
    decreases s.len(),
{
    if s.len() == 0 {
        Seq::empty()
    } else {
        let rest = strip_comments(s.drop_last());
        let c = s.last();
        if c == '{' || c == '}' || in_comment_after(s.drop_last()) {
            rest
        } else {
            rest.push(c)
        }
    }
}

/// Single-character lookahead over source text whose comments were removed.
pub struct Lexer {
    input: Vec<char>,
    pos: usize,
}

impl Lexer {
    /// The text being scanned, without comments.
    pub closed spec fn text(&self) -> Seq<char> {
        self.input@
    }

    /// How much of the text has been scanned.
    pub closed spec fn position(&self) -> int {
        self.pos as int
    }

    pub closed spec fn wf(&self) -> bool {
        self.pos <= self.input@.len()
    }

    pub fn new(input: &str) -> (r: Lexer)
        ensures
            r.wf(),
            r.text() == strip_comments(input@),
            r.position() == 0,
    {
        let chars = chars_of(input);
        Lexer { input: Self::remove_comment(&chars), pos: 0 }
    }

    /// Scans the next token.
    pub fn next_token(&mut self) -> (r: Token)
        requires
            old(self).wf(),
        ensures
            final(self).wf(),
            final(self).text() == old(self).text(),
            (r@.0, r@.1, final(self).position()) == lex_step(old(self).text(), old(self).position()),
    {
        self.consume_spaces();
        proof {
            lemma_skip_spaces_bounds(self.input@, old(self).pos as int);
        }
        if self.pos == self.input.len() {
            return Token::new(TokenType::Eof, "");
        }
        let ch = self.input[self.pos];
        self.pos = self.pos + 1;
        if ch == ';' {
            Token::new(TokenType::SemiColon, ";")
        } else if ch == '<' {
            if self.peek_char() == '=' {
                self.next_char();
                Token::new(TokenType::EqualLessThan, "<=")
            } else {
                Token::new(TokenType::LessThan, "<")
            }
        } else if ch == '=' {
            Token::new(TokenType::Equal, "=")
        } else if ch == ':' {
            if self.peek_char() == '=' {
                self.next_char();
                Token::new(TokenType::Assign, ":=")
            } else {
                Token::new(TokenType::Illegal, "")
            }
        } else if ch == '*' {
            Token::new(TokenType::Mul, "*")
        } else if ch == '-' {
            Token::new(TokenType::Minus, "-")
        } else if ch == '+' {
            Token::new(TokenType::Add, "+")
        } else if ch == '/' {
            Token::new(TokenType::Divide, "/")
        } else if ch == '"' {
            match self.read_string() {
                Some(literal) => Token { token_type: TokenType::String, literal },
                None => Token::new(TokenType::Illegal, ""),
            }
        } else if Self::is_letter(ch) {
            self.pos = self.pos - 1;
            let literal = self.read_identifier();
            Token { token_type: look_up_keywords(literal.as_str()), literal }
        } else if Self::is_digit(ch) {
            self.pos = self.pos - 1;
            let literal = self.read_number();
            Token { token_type: TokenType::Number, literal }
        } else {
            Token::new(TokenType::Illegal, "")
        }
    }

    /// The next character, not consumed; `'\0'` at the end.
    pub fn peek_char(&self) -> (r: char)
        requires
            self.wf(),
        ensures
            r == char_at(self.text(), self.position()),
    {
        if self.pos == self.input.len() {
            '\0'
        } else {
            self.input[self.pos]
        }
    }

    /// Consumes the next character and returns it; at the end, or at a `'\0'`, returns
    /// `'\0'` and stays.
    pub fn next_char(&mut self) -> (r: char)
        requires
            old(self).wf(),
        ensures
            final(self).wf(),
            final(self).text() == old(self).text(),
            r == char_at(old(self).text(), old(self).position()),
            final(self).position() == if r == '\0' { old(self).position() } else { old(self).position() + 1 },
    {
        let next = self.peek_char();
        if next != '\0' {
            let n = self.input.len();
            assert(self.pos < n);
            self.pos = self.pos + 1;
        }
        next
    }

    /// Skips white space.
    pub fn consume_spaces(&mut self)
        requires
            old(self).wf(),
        ensures
            final(self).wf(),
            final(self).text() == old(self).text(),
            final(self).position() == skip_spaces(old(self).text(), old(self).position()),
    {
        loop
            invariant
                self.wf(),
                self.input@ == old(self).input@,
                skip_spaces(self.input@, self.pos as int) == skip_spaces(old(self).input@, old(self).pos as int),
            ensures
                self.wf(),
                self.input@ == old(self).input@,
                self.pos as int == skip_spaces(old(self).input@, old(self).pos as int),
            decreases self.input@.len() - self.pos,
        {
            let ch = self.peek_char();
            if ch != '\n' && ch != '\r' && ch != '\t' && ch != ' ' {
                assert(skip_spaces(self.input@, self.pos as int) == self.pos as int);
                break;
            }
            self.next_char();
        }
    }

    fn is_letter(ch: char) -> (r: bool)
        ensures
            r == is_letter_char(ch),
    {
        ch >= 'a' && ch <= 'z' || ch >= 'A' && ch <= 'Z'
    }

    fn is_digit(ch: char) -> (r: bool)
        ensures
            r == is_digit_char(ch),
    {
        ch >= '0' && ch <= '9'
    }

    /// Reads the run of letters at the position.
    fn read_identifier(&mut self) -> (r: String)
        requires
            old(self).wf(),
        ensures
            final(self).wf(),
            final(self).text() == old(self).text(),
            final(self).position() == letters_end(old(self).text(), old(self).position()),
            r@ == old(self).text().subrange(old(self).position(), final(self).position()),
    {
        let mut output = String::new();
        loop
            invariant
                self.wf(),
                self.input@ == old(self).input@,
                old(self).pos <= self.pos,
                letters_end(self.input@, self.pos as int) == letters_end(old(self).input@, old(self).pos as int),
                output@ == self.input@.subrange(old(self).pos as int, self.pos as int),
            ensures
                self.wf(),
                self.input@ == old(self).input@,
                self.pos as int == letters_end(old(self).input@, old(self).pos as int),
                output@ == self.input@.subrange(old(self).pos as int, self.pos as int),
            decreases self.input@.len() - self.pos,
        {
            let ch = self.peek_char();
            if Self::is_letter(ch) {
                push_char(&mut output, ch);
                self.next_char();
                assert(output@ =~= self.input@.subrange(old(self).pos as int, self.pos as int));
            } else {
                assert(letters_end(self.input@, self.pos as int) == self.pos as int);
                break;
            }
        }
        output
    }

    /// Reads the run of digits at the position.
    fn read_number(&mut self) -> (r: String)
        requires
            old(self).wf(),
        ensures
            final(self).wf(),
            final(self).text() == old(self).text(),
            final(self).position() == digits_end(old(self).text(), old(self).position()),
            r@ == old(self).text().subrange(old(self).position(), final(self).position()),
    {
        let mut output = String::new();
        loop
            invariant
                self.wf(),
                self.input@ == old(self).input@,
                old(self).pos <= self.pos,
                digits_end(self.input@, self.pos as int) == digits_end(old(self).input@, old(self).pos as int),
                output@ == self.input@.subrange(old(self).pos as int, self.pos as int),
            ensures
                self.wf(),
                self.input@ == old(self).input@,
                self.pos as int == digits_end(old(self).input@, old(self).pos as int),
                output@ == self.input@.subrange(old(self).pos as int, self.pos as int),
            decreases self.input@.len() - self.pos,
        {
            let ch = self.peek_char();
            if Self::is_digit(ch) {
                push_char(&mut output, ch);
                self.next_char();
                assert(output@ =~= self.input@.subrange(old(self).pos as int, self.pos as int));
            } else {
                assert(digits_end(self.input@, self.pos as int) == self.pos as int);
                break;
            }
        }
        output
    }

    /// Reads the text of a string literal whose opening quote was consumed, and its closing
    /// quote; `None` where the input ends first.
    pub fn read_string(&mut self) -> (r: Option<String>)
        requires
            old(self).wf(),
        ensures
            final(self).wf(),
            final(self).text() == old(self).text(),
            ({
                let e = quote_end(old(self).text(), old(self).position());
                if e < old(self).text().len() {
                    &&& r matches Some(s)
                    &&& s@ == old(self).text().subrange(old(self).position(), e)
                    &&& final(self).position() == e + 1
                } else {
                    &&& r is None
                    &&& final(self).position() == e
                }
            }),
    {
        let mut output = String::new();
        loop
            invariant
                self.wf(),
                self.input@ == old(self).input@,
                old(self).pos <= self.pos,
                quote_end(self.input@, self.pos as int) == quote_end(old(self).input@, old(self).pos as int),
                output@ == self.input@.subrange(old(self).pos as int, self.pos as int),
            decreases self.input@.len() - self.pos,
        {
            if self.pos == self.input.len() {
                return None;
            }
            let ch = self.input[self.pos];
            self.pos = self.pos + 1;
            if ch == '"' {
                return Some(output);
            }
            push_char(&mut output, ch);
            assert(output@ =~= self.input@.subrange(old(self).pos as int, self.pos as int));
        }
    }

    /// The scanned text stays within the text: its position is at most the text's length.
    pub proof fn lemma_position_in_text(&self)
        requires
            self.wf(),
        ensures
            0 <= self.position() <= self.text().len(),
    {
    }

    /// The text without its comments.
    fn remove_comment(input: &Vec<char>) -> (r: Vec<char>)
        ensures
            r@ == strip_comments(input@),
    {
        let mut output: Vec<char> = Vec::new();
        let mut in_comment = false;
        let mut i: usize = 0;
        while i < input.len()
            invariant
                i <= input@.len(),
                output@ == strip_comments(input@.subrange(0, i as int)),
                in_comment == in_comment_after(input@.subrange(0, i as int)),
            decreases input@.len() - i,
        {
            let ch = input[i];
            proof {
                let s = input@.subrange(0, i + 1);
                assert(s.drop_last() =~= input@.subrange(0, i as int));
                assert(s.last() == ch);
            }
            if ch == '{' {
                in_comment = true;
            } else if ch == '}' {
                in_comment = false;
            } else if !in_comment {
                output.push(ch);
            }
            i = i + 1;
        }
        assert(input@.subrange(0, i as int) =~= input@);
        output
    }
}

} // verus!
