//! The scanner: turns raw source text into classified tokens, one per
//! call, consuming whitespace and line comments between tokens.

use vstd::prelude::*;
use vstd::string::*;
use crate::error::CompileError;

verus! {

/// The closed set of token kinds: end of input, line break, literals,
/// identifiers, the reserved keywords, and the operators.
#[derive(Debug, PartialEq, Eq, Structural, Clone, Copy)]
pub enum TokenType {
    EOF,
    NEWLINE,
    NUMBER,
    IDENT,
    STRING,
    LABEL,
    GOTO,
    PRINT,
    INPUT,
    LET,
    IF,
    THEN,
    ENDIF,
    WHILE,
    REPEAT,
    ENDWHILE,
    EQ,
    PLUS,
    MINUS,
    ASTERISK,
    SLASH,
    EQEQ,
    NOTEQ,
    LT,
    LTEQ,
    GT,
    GTEQ,
}

/// An immutable token: the exact lexeme and its classification.
#[derive(Debug)]
pub struct Token {
    pub text: String,
    pub kind: TokenType,
}

impl Token {
    fn new(text: String, kind: TokenType) -> (t: Token)
        ensures
            t.text@ == text@,
            t.kind == kind,
    {
        Token { text, kind }
    }
}

/// What `char::is_alphabetic` returns for a character: it depends on the
/// character alone.
pub uninterp spec fn is_alphabetic_char(c: char) -> bool;

/// What `char::is_alphanumeric` returns for a character: it depends on the
/// character alone.
pub uninterp spec fn is_alphanumeric_char(c: char) -> bool;

/// Relies on `char::is_alphabetic`: whether the character has the Unicode
/// `Alphabetic` property, a fixed classification of the character alone.
pub assume_specification[ char::is_alphabetic ](c: char) -> (r: bool)
    ensures
        r == is_alphabetic_char(c),
;

/// Relies on `char::is_alphanumeric`: whether the character is alphabetic
/// or numeric, a fixed classification of the character alone.
pub assume_specification[ char::is_alphanumeric ](c: char) -> (r: bool)
    ensures
        r == is_alphanumeric_char(c),
;

/// Relies on `String::push`: appends exactly the one character.
#[verifier::external_body]
fn push_char(s: &mut String, c: char)
    ensures
        final(s)@ == old(s)@.push(c),
{
    s.push(c);
}

/// A one-character string.
fn char_string(c: char) -> (s: String)
    ensures
        s@ == seq![c],
{
    let mut s = String::new();
    push_char(&mut s, c);
    proof {
        assert(s@ =~= seq![c]);
    }
    s
}

/// A two-character string.
fn two_char_string(a: char, b: char) -> (s: String)
    ensures
        s@ == seq![a, b],
{
    let mut s = String::new();
    push_char(&mut s, a);
    push_char(&mut s, b);
    proof {
        assert(s@ =~= seq![a, b]);
    }
    s
}

/// Whitespace the scanner consumes between tokens. A newline is not among
/// these: it is itself a significant token.
pub open spec fn is_space(c: char) -> bool {
    c == ' ' || c == '\t' || c == '\r'
}

/// An ASCII decimal digit.
pub open spec fn is_digit(c: char) -> bool {
    48 <= c as u32 && c as u32 <= 57
}

fn is_digit_exec(c: char) -> (b: bool)
    ensures
        b == is_digit(c),
{
    let u = c as u32;
    48 <= u && u <= 57
}

/// A character that may not stand inside a string literal, because the
/// literal is spliced verbatim into a format string of the output.
pub open spec fn is_illegal_string_char(c: char) -> bool {
    c == '\r' || c == '\t' || c == '\n' || c == '\\' || c == '%'
}

/// The character of the source at a position, with an end-of-input
/// sentinel past the end.
pub open spec fn char_at(src: Seq<char>, p: int) -> char {
    if 0 <= p < src.len() {
        src[p]
    } else {
        '\0'
    }
}

/// The position after advancing the cursor once: it never moves past the
/// end of the source.
pub open spec fn next_pos(src: Seq<char>, p: int) -> int {
    if p < src.len() {
        p + 1
    } else {
        p
    }
}

/// The keyword kind for a lexeme, if the lexeme is one of the reserved
/// words (case-sensitive, exact match); `None` for every other lexeme.
pub open spec fn keyword_kind(s: Seq<char>) -> Option<TokenType> {
    if s == "LABEL"@ {
        Some(TokenType::LABEL)
    } else if s == "GOTO"@ {
        Some(TokenType::GOTO)
    } else if s == "PRINT"@ {
        Some(TokenType::PRINT)
    } else if s == "INPUT"@ {
        Some(TokenType::INPUT)
    } else if s == "LET"@ {
        Some(TokenType::LET)
    } else if s == "IF"@ {
        Some(TokenType::IF)
    } else if s == "THEN"@ {
        Some(TokenType::THEN)
    } else if s == "ENDIF"@ {
        Some(TokenType::ENDIF)
    } else if s == "WHILE"@ {
        Some(TokenType::WHILE)
    } else if s == "REPEAT"@ {
        Some(TokenType::REPEAT)
    } else if s == "ENDWHILE"@ {
        Some(TokenType::ENDWHILE)
    } else {
        None
    }
}

/// The kind of an identifier-shaped lexeme: its keyword kind if it is a
/// reserved word, else the generic identifier kind.
pub open spec fn ident_kind(text: Seq<char>) -> TokenType {
    match keyword_kind(text) {
        Some(k) => k,
        None => TokenType::IDENT,
    }
}

/// Where a run of whitespace starting at `p` ends.
pub open spec fn skip_ws_end(src: Seq<char>, p: int) -> int
    decreases src.len() - p,
{
    if 0 <= p < src.len() && is_space(src[p]) {
        skip_ws_end(src, p + 1)
    } else {
        p
    }
}

/// Where a comment starting at `p` ends: at the next newline (the newline
/// itself is not part of the comment), or at the end of the source.
pub open spec fn comment_end(src: Seq<char>, p: int) -> int
    decreases src.len() - p,
{
    if 0 <= p < src.len() && src[p] != '\n' {
        comment_end(src, p + 1)
    } else {
        p
    }
}

/// Where the next lexeme begins: after the whitespace at `p` and, if a
/// comment follows that whitespace, after the comment.
pub open spec fn skip_end(src: Seq<char>, p: int) -> int {
    let q = skip_ws_end(src, p);
    if char_at(src, q) == '#' {
        comment_end(src, q)
    } else {
        q
    }
}

/// Where a run of digits starting at `p` ends.
pub open spec fn digits_end(src: Seq<char>, p: int) -> int
    decreases src.len() - p,
{
    if 0 <= p < src.len() && is_digit(src[p]) {
        digits_end(src, p + 1)
    } else {
        p
    }
}

/// Where a run of alphanumeric characters starting at `p` ends.
pub open spec fn ident_end(src: Seq<char>, p: int) -> int
    decreases src.len() - p,
{
    if 0 <= p < src.len() && is_alphanumeric_char(src[p]) {
        ident_end(src, p + 1)
    } else {
        p
    }
}

/// Where the body of a string literal starting at `p` ends: at the first
/// closing quote or illegal character, whichever comes first.
pub open spec fn string_body_end(src: Seq<char>, p: int) -> int
    decreases src.len() - p,
{
    if 0 <= p < src.len() && src[p] != '"' && !is_illegal_string_char(src[p]) {
        string_body_end(src, p + 1)
    } else {
        p
    }
}

/// Whether a number lexeme starting at the digit at `q` is well formed: a
/// decimal point after the digit run must be followed by a digit.
pub open spec fn number_ok(src: Seq<char>, q: int) -> bool {
    let r = digits_end(src, q);
    char_at(src, r) == '.' ==> is_digit(char_at(src, r + 1))
}

/// Where a number lexeme starting at the digit at `q` ends.
pub open spec fn number_end(src: Seq<char>, q: int) -> int {
    let r = digits_end(src, q);
    if char_at(src, r) == '.' {
        digits_end(src, r + 1)
    } else {
        r
    }
}

/// Whether a string literal whose opening quote stands at `q` is well
/// formed: a closing quote comes before any illegal character.
pub open spec fn string_ok(src: Seq<char>, q: int) -> bool {
    char_at(src, string_body_end(src, q + 1)) == '"'
}

/// Whether a token can be read at position `q` (a position where
/// whitespace and comments have already been consumed).
pub open spec fn lex_ok(src: Seq<char>, q: int) -> bool {
    let c = char_at(src, q);
    if c == '+' || c == '-' || c == '*' || c == '/' || c == '=' || c == '>' || c == '<' || c == '\n'
        || c == '\0' {
        true
    } else if c == '!' {
        char_at(src, q + 1) == '='
    } else if c == '"' {
        string_ok(src, q)
    } else if is_digit(c) {
        number_ok(src, q)
    } else {
        is_alphabetic_char(c)
    }
}

/// The token read at position `q`, when `lex_ok` holds there: its kind,
/// its lexeme, and the cursor position after it.
pub open spec fn token_at(src: Seq<char>, q: int) -> (TokenType, Seq<char>, int) {
    let c = char_at(src, q);
    if c == '+' {
        (TokenType::PLUS, seq![c], q + 1)
    } else if c == '-' {
        (TokenType::MINUS, seq![c], q + 1)
    } else if c == '*' {
        (TokenType::ASTERISK, seq![c], q + 1)
    } else if c == '/' {
        (TokenType::SLASH, seq![c], q + 1)
    } else if c == '=' {
        if char_at(src, q + 1) == '=' {
            (TokenType::EQEQ, seq!['=', '='], q + 2)
        } else {
            (TokenType::EQ, seq![c], q + 1)
        }
    } else if c == '>' {
        if char_at(src, q + 1) == '=' {
            (TokenType::GTEQ, seq!['>', '='], q + 2)
        } else {
            (TokenType::GT, seq![c], q + 1)
        }
    } else if c == '<' {
        if char_at(src, q + 1) == '=' {
            (TokenType::LTEQ, seq!['<', '='], q + 2)
        } else {
            (TokenType::LT, seq![c], q + 1)
        }
    } else if c == '!' {
        (TokenType::NOTEQ, seq!['!', '='], q + 2)
    } else if c == '"' {
        let e = string_body_end(src, q + 1);
        (TokenType::STRING, src.subrange(q + 1, e), e + 1)
    } else if c == '\n' {
        (TokenType::NEWLINE, seq![c], q + 1)
    } else if c == '\0' {
        (TokenType::EOF, seq![c], next_pos(src, q))
    } else if is_digit(c) {
        let e = number_end(src, q);
        (TokenType::NUMBER, src.subrange(q, e), e)
    } else {
        let e = ident_end(src, q + 1);
        (ident_kind(src.subrange(q, e)), src.subrange(q, e), e)
    }
}

/// The error reported at position `q` when `lex_ok` does not hold there.
pub open spec fn lex_err_at(src: Seq<char>, q: int) -> CompileError {
    let c = char_at(src, q);
    if c == '!' {
        CompileError::LexExpectedNotEq(char_at(src, q + 1))
    } else if c == '"' {
        CompileError::LexIllegalStringChar(char_at(src, string_body_end(src, q + 1)))
    } else if is_digit(c) {
        CompileError::LexMalformedNumber
    } else {
        CompileError::LexUnknownChar(c)
    }
}

pub proof fn lemma_skip_ws_props(src: Seq<char>, p: int)
    requires
        0 <= p <= src.len(),
    ensures
        p <= skip_ws_end(src, p) <= src.len(),
        forall|j: int| p <= j < skip_ws_end(src, p) ==> is_space(#[trigger] src[j]),
    decreases src.len() - p,
{
    if p < src.len() && is_space(src[p]) {
        lemma_skip_ws_props(src, p + 1);
    }
}

pub proof fn lemma_comment_props(src: Seq<char>, p: int)
    requires
        0 <= p <= src.len(),
    ensures
        p <= comment_end(src, p) <= src.len(),
        forall|j: int| p <= j < comment_end(src, p) ==> #[trigger] src[j] != '\n',
    decreases src.len() - p,
{
    if p < src.len() && src[p] != '\n' {
        lemma_comment_props(src, p + 1);
    }
}

pub proof fn lemma_digits_end_bounds(src: Seq<char>, p: int)
    requires
        0 <= p <= src.len(),
    ensures
        p <= digits_end(src, p) <= src.len(),
    decreases src.len() - p,
{
    if p < src.len() && is_digit(src[p]) {
        lemma_digits_end_bounds(src, p + 1);
    }
}

pub proof fn lemma_ident_end_bounds(src: Seq<char>, p: int)
    requires
        0 <= p <= src.len(),
    ensures
        p <= ident_end(src, p) <= src.len(),
    decreases src.len() - p,
{
    if p < src.len() && is_alphanumeric_char(src[p]) {
        lemma_ident_end_bounds(src, p + 1);
    }
}

pub proof fn lemma_string_body_end_bounds(src: Seq<char>, p: int)
    requires
        0 <= p <= src.len(),
    ensures
        p <= string_body_end(src, p) <= src.len(),
    decreases src.len() - p,
{
    if p < src.len() && src[p] != '"' && !is_illegal_string_char(src[p]) {
        lemma_string_body_end_bounds(src, p + 1);
    }
}

/// The scanner drops no characters. Between the cursor position before a
/// token is read and the position after it lie exactly: a run of
/// whitespace, at most one comment (`#` up to the newline), and then the
/// token's own lexeme. A string literal stands in the source as its
/// stored text wrapped in its two quotes; the end-of-input token stands
/// for no source character (or for one embedded sentinel character).
/// Together with the contract of `get_token` (which returns `token_at`
/// and advances the cursor to its end), the token texts of a fully
/// scanned source, with the skipped whitespace and comments re-inserted,
/// cover the source losslessly.
pub proof fn lemma_scanner_lossless(src: Seq<char>, p: int)
    requires
        0 <= p <= src.len(),
        lex_ok(src, skip_end(src, p)),
    ensures
        ({
            let w = skip_ws_end(src, p);
            let q = skip_end(src, p);
            let t = token_at(src, q);
            &&& p <= w <= q <= src.len()
            &&& (forall|j: int| p <= j < w ==> is_space(#[trigger] src[j]))
            &&& (w < q ==> src[w] == '#' && (forall|j: int|
                w <= j < q ==> #[trigger] src[j] != '\n'))
            &&& q <= t.2 <= src.len()
            &&& (t.0 == TokenType::STRING ==> src.subrange(q, t.2) == seq!['"'] + t.1
                + seq!['"'])
            &&& (t.0 == TokenType::EOF ==> src.subrange(q, t.2) == if q < src.len() {
                t.1
            } else {
                Seq::<char>::empty()
            })
            &&& (t.0 != TokenType::STRING && t.0 != TokenType::EOF ==> src.subrange(q, t.2)
                == t.1)
        }),
{
    let w = skip_ws_end(src, p);
    let q = skip_end(src, p);
    let t = token_at(src, q);
    lemma_skip_ws_props(src, p);
    if char_at(src, w) == '#' {
        lemma_comment_props(src, w);
    }
    let c = char_at(src, q);
    if c == '+' || c == '-' || c == '*' || c == '/' || c == '\n' {
        assert(src.subrange(q, q + 1) =~= seq![c]);
    } else if c == '=' || c == '>' || c == '<' {
        if char_at(src, q + 1) == '=' {
            assert(src.subrange(q, q + 2) =~= seq![c, '=']);
        } else {
            assert(src.subrange(q, q + 1) =~= seq![c]);
        }
    } else if c == '!' {
        assert(src.subrange(q, q + 2) =~= seq!['!', '=']);
    } else if c == '"' {
        lemma_string_body_end_bounds(src, q + 1);
        let e = string_body_end(src, q + 1);
        assert(src[e] == '"');
        assert(src.subrange(q, e + 1) =~= seq!['"'] + src.subrange(q + 1, e) + seq!['"']);
    } else if c == '\0' {
        if q < src.len() {
            assert(src.subrange(q, q + 1) =~= seq!['\0']);
        } else {
            assert(src.subrange(q, q) =~= Seq::<char>::empty());
        }
    } else if is_digit(c) {
        lemma_digits_end_bounds(src, q);
        let r = digits_end(src, q);
        if char_at(src, r) == '.' {
            lemma_digits_end_bounds(src, r + 1);
        }
    } else {
        lemma_ident_end_bounds(src, q + 1);
    }
}

/// The scanner: owns the source (with one newline appended, so every
/// construct is newline-terminated) and a cursor that only moves forward.
pub struct Lexer {
    source: Vec<char>,
    current_char: char,
    current_pos: usize,
}

impl Lexer {
    /// The characters of the logical source (the given text plus the
    /// appended final newline).
    pub closed spec fn src(&self) -> Seq<char> {
        self.source@
    }

    /// The cursor: the index of the character under inspection.
    pub closed spec fn pos(&self) -> int {
        self.current_pos as int
    }

    /// Well-formedness: the cursor stays within the source (one past the
    /// last character at most), the source ends with the appended newline,
    /// and the character cache matches the cursor.
    pub closed spec fn wf(&self) -> bool {
        &&& self.current_pos <= self.source.len()
        &&& self.source@.len() >= 1
        &&& self.source@.last() == '\n'
        &&& self.current_char == char_at(self.source@, self.current_pos as int)
    }

    /// A well-formed scanner's cursor stays within its source.
    pub broadcast proof fn lemma_wf_pos_bounds(l: Lexer)
        requires
            l.wf(),
        ensures
            0 <= #[trigger] l.pos() <= l.src().len(),
            l.src().len() >= 1,
    {
    }

    /// A scanner over the given text, with the cursor at the first
    /// character of the logical source.
    #[verifier::loop_isolation(false)]
    pub fn new(source: String) -> (l: Lexer)
        ensures
            l.wf(),
            l.src() == source@ + seq!['\n'],
            l.pos() == 0,
    {
        let s = source.as_str();
        let n = s.unicode_len();
        let mut chars: Vec<char> = Vec::new();
        let mut i: usize = 0;
        while i < n
            invariant
                i <= n,
                n == s@.len(),
                chars@ == s@.subrange(0, i as int),
            decreases n - i,
        {
            let c = s.get_char(i);
            chars.push(c);
            proof {
                assert(s@.subrange(0, i + 1) =~= s@.subrange(0, i as int).push(s@[i as int]));
            }
            i = i + 1;
        }
        proof {
            assert(s@.subrange(0, n as int) =~= s@);
        }
        chars.push('\n');
        proof {
            assert(chars@ =~= source@ + seq!['\n']);
        }
        let current_char = chars[0];
        Lexer { source: chars, current_char, current_pos: 0 }
    }

    /// Advances the cursor one character; at the end of the source it
    /// stays put and the sentinel remains under inspection.
    pub fn next_char(&mut self)
        requires
            old(self).wf(),
        ensures
            final(self).wf(),
            final(self).src() == old(self).src(),
            final(self).pos() == next_pos(old(self).src(), old(self).pos()),
    {
        if self.current_pos < self.source.len() {
            self.current_pos = self.current_pos + 1;
        }
        if self.current_pos >= self.source.len() {
            self.current_char = '\0';
        } else {
            self.current_char = self.source[self.current_pos];
        }
    }

    /// The character one past the cursor, or the sentinel past the end.
    pub fn peek(&self) -> (c: char)
        requires
            self.wf(),
        ensures
            c == char_at(self.src(), self.pos() + 1),
    {
        if self.source.len() - self.current_pos <= 1 {
            '\0'
        } else {
            self.source[self.current_pos + 1]
        }
    }

    /// Consumes spaces, tabs and carriage returns (not newlines, which are
    /// significant).
    #[verifier::loop_isolation(false)]
    fn skip_whitespace(&mut self)
        requires
            old(self).wf(),
        ensures
            final(self).wf(),
            final(self).src() == old(self).src(),
            final(self).pos() == skip_ws_end(old(self).src(), old(self).pos()),
            final(self).pos() >= old(self).pos(),
    {
        let ghost src = self.src();
        let ghost p0 = self.pos();
        while self.current_char == ' ' || self.current_char == '\t' || self.current_char == '\r'
            invariant
                self.wf(),
                self.src() == src,
                self.pos() >= p0,
                skip_ws_end(src, p0) == skip_ws_end(src, self.pos()),
            decreases src.len() - self.pos(),
        {
            proof {
                assert(skip_ws_end(src, self.pos()) == skip_ws_end(src, self.pos() + 1));
            }
            self.next_char();
        }
    }

    /// Consumes a line comment, if one starts at the cursor: everything
    /// from `#` up to (not including) the next newline.
    #[verifier::loop_isolation(false)]
    fn skip_comments(&mut self)
        requires
            old(self).wf(),
        ensures
            final(self).wf(),
            final(self).src() == old(self).src(),
            final(self).pos() == if char_at(old(self).src(), old(self).pos()) == '#' {
                comment_end(old(self).src(), old(self).pos())
            } else {
                old(self).pos()
            },
            final(self).pos() >= old(self).pos(),
    {
        let ghost src = self.src();
        let ghost p0 = self.pos();
        if self.current_char == '#' {
            while self.current_char != '\n'
                invariant
                    self.wf(),
                    self.src() == src,
                    self.pos() >= p0,
                    self.pos() < src.len(),
                    comment_end(src, p0) == comment_end(src, self.pos()),
                decreases src.len() - self.pos(),
            {
                proof {
                    assert(comment_end(src, self.pos()) == comment_end(src, self.pos() + 1));
                    assert(self.pos() < src.len() - 1) by {
                        assert(src[src.len() - 1] == '\n');
                    }
                }
                self.next_char();
            }
        }
    }

    /// Looks a lexeme up in the fixed keyword table.
    fn check_if_keyword(&self, text: String) -> (r: Option<TokenType>)
        ensures
            r == keyword_kind(text@),
    {
        if text == "LABEL".to_owned() {
            Some(TokenType::LABEL)
        } else if text == "GOTO".to_owned() {
            Some(TokenType::GOTO)
        } else if text == "PRINT".to_owned() {
            Some(TokenType::PRINT)
        } else if text == "INPUT".to_owned() {
            Some(TokenType::INPUT)
        } else if text == "LET".to_owned() {
            Some(TokenType::LET)
        } else if text == "IF".to_owned() {
            Some(TokenType::IF)
        } else if text == "THEN".to_owned() {
            Some(TokenType::THEN)
        } else if text == "ENDIF".to_owned() {
            Some(TokenType::ENDIF)
        } else if text == "WHILE".to_owned() {
            Some(TokenType::WHILE)
        } else if text == "REPEAT".to_owned() {
            Some(TokenType::REPEAT)
        } else if text == "ENDWHILE".to_owned() {
            Some(TokenType::ENDWHILE)
        } else {
            None
        }
    }

    /// Copies the characters of `self.source` in `[from, to)` into a string.
    #[verifier::loop_isolation(false)]
    fn collect_text(&self, from: usize, to: usize) -> (s: String)
        requires
            from <= to <= self.src().len(),
        ensures
            s@ == self.src().subrange(from as int, to as int),
    {
        let mut s = String::new();
        let mut i: usize = from;
        while i < to
            invariant
                from <= i <= to <= self.src().len(),
                s@ == self.src().subrange(from as int, i as int),
            decreases to - i,
        {
            push_char(&mut s, self.source[i]);
            proof {
                assert(self.src().subrange(from as int, i + 1) =~= self.src().subrange(
                    from as int,
                    i as int,
                ).push(self.src()[i as int]));
            }
            i = i + 1;
        }
        s
    }

    /// Reads a number lexeme: the cursor stands on its first digit, and is
    /// left on its last character.
    #[verifier::loop_isolation(false)]
    fn read_number(&mut self) -> (r: Result<Token, CompileError>)
        requires
            old(self).wf(),
            is_digit(char_at(old(self).src(), old(self).pos())),
        ensures
            final(self).wf(),
            final(self).src() == old(self).src(),
            final(self).pos() >= old(self).pos(),
            r is Ok <==> number_ok(old(self).src(), old(self).pos()),
            r matches Ok(t) ==> {
                &&& t.kind == TokenType::NUMBER
                &&& t.text@ == old(self).src().subrange(
                    old(self).pos(),
                    number_end(old(self).src(), old(self).pos()),
                )
                &&& final(self).pos() == number_end(old(self).src(), old(self).pos()) - 1
                &&& final(self).pos() < old(self).src().len()
            },
            r is Err ==> r == Err::<Token, CompileError>(CompileError::LexMalformedNumber),
    {
        let ghost src = self.src();
        let ghost q = self.pos();
        let start = self.current_pos;
        while self.current_pos + 1 < self.source.len() && is_digit_exec(
            self.source[self.current_pos + 1],
        )
            invariant
                self.wf(),
                self.src() == src,
                q <= self.pos() < src.len(),
                digits_end(src, q) == digits_end(src, self.pos() + 1),
            decreases src.len() - self.pos(),
        {
            proof {
                assert(digits_end(src, self.pos() + 1) == digits_end(src, self.pos() + 2));
            }
            self.next_char();
        }
        proof {
            assert(digits_end(src, self.pos() + 1) == self.pos() + 1);
        }
        let ghost r_end = digits_end(src, q);
        if self.peek() == '.' {
            self.next_char();
            if !is_digit_exec(self.peek()) {
                return Err(CompileError::LexMalformedNumber);
            }
            let ghost dot = self.pos();
            while self.current_pos + 1 < self.source.len() && is_digit_exec(
                self.source[self.current_pos + 1],
            )
                invariant
                    self.wf(),
                    self.src() == src,
                    dot == r_end,
                    dot <= self.pos() < src.len(),
                    is_digit(char_at(src, self.pos())) || self.pos() == dot,
                    digits_end(src, r_end + 1) == digits_end(src, self.pos() + 1),
                decreases src.len() - self.pos(),
            {
                proof {
                    assert(digits_end(src, self.pos() + 1) == digits_end(src, self.pos() + 2));
                }
                self.next_char();
            }
            proof {
                assert(digits_end(src, self.pos() + 1) == self.pos() + 1);
            }
        }
        let text = self.collect_text(start, self.current_pos + 1);
        Ok(Token::new(text, TokenType::NUMBER))
    }

    /// Reads an identifier or keyword lexeme: the cursor stands on its
    /// alphabetic first character, and is left on its last character.
    #[verifier::loop_isolation(false)]
    fn read_ident(&mut self) -> (t: Token)
        requires
            old(self).wf(),
            old(self).pos() < old(self).src().len(),
        ensures
            final(self).wf(),
            final(self).src() == old(self).src(),
            final(self).pos() >= old(self).pos(),
            ({
                let src = old(self).src();
                let q = old(self).pos();
                let e = ident_end(src, q + 1);
                &&& t.kind == ident_kind(src.subrange(q, e))
                &&& t.text@ == src.subrange(q, e)
                &&& final(self).pos() == e - 1
                &&& final(self).pos() < old(self).src().len()
            }),
    {
        let ghost src = self.src();
        let ghost q = self.pos();
        let start = self.current_pos;
        while self.current_pos + 1 < self.source.len() && self.source[self.current_pos
            + 1].is_alphanumeric()
            invariant
                self.wf(),
                self.src() == src,
                q <= self.pos() < src.len(),
                ident_end(src, q + 1) == ident_end(src, self.pos() + 1),
            decreases src.len() - self.pos(),
        {
            proof {
                assert(ident_end(src, self.pos() + 1) == ident_end(src, self.pos() + 2));
            }
            self.next_char();
        }
        proof {
            assert(ident_end(src, self.pos() + 1) == self.pos() + 1);
        }
        let text = self.collect_text(start, self.current_pos + 1);
        let kind = match self.check_if_keyword(text.clone()) {
            Some(keyword) => keyword,
            None => TokenType::IDENT,
        };
        Token::new(text, kind)
    }

    /// Reads a string literal: the cursor stands on the opening quote, and
    /// is left on the closing quote. Carriage return, tab, newline,
    /// backslash and `%` may not stand inside the literal.
    #[verifier::loop_isolation(false)]
    fn read_string(&mut self) -> (r: Result<Token, CompileError>)
        requires
            old(self).wf(),
            char_at(old(self).src(), old(self).pos()) == '"',
        ensures
            final(self).wf(),
            final(self).src() == old(self).src(),
            final(self).pos() >= old(self).pos(),
            r is Ok <==> string_ok(old(self).src(), old(self).pos()),
            r matches Ok(t) ==> {
                let e = string_body_end(old(self).src(), old(self).pos() + 1);
                &&& t.kind == TokenType::STRING
                &&& t.text@ == old(self).src().subrange(old(self).pos() + 1, e)
                &&& final(self).pos() == e
                &&& final(self).pos() < old(self).src().len()
            },
            r is Err ==> r == Err::<Token, CompileError>(
                CompileError::LexIllegalStringChar(
                    char_at(
                        old(self).src(),
                        string_body_end(old(self).src(), old(self).pos() + 1),
                    ),
                ),
            ),
    {
        let ghost src = self.src();
        let ghost q = self.pos();
        proof {
            assert(q < src.len() - 1) by {
                assert(src[src.len() - 1] == '\n');
            }
        }
        self.next_char();
        let start = self.current_pos;
        while self.current_char != '"'
            invariant
                self.wf(),
                self.src() == src,
                q + 1 <= self.pos() <= src.len() - 1,
                string_body_end(src, q + 1) == string_body_end(src, self.pos()),
            decreases src.len() - self.pos(),
        {
            let c = self.current_char;
            if c == '\r' || c == '\t' || c == '\n' || c == '\\' || c == '%' {
                return Err(CompileError::LexIllegalStringChar(c));
            }
            proof {
                assert(string_body_end(src, self.pos()) == string_body_end(src, self.pos() + 1));
                assert(self.pos() < src.len() - 1) by {
                    assert(src[src.len() - 1] == '\n');
                }
            }
            self.next_char();
        }
        let text = self.collect_text(start, self.current_pos);
        Ok(Token::new(text, TokenType::STRING))
    }

    /// Produces the next token: consumes whitespace and at most one line
    /// comment, classifies exactly one lexeme, and leaves the cursor on
    /// the character after it. At the end of the source it keeps
    /// producing end-of-input tokens. A malformed lexeme aborts the run.
    pub fn get_token(&mut self) -> (r: Result<Token, CompileError>)
        requires
            old(self).wf(),
        ensures
            final(self).wf(),
            final(self).src() == old(self).src(),
            final(self).pos() >= old(self).pos(),
            ({
                let src = old(self).src();
                let q = skip_end(src, old(self).pos());
                &&& (r is Ok <==> lex_ok(src, q))
                &&& (r matches Ok(t) ==> {
                    &&& t.kind == token_at(src, q).0
                    &&& t.text@ == token_at(src, q).1
                    &&& final(self).pos() == token_at(src, q).2
                })
                &&& (r is Err ==> r == Err::<Token, CompileError>(lex_err_at(src, q)))
            }),
            r is Ok && old(self).pos() < old(self).src().len() ==> final(self).pos() > old(
                self,
            ).pos(),
            old(self).pos() == old(self).src().len() ==> final(self).pos() == old(self).pos() && (
            r matches Ok(t) && t.kind == TokenType::EOF),
    {
        let ghost src = self.src();
        let ghost p0 = self.pos();
        self.skip_whitespace();
        self.skip_comments();
        let ghost q = self.pos();
        proof {
            assert(q == skip_end(src, p0));
        }
        let c = self.current_char;
        let token: Token;
        if c == '+' {
            token = Token::new(char_string(c), TokenType::PLUS);
        } else if c == '-' {
            token = Token::new(char_string(c), TokenType::MINUS);
        } else if c == '*' {
            token = Token::new(char_string(c), TokenType::ASTERISK);
        } else if c == '/' {
            token = Token::new(char_string(c), TokenType::SLASH);
        } else if c == '=' {
            if self.peek() == '=' {
                self.next_char();
                token = Token::new(two_char_string('=', '='), TokenType::EQEQ);
            } else {
                token = Token::new(char_string(c), TokenType::EQ);
            }
        } else if c == '>' {
            if self.peek() == '=' {
                self.next_char();
                token = Token::new(two_char_string('>', '='), TokenType::GTEQ);
            } else {
                token = Token::new(char_string(c), TokenType::GT);
            }
        } else if c == '<' {
            if self.peek() == '=' {
                self.next_char();
                token = Token::new(two_char_string('<', '='), TokenType::LTEQ);
            } else {
                token = Token::new(char_string(c), TokenType::LT);
            }
        } else if c == '!' {
            if self.peek() == '=' {
                self.next_char();
                token = Token::new(two_char_string('!', '='), TokenType::NOTEQ);
            } else {
                return Err(CompileError::LexExpectedNotEq(self.peek()));
            }
        } else if c == '"' {
            token = match self.read_string() {
                Ok(t) => t,
                Err(e) => return Err(e),
            };
        } else if c == '\n' {
            token = Token::new(char_string(c), TokenType::NEWLINE);
        } else if c == '\0' {
            token = Token::new(char_string(c), TokenType::EOF);
        } else if is_digit_exec(c) {
            token = match self.read_number() {
                Ok(t) => t,
                Err(e) => return Err(e),
            };
        } else if c.is_alphabetic() {
            token = self.read_ident();
        } else {
            return Err(CompileError::LexUnknownChar(c));
        }
        self.next_char();
        Ok(token)
    }
}

} // verus!
