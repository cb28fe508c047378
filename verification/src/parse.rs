//! The translator: a recursive-descent parser over a two-token window
//! that generates target text as it recognizes each production, keeps a
//! symbol table for first-use declarations, and validates labeled jumps
//! at the end of the run.

use vstd::prelude::*;
use vstd::string::*;
use crate::emit::Emitter;
use crate::error::CompileError;
use crate::lex::{lex_err_at, lex_ok, skip_end, token_at, Lexer, Token, TokenType};
use crate::seqs::{
    contains_at, ends_with, grows, lemma_contains_at_end, lemma_grows_concat, lemma_grows_eq, lemma_subrange_full,
    lemma_grows_contains, lemma_grows_preserves_contains_at, lemma_grows_push, lemma_grows_refl,
    lemma_grows_split, lemma_grows_trans, views_of,
};

verus! {

broadcast use crate::lex::Lexer::lemma_wf_pos_bounds, lemma_grows_refl, lemma_grows_concat, lemma_grows_push, lemma_subrange_full;

/// The one-time declaration line generated for a variable.
pub open spec fn decl_text(name: Seq<char>) -> Seq<char> {
    "float "@ + name + ";"@ + "\n"@
}

/// The header holds the one-time declaration of `name` somewhere.
pub open spec fn declares(header: Seq<char>, name: Seq<char>) -> bool {
    exists|k: int| contains_at(header, decl_text(name), k)
}

/// The header holds a one-time declaration for every name in the list.
pub open spec fn all_declared(header: Seq<char>, names: Seq<Seq<char>>) -> bool {
    forall|i: int| 0 <= i < names.len() ==> declares(header, #[trigger] names[i])
}

pub proof fn lemma_grows_preserves_declares(now: Seq<char>, before: Seq<char>, name: Seq<char>)
    requires
        grows(now, before),
        declares(before, name),
    ensures
        declares(now, name),
{
    let k = choose|k: int| contains_at(before, decl_text(name), k);
    lemma_grows_preserves_contains_at(now, before, decl_text(name), k);
}

/// Does the token kind open a statement?
pub open spec fn is_statement_start(k: TokenType) -> bool {
    ||| k == TokenType::PRINT
    ||| k == TokenType::IF
    ||| k == TokenType::WHILE
    ||| k == TokenType::LABEL
    ||| k == TokenType::GOTO
    ||| k == TokenType::LET
    ||| k == TokenType::INPUT
}

/// Is the token kind one of the six comparison operators?
pub open spec fn is_comparator(k: TokenType) -> bool {
    ||| k == TokenType::GT
    ||| k == TokenType::GTEQ
    ||| k == TokenType::LT
    ||| k == TokenType::LTEQ
    ||| k == TokenType::EQEQ
    ||| k == TokenType::NOTEQ
}

/// No name stands twice in the list.
pub open spec fn distinct(names: Seq<Seq<char>>) -> bool {
    forall|i: int, j: int| 0 <= i < j < names.len() ==> names[i] != names[j]
}

/// The errors a bare window shift can raise: a lexical fault from the
/// scanner, or an expected-token mismatch.
pub open spec fn is_stream_error(e: CompileError) -> bool {
    ||| e is LexExpectedNotEq
    ||| e is LexIllegalStringChar
    ||| e is LexMalformedNumber
    ||| e is LexUnknownChar
    ||| e is ParseExpectedToken
}

pub open spec fn is_add_op(k: TokenType) -> bool {
    k == TokenType::PLUS || k == TokenType::MINUS
}

pub open spec fn is_mul_op(k: TokenType) -> bool {
    k == TokenType::ASTERISK || k == TokenType::SLASH
}

/// Whether a name stands in a collected list of names.
fn contains_name(names: &Vec<String>, name: &String) -> (b: bool)
    ensures
        b == views_of(names@).contains(name@),
{
    let mut i: usize = 0;
    while i < names.len()
        invariant
            i <= names.len(),
            forall|j: int| 0 <= j < i ==> names@[j]@ != name@,
        decreases names.len() - i,
    {
        if names[i] == *name {
            proof {
                assert(views_of(names@)[i as int] == name@);
            }
            return true;
        }
        i = i + 1;
    }
    proof {
        assert forall|j: int| 0 <= j < views_of(names@).len() implies views_of(names@)[j]
            != name@ by {
            assert(views_of(names@)[j] == names@[j]@);
        }
    }
    false
}

/// The translator. It owns its scanner and its sink for the whole run,
/// pulls tokens on demand into a two-token window, and writes generated
/// text the moment each production is recognized.
pub struct Parser {
    lexer: Lexer,
    pub emitter: Emitter,
    current_token: Token,
    peek_token: Token,
    symbols: Vec<String>,
    labels_declared: Vec<String>,
    labels_gotoed: Vec<String>,
    consumed: Ghost<Seq<char>>,
}

impl Parser {
    /// The sink the translator writes generated text into.
    pub closed spec fn sink(&self) -> Emitter {
        self.emitter
    }

    /// The texts of the tokens the translator has fully consumed (shifted
    /// out of the two-token window), concatenated in source order. The
    /// expression layer's contracts tie its generated text to this: what
    /// an expression emits is exactly what it consumed.
    pub closed spec fn consumed(&self) -> Seq<char> {
        self.consumed@
    }

    /// The token under inspection.
    pub closed spec fn cur(&self) -> Token {
        self.current_token
    }

    /// The token one ahead of the one under inspection.
    pub closed spec fn peeked(&self) -> Token {
        self.peek_token
    }

    /// The scanner's logical source.
    pub closed spec fn src(&self) -> Seq<char> {
        self.lexer.src()
    }

    /// The scanner's cursor position.
    pub closed spec fn lex_pos(&self) -> int {
        self.lexer.pos()
    }

    /// The identifiers declared so far (by `LET` or `INPUT`), in order of
    /// first use.
    pub closed spec fn symbols_view(&self) -> Seq<Seq<char>> {
        views_of(self.symbols@)
    }

    /// The label names declared so far, in order of declaration.
    pub closed spec fn labels_declared_view(&self) -> Seq<Seq<char>> {
        views_of(self.labels_declared@)
    }

    /// The label names referenced by `GOTO` so far, in order of reference.
    pub closed spec fn labels_gotoed_view(&self) -> Seq<Seq<char>> {
        views_of(self.labels_gotoed@)
    }

    /// How much input is left to consume: the unread part of the source
    /// plus the tokens still in flight in the window. Every recognition
    /// step strictly shrinks it.
    pub closed spec fn remaining(&self) -> int {
        2 * (self.src().len() - self.lex_pos()) + (if self.cur().kind != TokenType::EOF {
            1int
        } else {
            0int
        }) + (if self.peeked().kind != TokenType::EOF {
            1int
        } else {
            0int
        })
    }

    /// Well-formedness: the scanner is well formed, every identifier in
    /// the symbol table has its one-time declaration in the header buffer,
    /// and the symbol table and the label-declared list hold each name at
    /// most once (they are sets, kept in first-use order).
    pub closed spec fn wf(&self) -> bool {
        &&& self.lexer.wf()
        &&& all_declared(self.emitter.header(), self.symbols_view())
        &&& distinct(self.symbols_view())
        &&& distinct(self.labels_declared_view())
    }

    /// Can the scanner read one more token without fault?
    pub open spec fn next_lex_ok(&self) -> bool {
        lex_ok(self.src(), skip_end(self.src(), self.lex_pos()))
    }

    /// The token the scanner will produce next, as the specification
    /// computes it: kind, lexeme, and the cursor position after it.
    pub open spec fn next_spec_token(&self) -> (TokenType, Seq<char>, int) {
        token_at(self.src(), skip_end(self.src(), self.lex_pos()))
    }

    /// Does a token of this kind and lexeme stand for a one-token
    /// expression here: a number, or an identifier already in the symbol
    /// table?
    pub open spec fn primary_token(&self, kind: TokenType, text: Seq<char>) -> bool {
        kind == TokenType::NUMBER || (kind == TokenType::IDENT && self.symbols_view().contains(
            text,
        ))
    }

    /// After a two-token statement, the source must continue with exactly
    /// one newline and then a token that is no further newline, with every
    /// scanner step along the way free of lexical faults: the trailing
    /// newline run of the statement then succeeds.
    pub open spec fn simple_statement_tail(&self) -> bool {
        let src = self.src();
        let second = self.next_spec_token();
        let q3 = skip_end(src, second.2);
        let third = token_at(src, q3);
        &&& self.next_lex_ok()
        &&& lex_ok(src, q3)
        &&& second.0 == TokenType::NEWLINE
        &&& third.0 != TokenType::NEWLINE
        &&& lex_ok(src, skip_end(src, third.2))
    }

    /// Every label referenced so far is declared.
    pub open spec fn labels_resolvable(&self) -> bool {
        forall|l: Seq<char>|
            self.labels_gotoed_view().contains(l) ==> self.labels_declared_view().contains(l)
    }

    /// The source holds exactly one `GOTO` statement and then ends.
    pub open spec fn single_goto_program(&self) -> bool {
        &&& self.simple_goto()
        &&& self.after_tail_kind() == TokenType::EOF
    }

    /// The source holds exactly one `LABEL` statement and then ends.
    pub open spec fn single_label_program(&self) -> bool {
        &&& self.simple_label()
        &&& self.after_tail_kind() == TokenType::EOF
    }

    /// The kind of the token that stands after a two-token statement and
    /// its newline: the token the window will hold once the statement is
    /// fully recognized.
    pub open spec fn after_tail_kind(&self) -> TokenType {
        token_at(self.src(), skip_end(self.src(), self.next_spec_token().2)).0
    }

    /// The token that stands second after a two-token statement and its
    /// newline: the token the window will peek at once the statement is
    /// fully recognized.
    pub open spec fn tail_follow_token(&self) -> (TokenType, Seq<char>, int) {
        let src = self.src();
        let second = self.next_spec_token();
        let third = token_at(src, skip_end(src, second.2));
        token_at(src, skip_end(src, third.2))
    }

    /// The source declares the same label twice in a row: the run must
    /// abort with the duplicate-label error.
    pub open spec fn double_label_program(&self) -> bool {
        let src = self.src();
        let follow = self.tail_follow_token();
        &&& self.simple_label()
        &&& self.after_tail_kind() == TokenType::LABEL
        &&& follow.1 == self.peeked().text@
        &&& lex_ok(src, skip_end(src, follow.2))
    }

    /// The kind of the token that stands after a simple `LET` statement
    /// and its newline.
    pub open spec fn after_let_kind(&self) -> TokenType {
        let src = self.src();
        let second = self.next_spec_token();
        let third = token_at(src, skip_end(src, second.2));
        let fourth = token_at(src, skip_end(src, third.2));
        token_at(src, skip_end(src, fourth.2)).0
    }

    /// The window holds `PRINT` of an identifier that was never assigned:
    /// the run must abort naming that identifier.
    pub open spec fn print_of_unassigned(&self) -> bool {
        &&& self.cur().kind == TokenType::PRINT
        &&& self.peeked().kind == TokenType::IDENT
        &&& !self.symbols_view().contains(self.peeked().text@)
        &&& self.next_lex_ok()
    }

    /// The window holds `IF` whose condition is a one-token expression
    /// followed directly by a token that is no comparison operator: the
    /// run must abort demanding a comparator.
    pub open spec fn if_without_comparator(&self) -> bool {
        let src = self.src();
        let second = self.next_spec_token();
        &&& self.cur().kind == TokenType::IF
        &&& self.primary_token(self.peeked().kind, self.peeked().text@)
        &&& self.next_lex_ok()
        &&& lex_ok(src, skip_end(src, second.2))
        &&& !is_add_op(second.0)
        &&& !is_mul_op(second.0)
        &&& !is_comparator(second.0)
    }

    /// The source holds exactly one statement that touches no label
    /// bookkeeping (an `INPUT`, a `PRINT`, or a simple `LET`), and then
    /// ends.
    pub open spec fn single_plain_program(&self) -> bool {
        ||| ((self.simple_input() || self.simple_print_string() || self.simple_print_expr())
            && self.after_tail_kind() == TokenType::EOF)
        ||| (self.simple_let() && self.after_let_kind() == TokenType::EOF)
    }

    /// The window and the next tokens of the source hold a well-formed
    /// `GOTO` statement: the keyword, an identifier, and its newline.
    pub open spec fn simple_goto(&self) -> bool {
        &&& self.cur().kind == TokenType::GOTO
        &&& self.peeked().kind == TokenType::IDENT
        &&& self.simple_statement_tail()
    }

    /// The window and the next tokens of the source hold a well-formed
    /// `LABEL` statement for a name not yet declared: the keyword, an
    /// identifier, and its newline.
    pub open spec fn simple_label(&self) -> bool {
        &&& self.cur().kind == TokenType::LABEL
        &&& self.peeked().kind == TokenType::IDENT
        &&& !self.labels_declared_view().contains(self.peeked().text@)
        &&& self.simple_statement_tail()
    }

    /// The window and the next tokens of the source hold a well-formed
    /// `INPUT` statement: the keyword, an identifier, and its newline.
    pub open spec fn simple_input(&self) -> bool {
        &&& self.cur().kind == TokenType::INPUT
        &&& self.peeked().kind == TokenType::IDENT
        &&& self.simple_statement_tail()
    }

    /// The window and the next tokens of the source hold a well-formed
    /// string print: the keyword, a string literal, and its newline.
    pub open spec fn simple_print_string(&self) -> bool {
        &&& self.cur().kind == TokenType::PRINT
        &&& self.peeked().kind == TokenType::STRING
        &&& self.simple_statement_tail()
    }

    /// The window and the next tokens of the source hold a well-formed
    /// expression print whose expression is a single number or an already
    /// assigned identifier, followed by its newline.
    pub open spec fn simple_print_expr(&self) -> bool {
        &&& self.cur().kind == TokenType::PRINT
        &&& self.primary_token(self.peeked().kind, self.peeked().text@)
        &&& self.simple_statement_tail()
    }

    /// The window and the next tokens of the source hold a well-formed
    /// `LET` statement whose right-hand side is a single number or an
    /// assignable identifier (one already in the table, or the assigned
    /// variable itself), followed by its newline.
    pub open spec fn simple_let(&self) -> bool {
        let src = self.src();
        let second = self.next_spec_token();
        let third = token_at(src, skip_end(src, second.2));
        let fourth = token_at(src, skip_end(src, third.2));
        let fifth = token_at(src, skip_end(src, fourth.2));
        &&& self.cur().kind == TokenType::LET
        &&& self.peeked().kind == TokenType::IDENT
        &&& self.next_lex_ok()
        &&& lex_ok(src, skip_end(src, second.2))
        &&& lex_ok(src, skip_end(src, third.2))
        &&& lex_ok(src, skip_end(src, fourth.2))
        &&& lex_ok(src, skip_end(src, fifth.2))
        &&& second.0 == TokenType::EQ
        &&& (third.0 == TokenType::NUMBER || (third.0 == TokenType::IDENT && (
        self.symbols_view().contains(third.1) || third.1 == self.peeked().text@)))
        &&& fourth.0 == TokenType::NEWLINE
        &&& fifth.0 != TokenType::NEWLINE
    }

    /// The window and the next tokens of the source hold the simplest
    /// well-formed comparison: a one-token expression, one comparison
    /// operator, a one-token expression, and then a token that continues
    /// no expression — with every scanner step along the way free of
    /// lexical faults.
    pub open spec fn simple_comparison(&self) -> bool {
        let src = self.src();
        let second = self.next_spec_token();
        let after_q = skip_end(src, second.2);
        let after = token_at(src, after_q);
        &&& self.primary_token(self.cur().kind, self.cur().text@)
        &&& is_comparator(self.peeked().kind)
        &&& self.next_lex_ok()
        &&& self.primary_token(second.0, second.1)
        &&& lex_ok(src, after_q)
        &&& !is_add_op(after.0)
        &&& !is_mul_op(after.0)
        &&& !is_comparator(after.0)
        &&& lex_ok(src, skip_end(src, after.2))
    }

    /// The window holds a one-token expression (a number, or an identifier
    /// already in the symbol table) followed by no further operator, and
    /// the scanner can read the token after the window without fault.
    pub open spec fn simple_primary(&self) -> bool {
        &&& self.primary_token(self.cur().kind, self.cur().text@)
        &&& !is_add_op(self.peeked().kind)
        &&& !is_mul_op(self.peeked().kind)
        &&& self.next_lex_ok()
    }

    /// A translator over the given scanner and sink, with the two-token
    /// window primed. The first two tokens are read here; a fault in them
    /// aborts the run at once.
    pub fn new(lexer: Lexer, emitter: Emitter) -> (r: Result<Parser, CompileError>)
        requires
            lexer.wf(),
        ensures
            r matches Ok(p) ==> {
                &&& p.wf()
                &&& p.sink() == emitter
                &&& p.src() == lexer.src()
                &&& p.symbols_view() == Seq::<Seq<char>>::empty()
                &&& p.labels_declared_view() == Seq::<Seq<char>>::empty()
                &&& p.labels_gotoed_view() == Seq::<Seq<char>>::empty()
                &&& p.consumed() == Seq::<char>::empty()
                &&& ({
                    let src = lexer.src();
                    let q0 = skip_end(src, lexer.pos());
                    let t0 = token_at(src, q0);
                    let q1 = skip_end(src, t0.2);
                    let t1 = token_at(src, q1);
                    &&& lex_ok(src, q0)
                    &&& lex_ok(src, q1)
                    &&& p.cur().kind == t0.0 && p.cur().text@ == t0.1
                    &&& p.peeked().kind == t1.0 && p.peeked().text@ == t1.1
                    &&& p.lex_pos() == t1.2
                })
            },
            r matches Err(e) ==> ({
                let src = lexer.src();
                let q0 = skip_end(src, lexer.pos());
                let q1 = skip_end(src, token_at(src, q0).2);
                ||| !lex_ok(src, q0) && e == lex_err_at(src, q0)
                ||| lex_ok(src, q0) && !lex_ok(src, q1) && e == lex_err_at(src, q1)
            }),
    {
        let mut lexer = lexer;
        let current_token = match lexer.get_token() {
            Ok(t) => t,
            Err(e) => return Err(e),
        };
        let peek_token = match lexer.get_token() {
            Ok(t) => t,
            Err(e) => return Err(e),
        };
        let parser = Parser {
            lexer,
            emitter,
            current_token,
            peek_token,
            symbols: Vec::new(),
            labels_declared: Vec::new(),
            labels_gotoed: Vec::new(),
            consumed: Ghost(Seq::empty()),
        };
        proof {
            assert(parser.symbols_view() =~= Seq::<Seq<char>>::empty());
            assert(parser.labels_declared_view() =~= Seq::<Seq<char>>::empty());
            assert(parser.labels_gotoed_view() =~= Seq::<Seq<char>>::empty());
        }
        Ok(parser)
    }

    /// Whether the token under inspection has the given kind.
    pub fn check_token(&self, kind: TokenType) -> (b: bool)
        ensures
            b == (self.cur().kind == kind),
    {
        kind == self.current_token.kind
    }

    /// Whether the token one ahead has the given kind.
    pub fn check_peek(&self, kind: TokenType) -> (b: bool)
        ensures
            b == (self.peeked().kind == kind),
    {
        kind == self.peek_token.kind
    }

    /// Shifts the window: the peeked token comes under inspection and one
    /// fresh token is pulled from the scanner.
    fn next_token(&mut self) -> (r: Result<(), CompileError>)
        requires
            old(self).wf(),
        ensures
            final(self).wf(),
            final(self).src() == old(self).src(),
            final(self).sink() == old(self).sink(),
            final(self).symbols_view() == old(self).symbols_view(),
            final(self).labels_declared_view() == old(self).labels_declared_view(),
            final(self).labels_gotoed_view() == old(self).labels_gotoed_view(),
            final(self).remaining() <= old(self).remaining(),
            r matches Err(e) ==> !(e is UndeclaredLabel),
            r is Ok <==> old(self).next_lex_ok(),
            r is Ok ==> final(self).cur() == old(self).peeked(),
            r is Ok ==> final(self).consumed() == old(self).consumed() + old(self).cur().text@,
            r is Err ==> final(self).consumed() == old(self).consumed(),
            r is Ok ==> ({
                let q = skip_end(old(self).src(), old(self).lex_pos());
                let t = token_at(old(self).src(), q);
                &&& final(self).peeked().kind == t.0
                &&& final(self).peeked().text@ == t.1
                &&& final(self).lex_pos() == t.2
            }),
            r matches Err(e) ==> e == lex_err_at(
                old(self).src(),
                skip_end(old(self).src(), old(self).lex_pos()),
            ),
            r is Ok && old(self).cur().kind != TokenType::EOF ==> final(self).remaining() < old(self).remaining(),
    {
        let mut shifted = match self.lexer.get_token() {
            Ok(t) => t,
            Err(e) => return Err(e),
        };
        self.consumed = Ghost(self.consumed@ + self.current_token.text@);
        core::mem::swap(&mut self.peek_token, &mut shifted);
        self.current_token = shifted;
        Ok(())
    }

    /// Demands the given kind of the token under inspection, then shifts
    /// the window; any other kind aborts the run.
    fn match_token(&mut self, kind: TokenType) -> (r: Result<(), CompileError>)
        requires
            old(self).wf(),
        ensures
            final(self).wf(),
            final(self).src() == old(self).src(),
            final(self).sink() == old(self).sink(),
            final(self).symbols_view() == old(self).symbols_view(),
            final(self).labels_declared_view() == old(self).labels_declared_view(),
            final(self).labels_gotoed_view() == old(self).labels_gotoed_view(),
            final(self).remaining() <= old(self).remaining(),
            old(self).cur().kind != kind ==> r == Err::<(), CompileError>(
                CompileError::ParseExpectedToken(kind, old(self).cur().kind),
            ),
            old(self).cur().kind == kind ==> (r matches Err(e) ==> e == lex_err_at(
                old(self).src(),
                skip_end(old(self).src(), old(self).lex_pos()),
            )),
            r matches Err(e) ==> is_stream_error(e),
            r matches Err(e) ==> !(e is UndeclaredLabel),
            r is Ok <==> old(self).cur().kind == kind && old(self).next_lex_ok(),
            r is Ok ==> old(self).cur().kind == kind && final(self).cur() == old(self).peeked(),
            r is Ok ==> final(self).consumed() == old(self).consumed() + old(self).cur().text@,
            r is Err ==> final(self).consumed() == old(self).consumed(),
            r is Ok ==> final(self).peeked().kind == old(self).next_spec_token().0
                && final(self).peeked().text@ == old(self).next_spec_token().1
                && final(self).lex_pos() == old(self).next_spec_token().2,
            r is Ok && kind != TokenType::EOF ==> final(self).remaining() < old(self).remaining(),
    {
        if !self.check_token(kind) {
            return Err(CompileError::ParseExpectedToken(kind, self.current_token.kind));
        }
        self.next_token()
    }

    /// Whether the token under inspection is a comparison operator.
    fn is_comparison_operator(&self) -> (b: bool)
        ensures
            b == is_comparator(self.cur().kind),
    {
        self.check_token(TokenType::GT) || self.check_token(TokenType::GTEQ) || self.check_token(
            TokenType::LT,
        ) || self.check_token(TokenType::LTEQ) || self.check_token(TokenType::EQEQ)
            || self.check_token(TokenType::NOTEQ)
    }

    /// Demands one newline, then greedily consumes any further run of
    /// newlines: blank lines separate nothing.
    #[verifier::loop_isolation(false)]
    fn nl(&mut self) -> (r: Result<(), CompileError>)
        requires
            old(self).wf(),
        ensures
            final(self).wf(),
            final(self).src() == old(self).src(),
            final(self).sink() == old(self).sink(),
            final(self).symbols_view() == old(self).symbols_view(),
            final(self).labels_declared_view() == old(self).labels_declared_view(),
            final(self).labels_gotoed_view() == old(self).labels_gotoed_view(),
            final(self).remaining() <= old(self).remaining(),
            old(self).cur().kind != TokenType::NEWLINE ==> r == Err::<(), CompileError>(
                CompileError::ParseExpectedToken(TokenType::NEWLINE, old(self).cur().kind),
            ),
            old(self).cur().kind == TokenType::NEWLINE ==> (r matches Err(e) ==> !(e
                is ParseExpectedToken)),
            r matches Err(e) ==> is_stream_error(e),
            r matches Err(e) ==> !(e is UndeclaredLabel),
            r is Ok ==> old(self).cur().kind == TokenType::NEWLINE && final(self).remaining()
                < old(self).remaining() && final(self).cur().kind != TokenType::NEWLINE,
            old(self).cur().kind == TokenType::NEWLINE && old(self).peeked().kind
                != TokenType::NEWLINE && old(self).next_lex_ok() ==> r is Ok && final(self).cur()
                == old(self).peeked() && final(self).peeked().kind == old(
                self,
            ).next_spec_token().0 && final(self).peeked().text@ == old(self).next_spec_token().1
                && final(self).lex_pos() == old(self).next_spec_token().2,
            grows(final(self).consumed(), old(self).consumed()),
    {
        match self.match_token(TokenType::NEWLINE) {
            Ok(()) => {},
            Err(e) => return Err(e),
        }
        while self.check_token(TokenType::NEWLINE)
            invariant
                self.wf(),
                self.src() == old(self).src(),
                self.sink() == old(self).sink(),
                self.symbols_view() == old(self).symbols_view(),
                self.labels_declared_view() == old(self).labels_declared_view(),
                self.labels_gotoed_view() == old(self).labels_gotoed_view(),
                self.remaining() < old(self).remaining(),
                grows(self.consumed(), old(self).consumed()),
                old(self).peeked().kind != TokenType::NEWLINE ==> self.cur() == old(self).peeked()
                    && self.peeked().kind == old(self).next_spec_token().0
                    && self.peeked().text@ == old(self).next_spec_token().1 && self.lex_pos()
                    == old(self).next_spec_token().2,
            decreases self.remaining(),
        {
            let ghost n1 = *self;
            match self.next_token() {
                Ok(()) => {},
                Err(e) => {
                    proof {
                        lemma_grows_eq(self.consumed(), n1.consumed());
                        lemma_grows_trans(self.consumed(), n1.consumed(), old(self).consumed());
                    }
                    return Err(e);
                },
            }
            proof {
                lemma_grows_trans(self.consumed(), n1.consumed(), old(self).consumed());
            }
        }
        Ok(())
    }

    /// `primary ::= NUMBER | IDENT`: emits the lexeme. An identifier not
    /// yet in the symbol table is a use before assignment and aborts the
    /// run: no read of an unassigned variable can reach the output.
    #[verifier::loop_isolation(false)]
    fn primary(&mut self) -> (r: Result<(), CompileError>)
        requires
            old(self).wf(),
        ensures
            final(self).wf(),
            expr_step(*final(self), *old(self)),
            r matches Err(e) ==> !(e is UndeclaredLabel) && !(e is DuplicateLabel),
            r matches Err(CompileError::UseBeforeAssignment(s)) ==> !final(self).symbols_view().contains(s@),
            r is Ok ==> final(self).remaining() < old(self).remaining(),
            r is Ok ==> final(self).sink().code() == old(self).sink().code() + old(self).cur().text@,
            r is Ok ==> emits_consumed(*final(self), *old(self)),
            r is Ok ==> old(self).cur().kind == TokenType::NUMBER || (old(self).cur().kind
                == TokenType::IDENT && old(self).symbols_view().contains(old(self).cur().text@)),
            r is Ok ==> final(self).cur() == old(self).peeked(),
            r is Ok ==> final(self).peeked().kind == old(self).next_spec_token().0 && final(self).peeked().text@ == old(self).next_spec_token().1 && final(self).lex_pos() == old(self).next_spec_token().2,
            old(self).cur().kind == TokenType::IDENT && !old(self).symbols_view().contains(
                old(self).cur().text@,
            ) ==> (r matches Err(CompileError::UseBeforeAssignment(s)) && s@ == old(self).cur().text@),
            old(self).cur().kind != TokenType::NUMBER && old(self).cur().kind != TokenType::IDENT
                ==> (r matches Err(CompileError::ParseExpectedPrimary(k, s)) && k == old(self).cur().kind && s@ == old(self).cur().text@),
            old(self).simple_primary() ==> r is Ok,
    {
        if self.check_token(TokenType::NUMBER) {
            let text = self.current_token.text.clone();
            self.emitter.emit(text);
            let r = self.next_token();
            proof {
                if r is Ok {
                    lemma_emits_one(*self, *old(self), old(self).cur().text@);
                }
            }
            r
        } else if self.check_token(TokenType::IDENT) {
            if !contains_name(&self.symbols, &self.current_token.text) {
                return Err(CompileError::UseBeforeAssignment(self.current_token.text.clone()));
            }
            let text = self.current_token.text.clone();
            self.emitter.emit(text);
            let r = self.next_token();
            proof {
                if r is Ok {
                    lemma_emits_one(*self, *old(self), old(self).cur().text@);
                }
            }
            r
        } else {
            Err(
                CompileError::ParseExpectedPrimary(
                    self.current_token.kind,
                    self.current_token.text.clone(),
                ),
            )
        }
    }

    /// `unary ::= ["+" | "-"] primary`: an optional sign, emitted as is.
    #[verifier::loop_isolation(false)]
    fn unary(&mut self) -> (r: Result<(), CompileError>)
        requires
            old(self).wf(),
        ensures
            final(self).wf(),
            expr_step(*final(self), *old(self)),
            r matches Err(e) ==> !(e is UndeclaredLabel) && !(e is DuplicateLabel),
            r matches Err(CompileError::UseBeforeAssignment(s)) ==> !final(self).symbols_view().contains(s@),
            r is Ok ==> final(self).remaining() < old(self).remaining(),
            old(self).simple_primary() ==> r is Ok && final(self).cur() == old(self).peeked()
                && final(self).sink().code() == old(self).sink().code() + old(self).cur().text@
                && final(self).peeked().kind == old(self).next_spec_token().0
                && final(self).peeked().text@ == old(self).next_spec_token().1
                && final(self).lex_pos() == old(self).next_spec_token().2,
            old(self).cur().kind == TokenType::IDENT && !old(self).symbols_view().contains(
                old(self).cur().text@,
            ) ==> (r matches Err(CompileError::UseBeforeAssignment(s)) && s@ == old(
                self,
            ).cur().text@),
            r is Ok ==> emits_consumed(*final(self), *old(self)),
    {
        let ghost p0 = *self;
        if self.check_token(TokenType::PLUS) || self.check_token(TokenType::MINUS) {
            let text = self.current_token.text.clone();
            self.emitter.emit(text);
            match self.next_token() {
                Ok(()) => {},
                Err(e) => return Err(e),
            }
            proof {
                lemma_emits_one(*self, p0, p0.cur().text@);
            }
        } else {
            proof {
                lemma_emits_none(*self, p0);
            }
        }
        let ghost p1 = *self;
        let r = self.primary();
        proof {
            lemma_expr_trans(*self, p1, p0);
            if r is Ok {
                lemma_emits_trans(*self, p1, p0);
            }
        }
        r
    }

    /// `term ::= unary (("*" | "/") unary)*`: operators are emitted as is,
    /// between the operands' own emissions.
    #[verifier::loop_isolation(false)]
    fn term(&mut self) -> (r: Result<(), CompileError>)
        requires
            old(self).wf(),
        ensures
            final(self).wf(),
            expr_step(*final(self), *old(self)),
            r matches Err(e) ==> !(e is UndeclaredLabel) && !(e is DuplicateLabel),
            r matches Err(CompileError::UseBeforeAssignment(s)) ==> !final(self).symbols_view().contains(s@),
            r is Ok ==> final(self).remaining() < old(self).remaining(),
            old(self).simple_primary() ==> r is Ok && final(self).cur() == old(self).peeked()
                && final(self).sink().code() == old(self).sink().code() + old(self).cur().text@
                && final(self).peeked().kind == old(self).next_spec_token().0
                && final(self).peeked().text@ == old(self).next_spec_token().1
                && final(self).lex_pos() == old(self).next_spec_token().2,
            old(self).cur().kind == TokenType::IDENT && !old(self).symbols_view().contains(
                old(self).cur().text@,
            ) ==> (r matches Err(CompileError::UseBeforeAssignment(s)) && s@ == old(
                self,
            ).cur().text@),
            r is Ok ==> emits_consumed(*final(self), *old(self)),
    {
        match self.unary() {
            Ok(()) => {},
            Err(e) => return Err(e),
        }
        while self.check_token(TokenType::ASTERISK) || self.check_token(TokenType::SLASH)
            invariant
                self.wf(),
                expr_step(*self, *old(self)),
                self.remaining() < old(self).remaining(),
                old(self).simple_primary() ==> self.cur() == old(self).peeked()
                    && self.sink().code() == old(self).sink().code() + old(self).cur().text@
                    && self.peeked().kind == old(self).next_spec_token().0
                    && self.peeked().text@ == old(self).next_spec_token().1
                    && self.lex_pos() == old(self).next_spec_token().2,
                emits_consumed(*self, *old(self)),
            decreases self.remaining(),
        {
            let ghost p1 = *self;
            let text = self.current_token.text.clone();
            self.emitter.emit(text);
            match self.next_token() {
                Ok(()) => {},
                Err(e) => {
                    proof {
                        lemma_expr_trans(*self, p1, *old(self));
                    }
                    return Err(e);
                },
            }
            let ghost p2 = *self;
            proof {
                lemma_emits_one(p2, p1, p1.cur().text@);
            }
            match self.unary() {
                Ok(()) => {},
                Err(e) => {
                    proof {
                        lemma_expr_trans(*self, p2, p1);
                        lemma_expr_trans(*self, p1, *old(self));
                    }
                    return Err(e);
                },
            }
            proof {
                lemma_expr_trans(*self, p2, p1);
                lemma_expr_trans(*self, p1, *old(self));
                lemma_emits_trans(*self, p2, p1);
                lemma_emits_trans(*self, p1, *old(self));
            }
        }
        Ok(())
    }

    /// `expression ::= term (("+" | "-") term)*`.
    #[verifier::loop_isolation(false)]
    fn expression(&mut self) -> (r: Result<(), CompileError>)
        requires
            old(self).wf(),
        ensures
            final(self).wf(),
            expr_step(*final(self), *old(self)),
            r matches Err(e) ==> !(e is UndeclaredLabel) && !(e is DuplicateLabel),
            r matches Err(CompileError::UseBeforeAssignment(s)) ==> !final(self).symbols_view().contains(s@),
            r is Ok ==> final(self).remaining() < old(self).remaining(),
            old(self).simple_primary() ==> r is Ok && final(self).cur() == old(self).peeked()
                && final(self).sink().code() == old(self).sink().code() + old(self).cur().text@
                && final(self).peeked().kind == old(self).next_spec_token().0
                && final(self).peeked().text@ == old(self).next_spec_token().1
                && final(self).lex_pos() == old(self).next_spec_token().2,
            old(self).cur().kind == TokenType::IDENT && !old(self).symbols_view().contains(
                old(self).cur().text@,
            ) ==> (r matches Err(CompileError::UseBeforeAssignment(s)) && s@ == old(
                self,
            ).cur().text@),
            r is Ok ==> emits_consumed(*final(self), *old(self)),
    {
        match self.term() {
            Ok(()) => {},
            Err(e) => return Err(e),
        }
        while self.check_token(TokenType::PLUS) || self.check_token(TokenType::MINUS)
            invariant
                self.wf(),
                expr_step(*self, *old(self)),
                self.remaining() < old(self).remaining(),
                old(self).simple_primary() ==> self.cur() == old(self).peeked()
                    && self.sink().code() == old(self).sink().code() + old(self).cur().text@
                    && self.peeked().kind == old(self).next_spec_token().0
                    && self.peeked().text@ == old(self).next_spec_token().1
                    && self.lex_pos() == old(self).next_spec_token().2,
                emits_consumed(*self, *old(self)),
            decreases self.remaining(),
        {
            let ghost p1 = *self;
            let text = self.current_token.text.clone();
            self.emitter.emit(text);
            match self.next_token() {
                Ok(()) => {},
                Err(e) => {
                    proof {
                        lemma_expr_trans(*self, p1, *old(self));
                    }
                    return Err(e);
                },
            }
            let ghost p2 = *self;
            proof {
                lemma_emits_one(p2, p1, p1.cur().text@);
            }
            match self.term() {
                Ok(()) => {},
                Err(e) => {
                    proof {
                        lemma_expr_trans(*self, p2, p1);
                        lemma_expr_trans(*self, p1, *old(self));
                    }
                    return Err(e);
                },
            }
            proof {
                lemma_expr_trans(*self, p2, p1);
                lemma_expr_trans(*self, p1, *old(self));
                lemma_emits_trans(*self, p2, p1);
                lemma_emits_trans(*self, p1, *old(self));
            }
        }
        Ok(())
    }

    /// `comparison ::= expression (comparator expression)+`: at least one
    /// comparison operator is required; a bare expression is no
    /// comparison and aborts the run.
    #[verifier::loop_isolation(false)]
    fn comparison(&mut self) -> (r: Result<(), CompileError>)
        requires
            old(self).wf(),
        ensures
            final(self).wf(),
            expr_step(*final(self), *old(self)),
            r matches Err(e) ==> !(e is UndeclaredLabel) && !(e is DuplicateLabel),
            r matches Err(CompileError::UseBeforeAssignment(s)) ==> !final(self).symbols_view().contains(s@),
            r is Ok ==> final(self).remaining() < old(self).remaining(),
            old(self).simple_primary() && !is_comparator(old(self).peeked().kind) ==> (r matches
                Err(CompileError::ParseExpectedComparison(k, s)) && k == old(self).peeked().kind
                && s@ == old(self).peeked().text@),
            old(self).simple_comparison() ==> r is Ok,
            r is Ok ==> emits_consumed(*final(self), *old(self)),
    {
        match self.expression() {
            Ok(()) => {},
            Err(e) => return Err(e),
        }
        if self.is_comparison_operator() {
            let ghost p1 = *self;
            let text = self.current_token.text.clone();
            self.emitter.emit(text);
            match self.next_token() {
                Ok(()) => {},
                Err(e) => {
                    proof {
                        lemma_expr_trans(*self, p1, *old(self));
                    }
                    return Err(e);
                },
            }
            let ghost p2 = *self;
            proof {
                lemma_emits_one(p2, p1, p1.cur().text@);
            }
            match self.expression() {
                Ok(()) => {},
                Err(e) => {
                    proof {
                        lemma_expr_trans(*self, p2, p1);
                        lemma_expr_trans(*self, p1, *old(self));
                    }
                    return Err(e);
                },
            }
            proof {
                lemma_expr_trans(*self, p2, p1);
                lemma_expr_trans(*self, p1, *old(self));
                lemma_emits_trans(*self, p2, p1);
                lemma_emits_trans(*self, p1, *old(self));
            }
        } else {
            return Err(
                CompileError::ParseExpectedComparison(
                    self.current_token.kind,
                    self.current_token.text.clone(),
                ),
            );
        }
        while self.is_comparison_operator()
            invariant
                self.wf(),
                expr_step(*self, *old(self)),
                self.remaining() < old(self).remaining(),
                old(self).simple_comparison() ==> !is_comparator(self.cur().kind),
                emits_consumed(*self, *old(self)),
            decreases self.remaining(),
        {
            let ghost p1 = *self;
            let text = self.current_token.text.clone();
            self.emitter.emit(text);
            match self.next_token() {
                Ok(()) => {},
                Err(e) => {
                    proof {
                        lemma_expr_trans(*self, p1, *old(self));
                    }
                    return Err(e);
                },
            }
            let ghost p2 = *self;
            proof {
                lemma_emits_one(p2, p1, p1.cur().text@);
            }
            match self.expression() {
                Ok(()) => {},
                Err(e) => {
                    proof {
                        lemma_expr_trans(*self, p2, p1);
                        lemma_expr_trans(*self, p1, *old(self));
                    }
                    return Err(e);
                },
            }
            proof {
                lemma_expr_trans(*self, p2, p1);
                lemma_expr_trans(*self, p1, *old(self));
                lemma_emits_trans(*self, p2, p1);
                lemma_emits_trans(*self, p1, *old(self));
            }
        }
        Ok(())
    }

    /// Declares the identifier under inspection on first use: records it
    /// in the symbol table and appends its one-time declaration to the
    /// header buffer; a name already in the table gets no second
    /// declaration.
    fn declare_current_symbol(&mut self)
        requires
            old(self).wf(),
        ensures
            final(self).wf(),
            stmt_step(*final(self), *old(self)),
            final(self).symbols_view().contains(old(self).cur().text@),
            old(self).symbols_view().contains(old(self).cur().text@)
                ==> final(self).symbols_view() == old(self).symbols_view()
                && final(self).sink().header() == old(self).sink().header(),
            !old(self).symbols_view().contains(old(self).cur().text@)
                ==> final(self).symbols_view() == old(self).symbols_view().push(
                old(self).cur().text@,
            ) && final(self).sink().header() == old(self).sink().header() + decl_text(
                old(self).cur().text@,
            ),
            final(self).cur() == old(self).cur(),
            final(self).peeked() == old(self).peeked(),
            final(self).sink().code() == old(self).sink().code(),
            final(self).consumed() == old(self).consumed(),
            final(self).labels_declared_view() == old(self).labels_declared_view(),
            final(self).labels_gotoed_view() == old(self).labels_gotoed_view(),
            final(self).remaining() == old(self).remaining(),
    {
        if !contains_name(&self.symbols, &self.current_token.text) {
            let ghost g = *self;
            let decl = "float ".to_owned().concat(self.current_token.text.as_str()).concat(";");
            self.symbols.push(self.current_token.text.clone());
            self.emitter.header_line(decl);
            proof {
                let name = g.cur().text@;
                let h0 = g.sink().header();
                assert(self.symbols_view() =~= g.symbols_view().push(name));
                assert(self.sink().header() =~= h0 + decl_text(name));
                lemma_contains_at_end(h0, decl_text(name));
                assert(contains_at(self.sink().header(), decl_text(name), h0.len() as int));
                assert(grows(self.sink().header(), h0));
                assert forall|i: int| 0 <= i < self.symbols_view().len() implies declares(
                    self.sink().header(),
                    #[trigger] self.symbols_view()[i],
                ) by {
                    if i < g.symbols_view().len() {
                        assert(declares(h0, g.symbols_view()[i]));
                        lemma_grows_preserves_declares(
                            self.sink().header(),
                            h0,
                            g.symbols_view()[i],
                        );
                        assert(self.symbols_view()[i] == g.symbols_view()[i]);
                    } else {
                        assert(self.symbols_view()[i] == name);
                    }
                }
                assert(self.symbols_view()[self.symbols_view().len() - 1] == name);
                assert(self.symbols_view().contains(name));
                assert forall|i: int, j: int|
                    0 <= i < j < self.symbols_view().len() implies self.symbols_view()[i]
                    != self.symbols_view()[j] by {
                    if j < g.symbols_view().len() {
                        assert(g.symbols_view()[i] != g.symbols_view()[j]);
                    } else {
                        assert(self.symbols_view()[i] == g.symbols_view()[i]);
                        assert(!g.symbols_view().contains(name));
                    }
                }
            }
        }
    }

    /// `"PRINT" (expression | STRING)`: a string literal becomes a
    /// formatted line print of the literal verbatim; an expression is
    /// wrapped to force two-decimal fixed-point formatting.
    fn print_statement(&mut self) -> (r: Result<(), CompileError>)
        requires
            old(self).wf(),
            old(self).cur().kind == TokenType::PRINT,
        ensures
            final(self).wf(),
            stmt_step(*final(self), *old(self)),
            r matches Err(e) ==> !(e is UndeclaredLabel),
            r matches Err(CompileError::UseBeforeAssignment(s)) ==> !final(self).symbols_view().contains(s@),
            r matches Err(CompileError::DuplicateLabel(s)) ==> final(self).labels_declared_view().contains(s@),
            r is Ok ==> final(self).remaining() < old(self).remaining(),
            r is Ok && old(self).peeked().kind == TokenType::STRING ==> final(self).sink().code()
                == old(self).sink().code() + "printf(\""@ + old(self).peeked().text@
                + "\\n\");"@ + "\n"@,
            r is Ok && old(self).peeked().kind != TokenType::STRING ==> gained_wrapped(
                final(self).sink().code(),
                old(self).sink().code(),
                "printf(\"%.2f\\n\", (float)("@,
                "));"@ + "\n"@,
            ),
            final(self).labels_gotoed_view() == old(self).labels_gotoed_view(),
            final(self).labels_declared_view() == old(self).labels_declared_view(),
            old(self).peeked().kind == TokenType::STRING && old(self).next_lex_ok() && lex_ok(
                old(self).src(),
                skip_end(old(self).src(), old(self).next_spec_token().2),
            ) ==> r is Ok,
            r is Ok && old(self).peeked().kind == TokenType::STRING ==> ({
                let src = old(self).src();
                let second = old(self).next_spec_token();
                let third = token_at(src, skip_end(src, second.2));
                &&& final(self).cur().kind == second.0
                &&& final(self).cur().text@ == second.1
                &&& final(self).peeked().kind == third.0
                &&& final(self).peeked().text@ == third.1
                &&& final(self).lex_pos() == third.2
            }),
            old(self).print_of_unassigned() ==> (r matches Err(
                CompileError::UseBeforeAssignment(s),
            ) && s@ == old(self).peeked().text@),
            old(self).simple_print_expr() ==> r is Ok && ({
                let src = old(self).src();
                let second = old(self).next_spec_token();
                let third = token_at(src, skip_end(src, second.2));
                &&& final(self).cur().kind == second.0
                &&& final(self).peeked().kind == third.0
                &&& final(self).lex_pos() == third.2
            }),
    {
        match self.next_token() {
            Ok(()) => {},
            Err(e) => return Err(e),
        }
        if self.check_token(TokenType::STRING) {
            let ghost g = *self;
            let text = self.current_token.text.clone();
            self.emitter.emit_line(
                "printf(\"".to_owned().concat(text.as_str()).concat("\\n\");"),
            );
            proof {
                assert(self.sink().code() =~= g.sink().code() + ("printf(\""@ + old(self).peeked().text@ + "\\n\");"@ + "\n"@));
                assert(self.sink().code() =~= old(self).sink().code() + "printf(\""@ + old(self).peeked().text@ + "\\n\");"@ + "\n"@);
                lemma_stmt_trans(*self, g, *old(self));
            }
            let ghost g2 = *self;
            match self.next_token() {
                Ok(()) => {},
                Err(e) => {
                    proof {
                        lemma_stmt_trans(*self, g2, *old(self));
                    }
                    return Err(e);
                },
            }
            proof {
                lemma_stmt_trans(*self, g2, *old(self));
            }
        } else {
            let ghost g = *self;
            self.emitter.emit("printf(\"%.2f\\n\", (float)(".to_owned());
            let ghost g2 = *self;
            proof {
                lemma_stmt_trans(g2, g, *old(self));
                if old(self).simple_print_expr() {
                    assert(g2.simple_primary());
                }
            }
            match self.expression() {
                Ok(()) => {},
                Err(e) => {
                    proof {
                        lemma_expr_as_stmt(*self, g2);
                        lemma_stmt_trans(*self, g2, *old(self));
                    }
                    return Err(e);
                },
            }
            let ghost g3 = *self;
            self.emitter.emit_line("));".to_owned());
            proof {
                lemma_expr_as_stmt(g3, g2);
                lemma_stmt_trans(g3, g2, *old(self));
                assert(self.sink().code() =~= g3.sink().code() + ("));"@ + "\n"@));
                lemma_stmt_trans(*self, g3, *old(self));
                let e = g3.sink().code().subrange(
                    g2.sink().code().len() as int,
                    g3.sink().code().len() as int,
                );
                lemma_grows_split(g3.sink().code(), g2.sink().code());
                assert(self.sink().code() =~= old(self).sink().code()
                    + "printf(\"%.2f\\n\", (float)("@ + e + ("));"@ + "\n"@));
                assert(gained_wrapped(
                    self.sink().code(),
                    old(self).sink().code(),
                    "printf(\"%.2f\\n\", (float)("@,
                    "));"@ + "\n"@,
                ));
            }
        }
        Ok(())
    }

    /// `"IF" comparison "THEN" nl {statement} "ENDIF"`.
    #[verifier::loop_isolation(false)]
    fn if_statement(&mut self) -> (r: Result<(), CompileError>)
        requires
            old(self).wf(),
            old(self).cur().kind == TokenType::IF,
        ensures
            final(self).wf(),
            stmt_step(*final(self), *old(self)),
            r matches Err(e) ==> !(e is UndeclaredLabel),
            r matches Err(CompileError::UseBeforeAssignment(s)) ==> !final(self).symbols_view().contains(s@),
            r matches Err(CompileError::DuplicateLabel(s)) ==> final(self).labels_declared_view().contains(s@),
            r is Ok ==> final(self).remaining() < old(self).remaining(),
            r is Ok ==> gained_block(
                final(self).sink().code(),
                old(self).sink().code(),
                "if("@,
                ") {"@ + "\n"@,
                "}"@ + "\n"@,
            ),
            old(self).if_without_comparator() ==> (r matches Err(
                CompileError::ParseExpectedComparison(k, s),
            ) && k == old(self).next_spec_token().0 && s@ == old(self).next_spec_token().1),
        decreases old(self).remaining(), 0int,
    {
        match self.next_token() {
            Ok(()) => {},
            Err(e) => return Err(e),
        }
        self.emitter.emit("if(".to_owned());
        let ghost g = *self;
        match self.comparison() {
            Ok(()) => {},
            Err(e) => {
                proof {
                    lemma_expr_as_stmt(*self, g);
                    lemma_stmt_trans(*self, g, *old(self));
                }
                return Err(e);
            },
        }
        proof {
            lemma_expr_as_stmt(*self, g);
            lemma_stmt_trans(*self, g, *old(self));
        }
        let ghost gm = *self;
        match self.match_token(TokenType::THEN) {
            Ok(()) => {},
            Err(e) => {
                proof {
                    lemma_grows_eq(self.consumed(), gm.consumed());
                    lemma_stmt_trans(*self, gm, *old(self));
                }
                return Err(e);
            },
        }
        proof {
            lemma_stmt_trans(*self, gm, *old(self));
        }
        let ghost gn2 = *self;
        match self.nl() {
            Ok(()) => {},
            Err(e) => {
                proof {
                    lemma_stmt_trans(*self, gn2, *old(self));
                }
                return Err(e);
            },
        }
        proof {
            lemma_stmt_trans(*self, gn2, *old(self));
        }
        let ghost g3 = *self;
        self.emitter.emit_line(") {".to_owned());
        let ghost gb = *self;
        proof {
            assert(self.sink().code() =~= g3.sink().code() + (") {"@ + "\n"@));
            lemma_grows_eq(self.consumed(), g3.consumed());
            lemma_stmt_trans(*self, g3, *old(self));
        }
        while !self.check_token(TokenType::ENDIF)
            invariant
                self.wf(),
                stmt_step(*self, *old(self)),
                grows(self.sink().code(), gb.sink().code()),
                self.remaining() < old(self).remaining(),
            decreases self.remaining(),
        {
            let ghost g4 = *self;
            match self.statement() {
                Ok(()) => {},
                Err(e) => {
                    proof {
                        lemma_stmt_trans(*self, g4, *old(self));
                    }
                    return Err(e);
                },
            }
            proof {
                lemma_stmt_trans(*self, g4, *old(self));
                lemma_grows_trans(self.sink().code(), g4.sink().code(), gb.sink().code());
            }
        }
        let ghost ge = *self;
        match self.match_token(TokenType::ENDIF) {
            Ok(()) => {},
            Err(e) => {
                proof {
                    lemma_grows_eq(self.consumed(), ge.consumed());
                    lemma_stmt_trans(*self, ge, *old(self));
                }
                return Err(e);
            },
        }
        proof {
            lemma_stmt_trans(*self, ge, *old(self));
        }
        let ghost g5 = *self;
        self.emitter.emit_line("}".to_owned());
        proof {
            assert(self.sink().code() =~= g5.sink().code() + ("}"@ + "\n"@));
            lemma_grows_eq(self.consumed(), g5.consumed());
            lemma_stmt_trans(*self, g5, *old(self));
            let c = g3.sink().code().subrange(
                g.sink().code().len() as int,
                g3.sink().code().len() as int,
            );
            lemma_grows_split(g3.sink().code(), g.sink().code());
            let b = g5.sink().code().subrange(
                gb.sink().code().len() as int,
                g5.sink().code().len() as int,
            );
            lemma_grows_split(g5.sink().code(), gb.sink().code());
            assert(self.sink().code() =~= old(self).sink().code() + "if("@ + c + (") {"@ + "\n"@)
                + b + ("}"@ + "\n"@));
            assert(gained_block(
                self.sink().code(),
                old(self).sink().code(),
                "if("@,
                ") {"@ + "\n"@,
                "}"@ + "\n"@,
            ));
        }
        Ok(())
    }

    /// `"WHILE" comparison "REPEAT" nl {statement} "ENDWHILE"`.
    #[verifier::loop_isolation(false)]
    fn while_statement(&mut self) -> (r: Result<(), CompileError>)
        requires
            old(self).wf(),
            old(self).cur().kind == TokenType::WHILE,
        ensures
            final(self).wf(),
            stmt_step(*final(self), *old(self)),
            r matches Err(e) ==> !(e is UndeclaredLabel),
            r matches Err(CompileError::UseBeforeAssignment(s)) ==> !final(self).symbols_view().contains(s@),
            r matches Err(CompileError::DuplicateLabel(s)) ==> final(self).labels_declared_view().contains(s@),
            r is Ok ==> final(self).remaining() < old(self).remaining(),
            r is Ok ==> gained_block(
                final(self).sink().code(),
                old(self).sink().code(),
                "while("@,
                "){"@ + "\n"@,
                "}"@ + "\n"@,
            ),
        decreases old(self).remaining(), 0int,
    {
        match self.next_token() {
            Ok(()) => {},
            Err(e) => return Err(e),
        }
        self.emitter.emit("while(".to_owned());
        let ghost g = *self;
        match self.comparison() {
            Ok(()) => {},
            Err(e) => {
                proof {
                    lemma_expr_as_stmt(*self, g);
                    lemma_stmt_trans(*self, g, *old(self));
                }
                return Err(e);
            },
        }
        proof {
            lemma_expr_as_stmt(*self, g);
            lemma_stmt_trans(*self, g, *old(self));
        }
        let ghost gm = *self;
        match self.match_token(TokenType::REPEAT) {
            Ok(()) => {},
            Err(e) => {
                proof {
                    lemma_grows_eq(self.consumed(), gm.consumed());
                    lemma_stmt_trans(*self, gm, *old(self));
                }
                return Err(e);
            },
        }
        proof {
            lemma_stmt_trans(*self, gm, *old(self));
        }
        let ghost gn2 = *self;
        match self.nl() {
            Ok(()) => {},
            Err(e) => {
                proof {
                    lemma_stmt_trans(*self, gn2, *old(self));
                }
                return Err(e);
            },
        }
        proof {
            lemma_stmt_trans(*self, gn2, *old(self));
        }
        let ghost g3 = *self;
        self.emitter.emit_line("){".to_owned());
        let ghost gb = *self;
        proof {
            assert(self.sink().code() =~= g3.sink().code() + ("){"@ + "\n"@));
            lemma_grows_eq(self.consumed(), g3.consumed());
            lemma_stmt_trans(*self, g3, *old(self));
        }
        while !self.check_token(TokenType::ENDWHILE)
            invariant
                self.wf(),
                stmt_step(*self, *old(self)),
                grows(self.sink().code(), gb.sink().code()),
                self.remaining() < old(self).remaining(),
            decreases self.remaining(),
        {
            let ghost g4 = *self;
            match self.statement() {
                Ok(()) => {},
                Err(e) => {
                    proof {
                        lemma_stmt_trans(*self, g4, *old(self));
                    }
                    return Err(e);
                },
            }
            proof {
                lemma_stmt_trans(*self, g4, *old(self));
                lemma_grows_trans(self.sink().code(), g4.sink().code(), gb.sink().code());
            }
        }
        let ghost ge = *self;
        match self.match_token(TokenType::ENDWHILE) {
            Ok(()) => {},
            Err(e) => {
                proof {
                    lemma_grows_eq(self.consumed(), ge.consumed());
                    lemma_stmt_trans(*self, ge, *old(self));
                }
                return Err(e);
            },
        }
        proof {
            lemma_stmt_trans(*self, ge, *old(self));
        }
        let ghost g5 = *self;
        self.emitter.emit_line("}".to_owned());
        proof {
            assert(self.sink().code() =~= g5.sink().code() + ("}"@ + "\n"@));
            lemma_grows_eq(self.consumed(), g5.consumed());
            lemma_stmt_trans(*self, g5, *old(self));
            let c = g3.sink().code().subrange(
                g.sink().code().len() as int,
                g3.sink().code().len() as int,
            );
            lemma_grows_split(g3.sink().code(), g.sink().code());
            let b = g5.sink().code().subrange(
                gb.sink().code().len() as int,
                g5.sink().code().len() as int,
            );
            lemma_grows_split(g5.sink().code(), gb.sink().code());
            assert(self.sink().code() =~= old(self).sink().code() + "while("@ + c + ("){"@ + "\n"@)
                + b + ("}"@ + "\n"@));
            assert(gained_block(
                self.sink().code(),
                old(self).sink().code(),
                "while("@,
                "){"@ + "\n"@,
                "}"@ + "\n"@,
            ));
        }
        Ok(())
    }

    /// `"LABEL" IDENT`: records the declaration and emits the target
    /// line. A name declared before aborts with a duplicate label error.
    fn label_statement(&mut self) -> (r: Result<(), CompileError>)
        requires
            old(self).wf(),
            old(self).cur().kind == TokenType::LABEL,
        ensures
            final(self).wf(),
            stmt_step(*final(self), *old(self)),
            r matches Err(e) ==> !(e is UndeclaredLabel),
            r matches Err(CompileError::UseBeforeAssignment(s)) ==> !final(self).symbols_view().contains(s@),
            r matches Err(CompileError::DuplicateLabel(s)) ==> final(self).labels_declared_view().contains(s@),
            r is Ok ==> final(self).remaining() < old(self).remaining(),
            old(self).next_lex_ok() && old(self).labels_declared_view().contains(
                old(self).peeked().text@,
            ) ==> (r matches Err(CompileError::DuplicateLabel(s)) && s@ == old(self).peeked().text@),
            r is Ok ==> {
                &&& final(self).labels_declared_view() == old(self).labels_declared_view().push(
                    old(self).peeked().text@,
                )
                &&& !old(self).labels_declared_view().contains(old(self).peeked().text@)
                &&& final(self).sink().code() == old(self).sink().code() + old(self).peeked().text@ + ":"@ + "\n"@
            },
            old(self).peeked().kind == TokenType::IDENT && !old(self).labels_declared_view().contains(old(self).peeked().text@) && old(self).next_lex_ok()
                && lex_ok(
                old(self).src(),
                skip_end(old(self).src(), old(self).next_spec_token().2),
            ) ==> r is Ok,
            final(self).labels_gotoed_view() == old(self).labels_gotoed_view(),
            final(self).symbols_view() == old(self).symbols_view(),
            r is Ok ==> ({
                let src = old(self).src();
                let second = old(self).next_spec_token();
                let third = token_at(src, skip_end(src, second.2));
                &&& final(self).cur().kind == second.0
                &&& final(self).cur().text@ == second.1
                &&& final(self).peeked().kind == third.0
                &&& final(self).peeked().text@ == third.1
                &&& final(self).lex_pos() == third.2
            }),
    {
        match self.next_token() {
            Ok(()) => {},
            Err(e) => return Err(e),
        }
        if contains_name(&self.labels_declared, &self.current_token.text) {
            return Err(CompileError::DuplicateLabel(self.current_token.text.clone()));
        }
        let ghost g = *self;
        self.labels_declared.push(self.current_token.text.clone());
        self.emitter.emit_line(self.current_token.text.clone().concat(":"));
        proof {
            assert(self.labels_declared_view() =~= g.labels_declared_view().push(
                g.cur().text@,
            ));
            assert(self.sink().code() =~= g.sink().code() + (old(self).peeked().text@ + ":"@
                + "\n"@));
            assert(self.sink().code() =~= old(self).sink().code() + old(self).peeked().text@
                + ":"@ + "\n"@);
            assert forall|i: int, j: int|
                0 <= i < j < self.labels_declared_view().len() implies self
                .labels_declared_view()[i] != self.labels_declared_view()[j] by {
                if j < g.labels_declared_view().len() {
                    assert(g.labels_declared_view()[i] != g.labels_declared_view()[j]);
                } else {
                    assert(self.labels_declared_view()[i] == g.labels_declared_view()[i]);
                    assert(!g.labels_declared_view().contains(g.cur().text@));
                }
            }
            lemma_stmt_trans(*self, g, *old(self));
        }
        let ghost g2 = *self;
        match self.match_token(TokenType::IDENT) {
            Ok(()) => {},
            Err(e) => {
                proof {
                    lemma_stmt_trans(*self, g2, *old(self));
                }
                return Err(e);
            },
        }
        proof {
            lemma_stmt_trans(*self, g2, *old(self));
        }
        Ok(())
    }

    /// `"GOTO" IDENT`: records the referenced name and emits the jump;
    /// whether the label exists is checked only at the end of the program.
    fn goto_statement(&mut self) -> (r: Result<(), CompileError>)
        requires
            old(self).wf(),
            old(self).cur().kind == TokenType::GOTO,
        ensures
            final(self).wf(),
            stmt_step(*final(self), *old(self)),
            r matches Err(e) ==> !(e is UndeclaredLabel),
            r matches Err(CompileError::UseBeforeAssignment(s)) ==> !final(self).symbols_view().contains(s@),
            r matches Err(CompileError::DuplicateLabel(s)) ==> final(self).labels_declared_view().contains(s@),
            r is Ok ==> final(self).remaining() < old(self).remaining(),
            r is Ok ==> {
                &&& final(self).labels_gotoed_view() == old(self).labels_gotoed_view().push(
                    old(self).peeked().text@,
                )
                &&& final(self).sink().code() == old(self).sink().code() + "goto "@ + old(self).peeked().text@ + ";"@ + "\n"@
            },
            old(self).peeked().kind == TokenType::IDENT && old(self).next_lex_ok() && lex_ok(
                old(self).src(),
                skip_end(old(self).src(), old(self).next_spec_token().2),
            ) ==> r is Ok,
            final(self).labels_declared_view() == old(self).labels_declared_view(),
            final(self).symbols_view() == old(self).symbols_view(),
            r is Ok ==> ({
                let src = old(self).src();
                let second = old(self).next_spec_token();
                let third = token_at(src, skip_end(src, second.2));
                &&& final(self).cur().kind == second.0
                &&& final(self).cur().text@ == second.1
                &&& final(self).peeked().kind == third.0
                &&& final(self).peeked().text@ == third.1
                &&& final(self).lex_pos() == third.2
            }),
    {
        match self.next_token() {
            Ok(()) => {},
            Err(e) => return Err(e),
        }
        let ghost g = *self;
        self.labels_gotoed.push(self.current_token.text.clone());
        self.emitter.emit_line(
            "goto ".to_owned().concat(self.current_token.text.as_str()).concat(";"),
        );
        proof {
            assert(self.labels_gotoed_view() =~= g.labels_gotoed_view().push(g.cur().text@));
            assert(self.sink().code() =~= g.sink().code() + ("goto "@ + old(self).peeked().text@ + ";"@ + "\n"@));
            assert(self.sink().code() =~= old(self).sink().code() + "goto "@ + old(self).peeked().text@ + ";"@ + "\n"@);
            lemma_stmt_trans(*self, g, *old(self));
        }
        let ghost g2 = *self;
        match self.match_token(TokenType::IDENT) {
            Ok(()) => {},
            Err(e) => {
                proof {
                    lemma_stmt_trans(*self, g2, *old(self));
                }
                return Err(e);
            },
        }
        proof {
            lemma_stmt_trans(*self, g2, *old(self));
        }
        Ok(())
    }

    /// `"LET" IDENT "=" expression`: declares the identifier on first
    /// use, then emits the assignment.
    fn let_statement(&mut self) -> (r: Result<(), CompileError>)
        requires
            old(self).wf(),
            old(self).cur().kind == TokenType::LET,
        ensures
            final(self).wf(),
            stmt_step(*final(self), *old(self)),
            r matches Err(e) ==> !(e is UndeclaredLabel),
            r matches Err(CompileError::UseBeforeAssignment(s)) ==> !final(self).symbols_view().contains(s@),
            r matches Err(CompileError::DuplicateLabel(s)) ==> final(self).labels_declared_view().contains(s@),
            r is Ok ==> final(self).remaining() < old(self).remaining(),
            r is Ok ==> final(self).symbols_view().contains(old(self).peeked().text@),
            r is Ok && old(self).symbols_view().contains(old(self).peeked().text@)
                ==> final(self).symbols_view() == old(self).symbols_view()
                && final(self).sink().header() == old(self).sink().header(),
            r is Ok && !old(self).symbols_view().contains(old(self).peeked().text@)
                ==> final(self).symbols_view() == old(self).symbols_view().push(
                old(self).peeked().text@,
            ) && final(self).sink().header() == old(self).sink().header() + decl_text(
                old(self).peeked().text@,
            ),
            r is Ok ==> gained_wrapped(
                final(self).sink().code(),
                old(self).sink().code(),
                old(self).peeked().text@ + " = "@,
                ";"@ + "\n"@,
            ),
            final(self).labels_gotoed_view() == old(self).labels_gotoed_view(),
            final(self).labels_declared_view() == old(self).labels_declared_view(),
            old(self).simple_let() ==> r is Ok && ({
                let src = old(self).src();
                let second = old(self).next_spec_token();
                let third = token_at(src, skip_end(src, second.2));
                let fourth = token_at(src, skip_end(src, third.2));
                let fifth = token_at(src, skip_end(src, fourth.2));
                &&& final(self).cur().kind == fourth.0
                &&& final(self).peeked().kind == fifth.0
                &&& final(self).lex_pos() == fifth.2
            }),
    {
        match self.next_token() {
            Ok(()) => {},
            Err(e) => return Err(e),
        }
        let ghost gn = *self;
        self.declare_current_symbol();
        let ghost g = *self;
        proof {
            lemma_grows_eq(g.consumed(), gn.consumed());
            lemma_stmt_trans(g, gn, *old(self));
        }
        self.emitter.emit(self.current_token.text.clone().concat(" = "));
        proof {
            lemma_grows_eq(self.consumed(), g.consumed());
            lemma_stmt_trans(*self, g, *old(self));
        }
        let ghost gi = *self;
        match self.match_token(TokenType::IDENT) {
            Ok(()) => {},
            Err(e) => {
                proof {
                    lemma_grows_eq(self.consumed(), gi.consumed());
                    lemma_stmt_trans(*self, gi, *old(self));
                }
                return Err(e);
            },
        }
        proof {
            lemma_stmt_trans(*self, gi, *old(self));
        }
        let ghost gq = *self;
        match self.match_token(TokenType::EQ) {
            Ok(()) => {},
            Err(e) => {
                proof {
                    lemma_grows_eq(self.consumed(), gq.consumed());
                    lemma_stmt_trans(*self, gq, *old(self));
                }
                return Err(e);
            },
        }
        proof {
            lemma_stmt_trans(*self, gq, *old(self));
        }
        let ghost g2 = *self;
        proof {
            if old(self).simple_let() {
                let src = old(self).src();
                let second = old(self).next_spec_token();
                let third = token_at(src, skip_end(src, second.2));
                assert(g2.cur().kind == third.0 && g2.cur().text@ == third.1);
                if third.0 == TokenType::IDENT && old(self).symbols_view().contains(third.1) {
                    lemma_grows_contains(
                        g2.symbols_view(),
                        old(self).symbols_view(),
                        third.1,
                    );
                }
                assert(g2.simple_primary());
            }
        }
        match self.expression() {
            Ok(()) => {},
            Err(e) => {
                proof {
                    lemma_expr_as_stmt(*self, g2);
                    lemma_stmt_trans(*self, g2, *old(self));
                }
                return Err(e);
            },
        }
        let ghost g3 = *self;
        proof {
            lemma_expr_as_stmt(g3, g2);
            lemma_stmt_trans(g3, g2, *old(self));
        }
        self.emitter.emit_line(";".to_owned());
        proof {
            assert(self.sink().code() =~= g3.sink().code() + (";"@ + "\n"@));
            lemma_grows_eq(self.consumed(), g3.consumed());
            lemma_stmt_trans(*self, g3, *old(self));
            lemma_grows_contains(
                self.symbols_view(),
                g.symbols_view(),
                old(self).peeked().text@,
            );
            let e = g3.sink().code().subrange(
                g2.sink().code().len() as int,
                g3.sink().code().len() as int,
            );
            lemma_grows_split(g3.sink().code(), g2.sink().code());
            assert(self.sink().code() =~= old(self).sink().code() + (old(self).peeked().text@
                + " = "@) + e + (";"@ + "\n"@));
            assert(gained_wrapped(
                self.sink().code(),
                old(self).sink().code(),
                old(self).peeked().text@ + " = "@,
                ";"@ + "\n"@,
            ));
        }
        Ok(())
    }

    /// `"INPUT" IDENT`: declares the identifier on first use, then emits
    /// a guarded read: an invalid console value resets the variable to
    /// zero and discards the rest of the input line.
    fn input_statement(&mut self) -> (r: Result<(), CompileError>)
        requires
            old(self).wf(),
            old(self).cur().kind == TokenType::INPUT,
        ensures
            final(self).wf(),
            stmt_step(*final(self), *old(self)),
            r matches Err(e) ==> !(e is UndeclaredLabel),
            r matches Err(CompileError::UseBeforeAssignment(s)) ==> !final(self).symbols_view().contains(s@),
            r matches Err(CompileError::DuplicateLabel(s)) ==> final(self).labels_declared_view().contains(s@),
            r is Ok ==> final(self).remaining() < old(self).remaining(),
            r is Ok ==> final(self).symbols_view().contains(old(self).peeked().text@),
            r is Ok && old(self).symbols_view().contains(old(self).peeked().text@)
                ==> final(self).symbols_view() == old(self).symbols_view()
                && final(self).sink().header() == old(self).sink().header(),
            r is Ok && !old(self).symbols_view().contains(old(self).peeked().text@)
                ==> final(self).symbols_view() == old(self).symbols_view().push(
                old(self).peeked().text@,
            ) && final(self).sink().header() == old(self).sink().header() + decl_text(
                old(self).peeked().text@,
            ),
            r is Ok ==> final(self).sink().code() == old(self).sink().code()
                + "if(0 == scanf(\"%f\", &"@ + old(self).peeked().text@ + ")) {"@ + "\n"@
                + old(self).peeked().text@ + " = 0;"@ + "\n"@ + "scanf(\"%"@ + "*s\");"@
                + "\n"@ + "}"@ + "\n"@,
            final(self).labels_gotoed_view() == old(self).labels_gotoed_view(),
            final(self).labels_declared_view() == old(self).labels_declared_view(),
            old(self).peeked().kind == TokenType::IDENT && old(self).next_lex_ok() && lex_ok(
                old(self).src(),
                skip_end(old(self).src(), old(self).next_spec_token().2),
            ) ==> r is Ok,
            r is Ok ==> ({
                let src = old(self).src();
                let second = old(self).next_spec_token();
                let third = token_at(src, skip_end(src, second.2));
                &&& final(self).cur().kind == second.0
                &&& final(self).cur().text@ == second.1
                &&& final(self).peeked().kind == third.0
                &&& final(self).peeked().text@ == third.1
                &&& final(self).lex_pos() == third.2
            }),
    {
        match self.next_token() {
            Ok(()) => {},
            Err(e) => return Err(e),
        }
        let ghost gn = *self;
        self.declare_current_symbol();
        let ghost g = *self;
        proof {
            lemma_grows_eq(g.consumed(), gn.consumed());
            lemma_stmt_trans(g, gn, *old(self));
        }
        self.emitter.emit_line(
            "if(0 == scanf(\"%f\", &".to_owned().concat(
                self.current_token.text.as_str(),
            ).concat(")) {"),
        );
        self.emitter.emit_line(self.current_token.text.clone().concat(" = 0;"));
        self.emitter.emit("scanf(\"%".to_owned());
        self.emitter.emit_line("*s\");".to_owned());
        self.emitter.emit_line("}".to_owned());
        proof {
            assert(self.sink().code() =~= g.sink().code() + ("if(0 == scanf(\"%f\", &"@
                + old(self).peeked().text@ + ")) {"@ + "\n"@ + old(self).peeked().text@
                + " = 0;"@ + "\n"@ + "scanf(\"%"@ + "*s\");"@ + "\n"@ + "}"@ + "\n"@));
            assert(self.sink().code() =~= old(self).sink().code() + "if(0 == scanf(\"%f\", &"@
                + old(self).peeked().text@ + ")) {"@ + "\n"@ + old(self).peeked().text@
                + " = 0;"@ + "\n"@ + "scanf(\"%"@ + "*s\");"@ + "\n"@ + "}"@ + "\n"@);
            lemma_grows_eq(self.consumed(), g.consumed());
            lemma_stmt_trans(*self, g, *old(self));
        }
        let ghost gi = *self;
        match self.match_token(TokenType::IDENT) {
            Ok(()) => {},
            Err(e) => {
                proof {
                    lemma_grows_eq(self.consumed(), gi.consumed());
                    lemma_stmt_trans(*self, gi, *old(self));
                    lemma_grows_contains(
                        self.symbols_view(),
                        g.symbols_view(),
                        old(self).peeked().text@,
                    );
                }
                return Err(e);
            },
        }
        proof {
            lemma_stmt_trans(*self, gi, *old(self));
            lemma_grows_contains(
                self.symbols_view(),
                g.symbols_view(),
                old(self).peeked().text@,
            );
        }
        Ok(())
    }

    /// One statement, recognized and translated in place:
    ///
    /// ```text
    /// statement ::= "PRINT" (expression | STRING) nl
    ///             | "IF" comparison "THEN" nl {statement} "ENDIF" nl
    ///             | "WHILE" comparison "REPEAT" nl {statement} "ENDWHILE" nl
    ///             | "LABEL" IDENT nl
    ///             | "GOTO" IDENT nl
    ///             | "LET" IDENT "=" expression nl
    ///             | "INPUT" IDENT nl
    /// ```
    ///
    /// A `LABEL` whose name was already declared aborts with a duplicate
    /// label error; a `GOTO` only records the referenced name, whose
    /// existence is checked at the end of the program.
    fn statement(&mut self) -> (r: Result<(), CompileError>)
        requires
            old(self).wf(),
        ensures
            final(self).wf(),
            stmt_step(*final(self), *old(self)),
            r matches Err(e) ==> !(e is UndeclaredLabel),
            r matches Err(CompileError::UseBeforeAssignment(s)) ==> !final(self).symbols_view().contains(s@),
            r matches Err(CompileError::DuplicateLabel(s)) ==> final(self).labels_declared_view().contains(s@),
            r is Ok ==> final(self).remaining() < old(self).remaining(),
            !is_statement_start(old(self).cur().kind) ==> (r matches Err(
                CompileError::ParseInvalidStatement(k, s),
            ) && k == old(self).cur().kind && s@ == old(self).cur().text@),
            old(self).cur().kind == TokenType::LABEL && old(self).next_lex_ok() && old(self).labels_declared_view().contains(old(self).peeked().text@) ==> (r matches Err(
                CompileError::DuplicateLabel(s),
            ) && s@ == old(self).peeked().text@),
            r is Ok && old(self).cur().kind == TokenType::LABEL ==> {
                &&& final(self).labels_declared_view() == old(self).labels_declared_view().push(
                    old(self).peeked().text@,
                )
                &&& !old(self).labels_declared_view().contains(old(self).peeked().text@)
                &&& final(self).sink().code() == old(self).sink().code() + old(self).peeked().text@ + ":"@ + "\n"@
            },
            r is Ok && old(self).cur().kind == TokenType::GOTO ==> {
                &&& final(self).labels_gotoed_view() == old(self).labels_gotoed_view().push(
                    old(self).peeked().text@,
                )
                &&& final(self).sink().code() == old(self).sink().code() + "goto "@ + old(self).peeked().text@ + ";"@ + "\n"@
            },
            r is Ok && (old(self).cur().kind == TokenType::LET || old(self).cur().kind
                == TokenType::INPUT) ==> final(self).symbols_view().contains(
                old(self).peeked().text@,
            ),
            r is Ok && (old(self).cur().kind == TokenType::LET || old(self).cur().kind
                == TokenType::INPUT) && !old(self).symbols_view().contains(
                old(self).peeked().text@,
            ) ==> final(self).symbols_view() == old(self).symbols_view().push(
                old(self).peeked().text@,
            ) && final(self).sink().header() == old(self).sink().header() + decl_text(
                old(self).peeked().text@,
            ),
            r is Ok && (old(self).cur().kind == TokenType::LET || old(self).cur().kind
                == TokenType::INPUT) && old(self).symbols_view().contains(
                old(self).peeked().text@,
            ) ==> final(self).symbols_view() == old(self).symbols_view()
                && final(self).sink().header() == old(self).sink().header(),
            r is Ok && old(self).cur().kind == TokenType::PRINT && old(self).peeked().kind
                == TokenType::STRING ==> final(self).sink().code() == old(self).sink().code()
                + "printf(\""@ + old(self).peeked().text@ + "\\n\");"@ + "\n"@,
            r is Ok && old(self).cur().kind == TokenType::PRINT && old(self).peeked().kind
                != TokenType::STRING ==> gained_wrapped(
                final(self).sink().code(),
                old(self).sink().code(),
                "printf(\"%.2f\\n\", (float)("@,
                "));"@ + "\n"@,
            ),
            r is Ok && old(self).cur().kind == TokenType::LET ==> gained_wrapped(
                final(self).sink().code(),
                old(self).sink().code(),
                old(self).peeked().text@ + " = "@,
                ";"@ + "\n"@,
            ),
            r is Ok && old(self).cur().kind == TokenType::INPUT ==> final(self).sink().code()
                == old(self).sink().code() + "if(0 == scanf(\"%f\", &"@ + old(self).peeked().text@ + ")) {"@ + "\n"@ + old(self).peeked().text@ + " = 0;"@ + "\n"@
                + "scanf(\"%"@ + "*s\");"@ + "\n"@ + "}"@ + "\n"@,
            r is Ok && old(self).cur().kind == TokenType::IF ==> gained_block(
                final(self).sink().code(),
                old(self).sink().code(),
                "if("@,
                ") {"@ + "\n"@,
                "}"@ + "\n"@,
            ),
            r is Ok && old(self).cur().kind == TokenType::WHILE ==> gained_block(
                final(self).sink().code(),
                old(self).sink().code(),
                "while("@,
                "){"@ + "\n"@,
                "}"@ + "\n"@,
            ),
            old(self).simple_goto() ==> r is Ok && final(self).cur().kind == old(self).after_tail_kind() && final(self).labels_gotoed_view() == old(self).labels_gotoed_view().push(old(self).peeked().text@) && final(self).labels_declared_view() == old(self).labels_declared_view(),
            old(self).simple_label() ==> r is Ok && final(self).cur().kind == old(self).after_tail_kind() && final(self).labels_declared_view() == old(self).labels_declared_view().push(old(self).peeked().text@) && final(self).labels_gotoed_view() == old(self).labels_gotoed_view()
                && final(self).peeked().text@ == old(self).tail_follow_token().1
                && final(self).lex_pos() == old(self).tail_follow_token().2,
            old(self).simple_input() ==> r is Ok && final(self).cur().kind == old(self).after_tail_kind()
                && final(self).labels_gotoed_view() == old(self).labels_gotoed_view()
                && final(self).labels_declared_view() == old(self).labels_declared_view(),
            old(self).simple_print_string() ==> r is Ok && final(self).cur().kind == old(self).after_tail_kind()
                && final(self).labels_gotoed_view() == old(self).labels_gotoed_view()
                && final(self).labels_declared_view() == old(self).labels_declared_view(),
            old(self).simple_let() ==> r is Ok && final(self).cur().kind == old(self).after_let_kind()
                && final(self).labels_gotoed_view() == old(self).labels_gotoed_view()
                && final(self).labels_declared_view() == old(self).labels_declared_view(),
            old(self).simple_print_expr() ==> r is Ok && final(self).cur().kind == old(self).after_tail_kind()
                && final(self).labels_gotoed_view() == old(self).labels_gotoed_view()
                && final(self).labels_declared_view() == old(self).labels_declared_view(),
            old(self).print_of_unassigned() ==> (r matches Err(
                CompileError::UseBeforeAssignment(s),
            ) && s@ == old(self).peeked().text@),
            old(self).if_without_comparator() ==> (r matches Err(
                CompileError::ParseExpectedComparison(k, s),
            ) && k == old(self).next_spec_token().0 && s@ == old(self).next_spec_token().1),
        decreases old(self).remaining(), 1int,
    {
        let step: Result<(), CompileError>;
        if self.check_token(TokenType::PRINT) {
            step = self.print_statement();
        } else if self.check_token(TokenType::IF) {
            step = self.if_statement();
        } else if self.check_token(TokenType::WHILE) {
            step = self.while_statement();
        } else if self.check_token(TokenType::LABEL) {
            step = self.label_statement();
        } else if self.check_token(TokenType::GOTO) {
            step = self.goto_statement();
        } else if self.check_token(TokenType::LET) {
            step = self.let_statement();
        } else if self.check_token(TokenType::INPUT) {
            step = self.input_statement();
        } else {
            return Err(
                CompileError::ParseInvalidStatement(
                    self.current_token.kind,
                    self.current_token.text.clone(),
                ),
            );
        }
        match step {
            Ok(()) => {},
            Err(e) => return Err(e),
        }
        let ghost pre = *self;
        let r = self.nl();
        proof {
            lemma_stmt_trans(*self, pre, *old(self));
            if old(self).simple_label() {
                assert(pre.next_spec_token() == old(self).tail_follow_token());
            }
        }
        r
    }

    /// `program ::= {statement}`: emits the fixed preamble, tolerates
    /// leading blank lines, recognizes statements until end of input,
    /// emits the closing return and brace, and then performs the deferred
    /// label-resolution sweep: every referenced label must have been
    /// declared, else the run aborts naming an undeclared label.
    #[verifier::rlimit(50)]
    #[verifier::loop_isolation(false)]
    pub fn program(&mut self) -> (r: Result<(), CompileError>)
        requires
            old(self).wf(),
        ensures
            final(self).wf(),
            stmt_step(*final(self), *old(self)),
            grows(
                final(self).sink().header(),
                old(self).sink().header() + "#include <stdio.h>"@ + "\n"@ + "int main(void){"@
                    + "\n"@,
            ),
            r is Ok ==> forall|l: Seq<char>|
                final(self).labels_gotoed_view().contains(l)
                    ==> final(self).labels_declared_view().contains(l),
            r is Ok ==> ends_with(final(self).sink().code(), "return 0;"@ + "\n"@ + "}"@ + "\n"@),
            r matches Err(CompileError::UndeclaredLabel(s)) ==> (
            final(self).labels_gotoed_view().contains(s@)
                && !final(self).labels_declared_view().contains(s@)),
            r matches Err(CompileError::DuplicateLabel(s)) ==> final(self).labels_declared_view().contains(s@),
            r matches Err(CompileError::UseBeforeAssignment(s)) ==> !final(self).symbols_view().contains(s@),
            old(self).cur().kind == TokenType::EOF && (forall|l: Seq<char>|
                old(self).labels_gotoed_view().contains(l) ==> old(self).labels_declared_view().contains(l)) ==> r is Ok,
            old(self).cur().kind == TokenType::EOF && !(forall|l: Seq<char>|
                old(self).labels_gotoed_view().contains(l) ==> old(self).labels_declared_view().contains(l)) ==> (r matches Err(
                CompileError::UndeclaredLabel(s),
            ) && old(self).labels_gotoed_view().contains(s@) && !old(self).labels_declared_view().contains(s@)),
            old(self).single_goto_program() && old(self).labels_resolvable() && old(
                self,
            ).labels_declared_view().contains(old(self).peeked().text@) ==> r is Ok,
            old(self).single_goto_program() && old(self).labels_resolvable() && !old(
                self,
            ).labels_declared_view().contains(old(self).peeked().text@) ==> (r matches Err(
                CompileError::UndeclaredLabel(s),
            ) && s@ == old(self).peeked().text@),
            old(self).single_label_program() && old(self).labels_resolvable() ==> r is Ok,
            old(self).single_plain_program() && old(self).labels_resolvable() ==> r is Ok,
            old(self).print_of_unassigned() ==> (r matches Err(
                CompileError::UseBeforeAssignment(s),
            ) && s@ == old(self).peeked().text@),
            old(self).if_without_comparator() ==> (r matches Err(
                CompileError::ParseExpectedComparison(k, s),
            ) && k == old(self).next_spec_token().0 && s@ == old(self).next_spec_token().1),
            old(self).double_label_program() ==> (r matches Err(CompileError::DuplicateLabel(s))
                && s@ == old(self).peeked().text@),
    {
        self.emitter.header_line("#include <stdio.h>".to_owned());
        self.emitter.header_line("int main(void){".to_owned());
        let ghost g0 = *self;
        proof {
            assert(g0.sink().header() =~= old(self).sink().header() + ("#include <stdio.h>"@
                + "\n"@ + "int main(void){"@ + "\n"@));
            assert(g0.sink().header() =~= old(self).sink().header() + "#include <stdio.h>"@
                + "\n"@ + "int main(void){"@ + "\n"@);
            assert forall|i: int| 0 <= i < g0.symbols_view().len() implies declares(
                g0.sink().header(),
                #[trigger] g0.symbols_view()[i],
            ) by {
                assert(declares(old(self).sink().header(), g0.symbols_view()[i]));
                lemma_grows_preserves_declares(
                    g0.sink().header(),
                    old(self).sink().header(),
                    g0.symbols_view()[i],
                );
            }
            lemma_grows_eq(g0.consumed(), old(self).consumed());
        }
        while self.check_token(TokenType::NEWLINE)
            invariant
                self.wf(),
                stmt_step(*self, g0),
                old(self).cur().kind != TokenType::NEWLINE ==> *self == g0,
            decreases self.remaining(),
        {
            let ghost n1 = *self;
            match self.next_token() {
                Ok(()) => {},
                Err(e) => {
                    proof {
                        lemma_grows_eq(self.consumed(), n1.consumed());
                        lemma_stmt_trans(*self, n1, g0);
                        lemma_stmt_trans(*self, g0, *old(self));
                    }
                    return Err(e);
                },
            }
            proof {
                lemma_stmt_trans(*self, n1, g0);
            }
        }
        while !self.check_token(TokenType::EOF)
            invariant
                self.wf(),
                stmt_step(*self, g0),
                old(self).cur().kind == TokenType::EOF ==> *self == g0,
                old(self).single_goto_program() ==> (*self == g0) || (self.cur().kind
                    == TokenType::EOF && self.labels_gotoed_view() == old(
                    self,
                ).labels_gotoed_view().push(old(self).peeked().text@)
                    && self.labels_declared_view() == old(self).labels_declared_view()),
                old(self).single_label_program() ==> (*self == g0) || (self.cur().kind
                    == TokenType::EOF && self.labels_declared_view() == old(
                    self,
                ).labels_declared_view().push(old(self).peeked().text@)
                    && self.labels_gotoed_view() == old(self).labels_gotoed_view()),
                old(self).single_plain_program() ==> (*self == g0) || (self.cur().kind
                    == TokenType::EOF && self.labels_declared_view() == old(
                    self,
                ).labels_declared_view() && self.labels_gotoed_view() == old(
                    self,
                ).labels_gotoed_view()),
                old(self).print_of_unassigned() ==> *self == g0,
                old(self).if_without_comparator() ==> *self == g0,
                old(self).double_label_program() ==> (*self == g0) || (self.cur().kind
                    == TokenType::LABEL && self.peeked().text@ == old(self).peeked().text@
                    && self.next_lex_ok() && self.labels_declared_view().contains(
                    old(self).peeked().text@,
                )),
            decreases self.remaining(),
        {
            let ghost g1 = *self;
            match self.statement() {
                Ok(()) => {},
                Err(e) => {
                    proof {
                        lemma_stmt_trans(*self, g1, g0);
                        lemma_stmt_trans(*self, g0, *old(self));
                    }
                    return Err(e);
                },
            }
            proof {
                lemma_stmt_trans(*self, g1, g0);
                if old(self).double_label_program() {
                    assert(self.labels_declared_view()[self.labels_declared_view().len() - 1]
                        == old(self).peeked().text@);
                    assert(self.labels_declared_view().contains(old(self).peeked().text@));
                }
            }
        }
        let ghost g2 = *self;
        self.emitter.emit_line("return 0;".to_owned());
        self.emitter.emit_line("}".to_owned());
        proof {
            assert(self.sink().code() =~= g2.sink().code() + ("return 0;"@ + "\n"@ + "}"@
                + "\n"@));
            lemma_contains_at_end(g2.sink().code(), "return 0;"@ + "\n"@ + "}"@ + "\n"@);
            assert(ends_with(self.sink().code(), "return 0;"@ + "\n"@ + "}"@ + "\n"@));
            lemma_grows_eq(self.consumed(), g2.consumed());
            lemma_stmt_trans(*self, g2, g0);
            lemma_stmt_trans(*self, g0, *old(self));
            if old(self).single_goto_program() && old(self).labels_resolvable() && old(
                self,
            ).labels_declared_view().contains(old(self).peeked().text@) {
                assert forall|l: Seq<char>| self.labels_gotoed_view().contains(l) implies self
                    .labels_declared_view().contains(l) by {
                    let j = choose|j: int|
                        0 <= j < self.labels_gotoed_view().len() && self.labels_gotoed_view()[j]
                            == l;
                    if j < old(self).labels_gotoed_view().len() {
                        assert(old(self).labels_gotoed_view()[j] == l);
                        assert(old(self).labels_gotoed_view().contains(l));
                    } else {
                        assert(l == old(self).peeked().text@);
                    }
                }
            }
            if old(self).single_label_program() && old(self).labels_resolvable() {
                assert forall|l: Seq<char>| self.labels_gotoed_view().contains(l) implies self
                    .labels_declared_view().contains(l) by {
                    assert(old(self).labels_gotoed_view().contains(l));
                    assert(old(self).labels_declared_view().contains(l));
                    lemma_grows_contains(
                        self.labels_declared_view(),
                        old(self).labels_declared_view(),
                        l,
                    );
                }
            }
        }
        let mut i: usize = 0;
        while i < self.labels_gotoed.len()
            invariant
                i <= self.labels_gotoed.len(),
                forall|j: int|
                    0 <= j < i ==> self.labels_declared_view().contains(
                        #[trigger] self.labels_gotoed_view()[j],
                    ),
            decreases self.labels_gotoed.len() - i,
        {
            if !contains_name(&self.labels_declared, &self.labels_gotoed[i]) {
                let missing = self.labels_gotoed[i].clone();
                proof {
                    assert(self.labels_gotoed_view()[i as int] == missing@);
                    assert(self.labels_gotoed_view().contains(missing@));
                    if old(self).single_goto_program() && old(self).labels_resolvable() {
                        if (i as int) < old(self).labels_gotoed_view().len() {
                            assert(old(self).labels_gotoed_view()[i as int] == missing@);
                            assert(old(self).labels_gotoed_view().contains(missing@));
                            assert(old(self).labels_declared_view().contains(missing@));
                        } else {
                            assert(missing@ == old(self).peeked().text@);
                        }
                    }
                    if old(self).single_label_program() && old(self).labels_resolvable() {
                        assert(old(self).labels_gotoed_view().contains(missing@));
                        assert(old(self).labels_declared_view().contains(missing@));
                        lemma_grows_contains(
                            self.labels_declared_view(),
                            old(self).labels_declared_view(),
                            missing@,
                        );
                    }
                    if old(self).single_plain_program() && old(self).labels_resolvable() {
                        assert(old(self).labels_gotoed_view().contains(missing@));
                        assert(old(self).labels_declared_view().contains(missing@));
                    }
                }
                return Err(CompileError::UndeclaredLabel(missing));
            }
            proof {
                assert(self.labels_gotoed_view()[i as int] == self.labels_gotoed@[i as int]@);
            }
            i = i + 1;
        }
        proof {
            assert forall|l: Seq<char>| self.labels_gotoed_view().contains(l) implies self
                .labels_declared_view().contains(l) by {
                let j = choose|j: int|
                    0 <= j < self.labels_gotoed_view().len() && self.labels_gotoed_view()[j] == l;
                assert(self.labels_declared_view().contains(self.labels_gotoed_view()[j]));
            }
            if old(self).single_goto_program() && !old(self).labels_declared_view().contains(
                old(self).peeked().text@,
            ) {
                let name = old(self).peeked().text@;
                assert(self.labels_gotoed_view()[self.labels_gotoed_view().len() - 1] == name);
                assert(self.labels_gotoed_view().contains(name));
                assert(self.labels_declared_view().contains(name));
            }
        }
        Ok(())
    }
}

/// No generated read of an identifier precedes its declaration in the
/// artifact. `primary` is the only place a read reaches the body buffer,
/// and its contract admits an identifier only when it already stands in
/// the symbol table; this lemma closes the chain: every identifier in the
/// symbol table has its one-time declaration in the header buffer, and
/// the whole header stands before the whole body in the final output, so
/// the declaration precedes every read of the name.
pub proof fn lemma_read_after_declaration(p: &Parser, name: Seq<char>)
    requires
        p.wf(),
        p.symbols_view().contains(name),
    ensures
        exists|k: int|
            #[trigger] contains_at(p.sink().output(), decl_text(name), k) && k + decl_text(
                name,
            ).len() <= p.sink().header().len(),
{
    let i = choose|i: int| 0 <= i < p.symbols_view().len() && p.symbols_view()[i] == name;
    assert(declares(p.sink().header(), p.symbols_view()[i]));
    let k = choose|k: int| contains_at(p.sink().header(), decl_text(name), k);
    lemma_grows_concat(p.sink().header(), p.sink().code());
    lemma_grows_preserves_contains_at(p.sink().output(), p.sink().header(), decl_text(name), k);
    assert(contains_at(p.sink().output(), decl_text(name), k) && k + decl_text(name).len()
        <= p.sink().header().len());
}

/// The body buffer gained exactly `pre`, then some recognized text, then
/// `post`: the generated fragment's fixed frame around a data-dependent
/// middle (an expression's emitted token texts).
pub open spec fn gained_wrapped(
    now: Seq<char>,
    before: Seq<char>,
    pre: Seq<char>,
    post: Seq<char>,
) -> bool {
    exists|e: Seq<char>| now == before + pre + e + post
}

/// The body buffer gained `pre`, a comparison's text, `mid`, a block's
/// statements' text, and `post`: the frame of a translated conditional or
/// loop.
pub open spec fn gained_block(
    now: Seq<char>,
    before: Seq<char>,
    pre: Seq<char>,
    mid: Seq<char>,
    post: Seq<char>,
) -> bool {
    exists|c: Seq<char>, b: Seq<char>| now == before + pre + c + mid + b + post
}

/// Each identifier joins the symbol table at most once, and each label
/// name is declared at most once: the first-use check before every
/// insertion keeps both bookkeeping lists free of duplicates, so exactly
/// one declaration line is generated per variable and one target line per
/// label.
pub proof fn lemma_names_tabled_once(p: &Parser)
    requires
        p.wf(),
    ensures
        distinct(p.symbols_view()),
        distinct(p.labels_declared_view()),
{
}

/// One recognition step's effect on the whole state: the source stays as
/// it was, both output buffers and all three collected sets only grow,
/// and input is never un-consumed.
pub open spec fn stmt_step(now: Parser, before: Parser) -> bool {
    &&& now.src() == before.src()
    &&& now.sink().path() == before.sink().path()
    &&& grows(now.sink().code(), before.sink().code())
    &&& grows(now.sink().header(), before.sink().header())
    &&& grows(now.symbols_view(), before.symbols_view())
    &&& grows(now.labels_declared_view(), before.labels_declared_view())
    &&& grows(now.labels_gotoed_view(), before.labels_gotoed_view())
    &&& grows(now.consumed(), before.consumed())
    &&& now.remaining() <= before.remaining()
}

pub proof fn lemma_stmt_trans(c: Parser, b: Parser, a: Parser)
    requires
        stmt_step(c, b),
        stmt_step(b, a),
    ensures
        stmt_step(c, a),
{
    lemma_grows_trans(c.sink().code(), b.sink().code(), a.sink().code());
    lemma_grows_trans(c.sink().header(), b.sink().header(), a.sink().header());
    lemma_grows_trans(c.symbols_view(), b.symbols_view(), a.symbols_view());
    lemma_grows_trans(c.labels_declared_view(), b.labels_declared_view(), a.labels_declared_view());
    lemma_grows_trans(c.labels_gotoed_view(), b.labels_gotoed_view(), a.labels_gotoed_view());
    lemma_grows_trans(c.consumed(), b.consumed(), a.consumed());
}

/// An expression step is a statement step that happens to leave the
/// header and the collected sets untouched.
pub proof fn lemma_expr_as_stmt(c: Parser, b: Parser)
    requires
        expr_step(c, b),
    ensures
        stmt_step(c, b),
{
}

/// Between two states of the translator, the body buffer gained exactly
/// the texts of the tokens consumed between them, in source order: the
/// expression layer emits precisely what it consumes, operands and
/// operators verbatim, with no separators.
pub open spec fn emits_consumed(now: Parser, before: Parser) -> bool {
    &&& grows(now.consumed(), before.consumed())
    &&& now.sink().code() == before.sink().code() + now.consumed().subrange(
        before.consumed().len() as int,
        now.consumed().len() as int,
    )
}

pub proof fn lemma_emits_trans(c: Parser, b: Parser, a: Parser)
    requires
        emits_consumed(c, b),
        emits_consumed(b, a),
    ensures
        emits_consumed(c, a),
{
    lemma_grows_trans(c.consumed(), b.consumed(), a.consumed());
    let al = a.consumed().len() as int;
    let bl = b.consumed().len() as int;
    let cl = c.consumed().len() as int;
    let s1 = b.consumed().subrange(al, bl);
    let s2 = c.consumed().subrange(bl, cl);
    assert forall|j: int| 0 <= j < bl implies c.consumed()[j] == b.consumed()[j] by {
        assert(c.consumed().subrange(0, bl)[j] == b.consumed()[j]);
    }
    assert(c.consumed().subrange(al, cl) =~= s1 + s2);
    assert(c.sink().code() =~= a.sink().code() + (s1 + s2));
}

/// One step that consumes one token and emits exactly its text.
pub proof fn lemma_emits_one(now: Parser, before: Parser, t: Seq<char>)
    requires
        now.consumed() == before.consumed() + t,
        now.sink().code() == before.sink().code() + t,
    ensures
        emits_consumed(now, before),
{
    assert(now.consumed().subrange(before.consumed().len() as int, now.consumed().len() as int)
        =~= t);
}

/// A step that consumes nothing and emits nothing.
pub proof fn lemma_emits_none(now: Parser, before: Parser)
    requires
        now.consumed() == before.consumed(),
        now.sink().code() == before.sink().code(),
    ensures
        emits_consumed(now, before),
{
    lemma_grows_eq(now.consumed(), before.consumed());
    assert(now.consumed().subrange(before.consumed().len() as int, now.consumed().len() as int)
        =~= Seq::<char>::empty());
    assert(now.sink().code() =~= before.sink().code() + Seq::<char>::empty());
}

/// One recognition step's effect on the parts of the state an expression
/// may touch: the source and every collected set stay as they were, only
/// the body buffer grows, and input is never un-consumed.
pub open spec fn expr_step(now: Parser, before: Parser) -> bool {
    &&& now.src() == before.src()
    &&& now.sink().header() == before.sink().header()
    &&& now.sink().path() == before.sink().path()
    &&& now.symbols_view() == before.symbols_view()
    &&& now.labels_declared_view() == before.labels_declared_view()
    &&& now.labels_gotoed_view() == before.labels_gotoed_view()
    &&& grows(now.sink().code(), before.sink().code())
    &&& grows(now.consumed(), before.consumed())
    &&& now.remaining() <= before.remaining()
}

pub proof fn lemma_expr_trans(c: Parser, b: Parser, a: Parser)
    requires
        expr_step(c, b),
        expr_step(b, a),
    ensures
        expr_step(c, a),
{
    lemma_grows_trans(c.sink().code(), b.sink().code(), a.sink().code());
    lemma_grows_trans(c.consumed(), b.consumed(), a.consumed());
}

} // verus!
