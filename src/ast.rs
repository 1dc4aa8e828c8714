//! The syntax tree and the recursive-descent parser.
use vstd::prelude::*;
use crate::token::{Keyword, Literal, Token, TokenView, Word, lex, lex_spec, views};

verus! {

broadcast use crate::token::lemma_skip_skip;

/// A cursor with one token of lookahead over a buffer of tokens.
pub struct Tokens {
    tokens: Vec<Token>,
    pos: usize,
}

impl Tokens {
    /// Every token of the buffer.
    pub closed spec fn all(&self) -> Seq<TokenView> {
        views(self.tokens@)
    }

    /// How many tokens have been taken.
    pub closed spec fn pos(&self) -> int {
        self.pos as int
    }

    pub open spec fn wf(&self) -> bool {
        0 <= self.pos() <= self.all().len()
    }

    /// The tokens not yet taken.
    pub open spec fn rest(&self) -> Seq<TokenView> {
        self.all().skip(self.pos())
    }

    pub fn new(tokens: Vec<Token>) -> (r: Tokens)
        ensures
            r.wf(),
            r.all() == views(tokens@),
            r.pos() == 0,
    {
        Tokens { tokens, pos: 0 }
    }

    /// The next token, left in place.
    pub fn peek(&self) -> (r: Option<&Token>)
        requires
            self.wf(),
        ensures
            r is None <==> self.rest().len() == 0,
            r matches Some(t) ==> t@ == self.rest()[0],
    {
        if self.pos < self.tokens.len() {
            Some(&self.tokens[self.pos])
        } else {
            None
        }
    }

    /// The next token, taken.
    pub fn next(&mut self) -> (r: Option<Token>)
        requires
            old(self).wf(),
        ensures
            final(self).wf(),
            final(self).all() == old(self).all(),
            r is None <==> old(self).rest().len() == 0,
            r is None ==> final(self).pos() == old(self).pos(),
            r matches Some(t) ==> t@ == old(self).rest()[0] && final(self).pos() == old(self).pos() + 1,
    {
        if self.pos < self.tokens.len() {
            let t = self.tokens[self.pos].duplicate();
            self.pos = self.pos + 1;
            Some(t)
        } else {
            None
        }
    }
}

/// Why a parse stopped: the tokens ran out where one was required, or a token
/// came that no continuation accepts.
#[derive(Debug)]
pub enum Error {
    Eof,
    Unexpected { expected: &'static str, got: Token },
}

/// An error with its expectation as text.
pub enum ErrorView {
    Eof,
    Unexpected(Seq<char>, TokenView),
}

impl View for Error {
    type V = ErrorView;

    open spec fn view(&self) -> ErrorView {
        match self {
            Error::Eof => ErrorView::Eof,
            Error::Unexpected { expected, got } => ErrorView::Unexpected(expected@, got@),
        }
    }
}

/// The root of the tree: its items, in order.
#[derive(Debug)]
pub struct Module {
    pub items: Vec<Item>,
}

#[derive(Debug)]
pub enum Item {
    Function(Function),
}

/// A function declaration. Argument names are not checked for duplicates.
#[derive(Debug)]
pub struct Function {
    pub name: Word,
    pub args: Vec<Argument>,
    pub body: Block,
}

/// An argument: its name and its declared type.
#[derive(Debug)]
pub struct Argument {
    pub name: Word,
    pub type_: Word,
}

/// A sequence of statements, each ended by `;` in the source.
#[derive(Debug)]
pub struct Block {
    pub statements: Vec<Statement>,
}

#[derive(Debug)]
pub enum Statement {
    Expression(Expression),
}

#[derive(Debug)]
pub enum Expression {
    Dot(Dot),
    Call(Call),
    Block(Block),
    Literal(Literal),
    Word(Word),
}

/// Member access `left.right`.
#[derive(Debug)]
pub struct Dot {
    pub left: Box<Expression>,
    pub right: Box<Expression>,
}

/// A call `left(args)`.
#[derive(Debug)]
pub struct Call {
    pub left: Box<Expression>,
    pub args: Vec<Expression>,
}

/// An expression as a mathematical tree; a block is the sequence of its
/// statements' expressions.
pub enum ExprView {
    Word(Seq<u8>),
    Literal(Seq<u8>),
    Block(Seq<ExprView>),
    Dot(Box<ExprView>, Box<ExprView>),
    Call(Box<ExprView>, Seq<ExprView>),
}

/// A function: its name, its arguments as (name, type) pairs, its body.
pub struct FunctionView {
    pub name: Seq<u8>,
    pub args: Seq<(Seq<u8>, Seq<u8>)>,
    pub body: Seq<ExprView>,
}

pub open spec fn expr_view(e: Expression) -> ExprView
    decreases e,
{
    match e {
        Expression::Word(w) => ExprView::Word(w.0@),
        Expression::Literal(Literal::String(s)) => ExprView::Literal(s.0@),
        Expression::Block(b) => ExprView::Block(stmts_view(b.statements@)),
        Expression::Dot(d) => ExprView::Dot(
            Box::new(expr_view(*d.left)),
            Box::new(expr_view(*d.right)),
        ),
        Expression::Call(c) => ExprView::Call(Box::new(expr_view(*c.left)), exprs_view(c.args@)),
    }
}

pub open spec fn exprs_view(s: Seq<Expression>) -> Seq<ExprView>
    decreases s,
{
    if s.len() == 0 {
        Seq::empty()
    } else {
        exprs_view(s.subrange(0, s.len() - 1)).push(expr_view(s[s.len() - 1]))
    }
}

pub open spec fn stmts_view(s: Seq<Statement>) -> Seq<ExprView>
    decreases s,
{
    if s.len() == 0 {
        Seq::empty()
    } else {
        let Statement::Expression(e) = s[s.len() - 1];
        stmts_view(s.subrange(0, s.len() - 1)).push(expr_view(e))
    }
}


impl View for Expression {
    type V = ExprView;

    open spec fn view(&self) -> ExprView {
        expr_view(*self)
    }
}

impl View for Block {
    type V = Seq<ExprView>;

    open spec fn view(&self) -> Seq<ExprView> {
        stmts_view(self.statements@)
    }
}

impl View for Statement {
    type V = ExprView;

    open spec fn view(&self) -> ExprView {
        let Statement::Expression(e) = *self;
        expr_view(e)
    }
}

impl View for Argument {
    type V = (Seq<u8>, Seq<u8>);

    open spec fn view(&self) -> (Seq<u8>, Seq<u8>) {
        (self.name.0@, self.type_.0@)
    }
}

impl View for Function {
    type V = FunctionView;

    open spec fn view(&self) -> FunctionView {
        FunctionView {
            name: self.name.0@,
            args: args_view(self.args@),
            body: self.body@,
        }
    }
}

impl View for Item {
    type V = FunctionView;

    open spec fn view(&self) -> FunctionView {
        let Item::Function(f) = *self;
        f@
    }
}

impl View for Module {
    type V = Seq<FunctionView>;

    open spec fn view(&self) -> Seq<FunctionView> {
        items_view(self.items@)
    }
}

pub open spec fn args_view(s: Seq<Argument>) -> Seq<(Seq<u8>, Seq<u8>)> {
    s.map_values(|a: Argument| a@)
}

pub open spec fn items_view(s: Seq<Item>) -> Seq<FunctionView> {
    s.map_values(|i: Item| i@)
}

proof fn lemma_args_push(s: Seq<Argument>, a: Argument)
    ensures
        args_view(s.push(a)) == args_view(s) + seq![a@],
{
    assert(args_view(s.push(a)) =~= args_view(s) + seq![a@]);
}

proof fn lemma_items_push(s: Seq<Item>, i: Item)
    ensures
        items_view(s.push(i)) == items_view(s) + seq![i@],
{
    assert(items_view(s.push(i)) =~= items_view(s) + seq![i@]);
}

proof fn lemma_append_assoc<A>(a: Seq<A>, b: Seq<A>, c: Seq<A>)
    ensures
        (a + b) + c == a + (b + c),
{
    assert((a + b) + c =~= a + (b + c));
}

/// The result of a production on a token sequence: what it built and how many
/// tokens it took, or the error it stopped on.
pub type Parsed<T> = Result<(T, nat), ErrorView>;

pub open spec fn unexpected<T>(expected: Seq<char>, got: TokenView) -> Parsed<T> {
    Err(ErrorView::Unexpected(expected, got))
}

/// `Word`, at the front of `ts`.
pub open spec fn word_spec(ts: Seq<TokenView>) -> Parsed<Seq<u8>> {
    if ts.len() == 0 {
        Err(ErrorView::Eof)
    } else {
        match ts[0] {
            TokenView::Word(w) => Ok((w, 1)),
            t => unexpected("word"@, t),
        }
    }
}

/// `Argument := Word ':' Word`
pub open spec fn argument_spec(ts: Seq<TokenView>) -> Parsed<(Seq<u8>, Seq<u8>)> {
    match word_spec(ts) {
        Err(e) => Err(e),
        Ok((name, _)) => if ts.len() < 2 {
            Err(ErrorView::Eof)
        } else if !(ts[1] is Colon) {
            unexpected("`:`"@, ts[1])
        } else {
            match word_spec(ts.skip(2)) {
                Err(e) => Err(e),
                Ok((ty, _)) => Ok(((name, ty), 3)),
            }
        },
    }
}

/// The arguments of a function after its `(`, up to and with the closing `)`:
/// either `)` at once, or a non-empty list.
pub open spec fn arguments_spec(ts: Seq<TokenView>) -> Parsed<Seq<(Seq<u8>, Seq<u8>)>> {
    if ts.len() == 0 {
        Err(ErrorView::Eof)
    } else if ts[0] is RightParen {
        Ok((Seq::empty(), 1))
    } else {
        arguments_tail_spec(ts)
    }
}

/// `Argument (',' Argument)* ')'`: an argument must follow every comma.
pub open spec fn arguments_tail_spec(ts: Seq<TokenView>) -> Parsed<Seq<(Seq<u8>, Seq<u8>)>>
    decreases ts.len(),
{
    match argument_spec(ts) {
        Err(e) => Err(e),
        Ok((a, n)) => if n >= ts.len() {
            Err(ErrorView::Eof)
        } else {
            match ts[n as int] {
                TokenView::Comma => match arguments_tail_spec(ts.skip(n + 1int)) {
                    Err(e) => Err(e),
                    Ok((rest, m)) => Ok((seq![a] + rest, n + 1 + m)),
                },
                TokenView::RightParen => Ok((seq![a], n + 1)),
                t => unexpected("`,` or `)`"@, t),
            }
        },
    }
}

/// `Base := Word | Literal | '{' Block '}'`
pub open spec fn base_spec(ts: Seq<TokenView>) -> Parsed<ExprView>
    decreases ts.len(), 0int,
{
    if ts.len() == 0 {
        Err(ErrorView::Eof)
    } else {
        match ts[0] {
            TokenView::Word(w) => Ok((ExprView::Word(w), 1)),
            TokenView::Literal(l) => Ok((ExprView::Literal(l), 1)),
            TokenView::LeftBrace => match block_spec(ts.skip(1)) {
                Err(e) => Err(e),
                Ok((b, n)) => if n + 1 >= ts.len() {
                    Err(ErrorView::Eof)
                } else if ts[n + 1int] is RightBrace {
                    Ok((ExprView::Block(b), n + 2))
                } else {
                    unexpected("closing brace `}`"@, ts[n + 1int])
                },
            },
            t => unexpected("word, literal, or `{`"@, t),
        }
    }
}

/// The postfix operators `.Base` and `(args)` after `acc`, folded from the left.
pub open spec fn postfix_spec(ts: Seq<TokenView>, acc: ExprView) -> Parsed<ExprView>
    decreases ts.len(), 1int,
{
    if ts.len() == 0 {
        Ok((acc, 0))
    } else {
        match ts[0] {
            TokenView::Dot => match base_spec(ts.skip(1)) {
                Err(e) => Err(e),
                Ok((rhs, n)) => if n + 1 <= ts.len() {
                    match postfix_spec(ts.skip(n + 1int), ExprView::Dot(Box::new(acc), Box::new(rhs))) {
                        Err(e) => Err(e),
                        Ok((r, m)) => Ok((r, n + 1 + m)),
                    }
                } else {
                    Err(ErrorView::Eof)
                },
            },
            TokenView::LeftParen => if ts.len() >= 2 && ts[1] is RightParen {
                match postfix_spec(ts.skip(2), ExprView::Call(Box::new(acc), Seq::empty())) {
                    Err(e) => Err(e),
                    Ok((r, m)) => Ok((r, 2 + m)),
                }
            } else if ts.len() < 2 {
                Err(ErrorView::Eof)
            } else {
                match call_args_tail_spec(ts.skip(1)) {
                Err(e) => Err(e),
                Ok((args, n)) => if n + 1 <= ts.len() {
                    match postfix_spec(ts.skip(n + 1int), ExprView::Call(Box::new(acc), args)) {
                        Err(e) => Err(e),
                        Ok((r, m)) => Ok((r, n + 1 + m)),
                    }
                } else {
                    Err(ErrorView::Eof)
                },
                }
            },
            _ => Ok((acc, 0)),
        }
    }
}

/// `Expression := Base (('.' Base) | ('(' args ')'))*`
pub open spec fn expr_spec(ts: Seq<TokenView>) -> Parsed<ExprView>
    decreases ts.len(), 2int,
{
    match base_spec(ts) {
        Err(e) => Err(e),
        Ok((b, n)) => if n <= ts.len() {
            match postfix_spec(ts.skip(n as int), b) {
                Err(e) => Err(e),
                Ok((r, m)) => Ok((r, n + m)),
            }
        } else {
            Err(ErrorView::Eof)
        },
    }
}

/// The arguments of a call after its `(` when the next token is not `)`:
/// `Expression (',' Expression)* ')'`, an expression after every comma.
pub open spec fn call_args_tail_spec(ts: Seq<TokenView>) -> Parsed<Seq<ExprView>>
    decreases ts.len(), 3int,
{
    match expr_spec(ts) {
        Err(e) => Err(e),
        Ok((a, n)) => if n >= ts.len() {
            Err(ErrorView::Eof)
        } else {
            match ts[n as int] {
                TokenView::Comma => match call_args_tail_spec(ts.skip(n + 1int)) {
                    Err(e) => Err(e),
                    Ok((rest, m)) => Ok((seq![a] + rest, n + 1 + m)),
                },
                TokenView::RightParen => Ok((seq![a], n + 1)),
                t => unexpected("`,` or `)`"@, t),
            }
        },
    }
}

/// `Statement := Expression ';'`
pub open spec fn statement_spec(ts: Seq<TokenView>) -> Parsed<ExprView>
    decreases ts.len(), 3int,
{
    match expr_spec(ts) {
        Err(e) => Err(e),
        Ok((x, n)) => if n >= ts.len() {
            Err(ErrorView::Eof)
        } else if ts[n as int] is Semicolon {
            Ok((x, n + 1))
        } else {
            unexpected("semicolon `;`"@, ts[n as int])
        },
    }
}

/// `Block := Statement*`, up to (not with) a `}`; the input may not end first.
/// A statement always takes a token at least; the bound on `n` below only
/// makes the recursion visibly finite.
pub open spec fn block_spec(ts: Seq<TokenView>) -> Parsed<Seq<ExprView>>
    decreases ts.len(), 4int,
{
    if ts.len() == 0 {
        Err(ErrorView::Eof)
    } else if ts[0] is RightBrace {
        Ok((Seq::empty(), 0))
    } else {
        match statement_spec(ts) {
            Err(e) => Err(e),
            Ok((x, n)) => if 0 < n <= ts.len() {
                match block_spec(ts.skip(n as int)) {
                    Err(e) => Err(e),
                    Ok((rest, m)) => Ok((seq![x] + rest, n + m)),
                }
            } else {
                Err(ErrorView::Eof)
            },
        }
    }
}


/// `Function := 'func' Word '(' (Argument (',' Argument)*)? ')' '{' Block '}'`
pub open spec fn function_spec(ts: Seq<TokenView>) -> Parsed<FunctionView> {
    if ts.len() == 0 {
        Err(ErrorView::Eof)
    } else if ts[0] != TokenView::Keyword(Keyword::Func) {
        unexpected("`func`"@, ts[0])
    } else {
        match word_spec(ts.skip(1)) {
            Err(e) => Err(e),
            Ok((name, _)) => if ts.len() < 3 {
                Err(ErrorView::Eof)
            } else if !(ts[2] is LeftParen) {
                unexpected("opening parentheses `(`"@, ts[2])
            } else {
                match arguments_spec(ts.skip(3)) {
                    Err(e) => Err(e),
                    Ok((args, n)) => {
                        let k = n + 3;
                        if k >= ts.len() {
                            Err(ErrorView::Eof)
                        } else if !(ts[k as int] is LeftBrace) {
                            unexpected("`{`"@, ts[k as int])
                        } else {
                            match block_spec(ts.skip(k + 1int)) {
                                Err(e) => Err(e),
                                Ok((body, m)) => {
                                    let j = k + 1 + m;
                                    if j >= ts.len() {
                                        Err(ErrorView::Eof)
                                    } else if !(ts[j as int] is RightBrace) {
                                        unexpected("`}`"@, ts[j as int])
                                    } else {
                                        Ok((FunctionView { name, args, body }, j + 1))
                                    }
                                },
                            }
                        }
                    },
                }
            },
        }
    }
}

/// `Module := Item*`, up to a `}` or the end of the input. As in `block_spec`,
/// the bound on `n` only makes the recursion visibly finite.
pub open spec fn module_spec(ts: Seq<TokenView>) -> Parsed<Seq<FunctionView>>
    decreases ts.len(),
{
    if ts.len() == 0 || ts[0] is RightBrace {
        Ok((Seq::empty(), 0))
    } else {
        match function_spec(ts) {
            Err(e) => Err(e),
            Ok((f, n)) => if 0 < n <= ts.len() {
                match module_spec(ts.skip(n as int)) {
                    Err(e) => Err(e),
                    Ok((rest, m)) => Ok((seq![f] + rest, n + m)),
                }
            } else {
                Err(ErrorView::Eof)
            },
        }
    }
}

proof fn lemma_postfix_dot(ts: Seq<TokenView>, acc: ExprView, rhs: ExprView, n: nat)
    requires
        ts.len() > 0,
        ts[0] is Dot,
        base_spec(ts.skip(1)) == Parsed::<ExprView>::Ok((rhs, n)),
        n + 1 <= ts.len(),
    ensures
        postfix_spec(ts, acc) == match postfix_spec(ts.skip(n + 1int), ExprView::Dot(Box::new(acc), Box::new(rhs))) {
            Ok((r, m)) => Ok((r, n + 1 + m)),
            Err(e) => Err(e),
        },
{
}

proof fn lemma_postfix_call(ts: Seq<TokenView>, acc: ExprView, args: Seq<ExprView>, n: nat)
    requires
        ts.len() > 0,
        ts[0] is LeftParen,
        ts.len() >= 2,
        !(ts[1] is RightParen),
        call_args_tail_spec(ts.skip(1)) == Parsed::<Seq<ExprView>>::Ok((args, n)),
        n + 1 <= ts.len(),
    ensures
        postfix_spec(ts, acc) == match postfix_spec(ts.skip(n + 1int), ExprView::Call(Box::new(acc), args)) {
            Ok((r, m)) => Ok((r, n + 1 + m)),
            Err(e) => Err(e),
        },
{
}

proof fn lemma_postfix_empty_call(ts: Seq<TokenView>, acc: ExprView)
    requires
        ts.len() >= 2,
        ts[0] is LeftParen,
        ts[1] is RightParen,
    ensures
        postfix_spec(ts, acc) == match postfix_spec(ts.skip(2), ExprView::Call(Box::new(acc), Seq::empty())) {
            Ok((r, m)) => Ok((r, 2 + m)),
            Err(e) => Err(e),
        },
{
}

proof fn lemma_block_step(ts: Seq<TokenView>, x: ExprView, n: nat)
    requires
        ts.len() > 0,
        !(ts[0] is RightBrace),
        statement_spec(ts) == Parsed::<ExprView>::Ok((x, n)),
        0 < n <= ts.len(),
    ensures
        block_spec(ts) == match block_spec(ts.skip(n as int)) {
            Ok((rest, m)) => Ok((seq![x] + rest, n + m)),
            Err(e) => Err(e),
        },
{
}

/// After `e` are the views of `s` followed by that of `e`.
proof fn lemma_exprs_push(s: Seq<Expression>, e: Expression)
    ensures
        exprs_view(s.push(e)) == exprs_view(s).push(expr_view(e)),
{
    assert(s.push(e).subrange(0, s.len() as int) =~= s);
}

proof fn lemma_stmts_push(s: Seq<Statement>, e: Expression)
    ensures
        stmts_view(s.push(Statement::Expression(e))) == stmts_view(s).push(expr_view(e)),
{
    assert(s.push(Statement::Expression(e)).subrange(0, s.len() as int) =~= s);
}

impl Argument {
    pub fn parse(tokens: &mut Tokens) -> (r: Result<Self, Error>)
        requires
            old(tokens).wf(),
        ensures
            final(tokens).wf(),
            final(tokens).all() == old(tokens).all(),
            old(tokens).pos() <= final(tokens).pos(),
            match argument_spec(old(tokens).rest()) {
                Ok((v, n)) => r matches Ok(x) && x@ == v && final(tokens).pos() == old(tokens).pos() + n,
                Err(e) => r matches Err(x) && x@ == e,
            },
    {
        let ghost ts = tokens.rest();
        let name = match tokens.next() {
            Some(Token::Word(word)) => word,
            Some(other) => return Err(Error::Unexpected { expected: "word", got: other }),
            None => return Err(Error::Eof),
        };
        match tokens.next() {
            Some(Token::Colon) => {},
            Some(other) => return Err(Error::Unexpected { expected: "`:`", got: other }),
            None => return Err(Error::Eof),
        }
        assert(tokens.rest() == ts.skip(2));
        let type_ = match tokens.next() {
            Some(Token::Word(word)) => word,
            Some(other) => return Err(Error::Unexpected { expected: "word", got: other }),
            None => return Err(Error::Eof),
        };
        Ok(Argument { name, type_ })
    }
}

impl Block {
    /// The statements of a block, up to (not with) its closing `}`.
    #[verifier::rlimit(100)]
    #[verifier::spinoff_prover]
    pub fn parse_body(tokens: &mut Tokens) -> (r: Result<Self, Error>)
        requires
            old(tokens).wf(),
        ensures
            final(tokens).wf(),
            final(tokens).all() == old(tokens).all(),
            old(tokens).pos() <= final(tokens).pos(),
            match block_spec(old(tokens).rest()) {
                Ok((v, n)) => r matches Ok(x) && x@ == v && final(tokens).pos() == old(tokens).pos() + n,
                Err(e) => r matches Err(x) && x@ == e,
            },
        decreases old(tokens).rest().len(), 4int,
    {
        let ghost ts = tokens.rest();
        let ghost start = tokens.pos();
        let mut statements: Vec<Statement> = Vec::new();
        loop
            invariant
                tokens.wf(),
                tokens.all() == old(tokens).all(),
                start == old(tokens).pos(),
                ts == old(tokens).rest(),
                start <= tokens.pos(),
                tokens.rest() == ts.skip(tokens.pos() - start),
                block_spec(ts) == match block_spec(tokens.rest()) {
                    Ok((rest, m)) => Ok((stmts_view(statements@) + rest, ((tokens.pos() - start) + m) as nat)),
                    Err(e) => Err(e),
                },
            decreases tokens.rest().len(),
        {
            match tokens.peek() {
                Some(Token::RightBrace) => {
                    assert(stmts_view(statements@) + Seq::<ExprView>::empty() =~= stmts_view(statements@));
                    return Ok(Block { statements });
                },
                Some(_) => {
                    let ghost before = tokens.rest();
                    let ghost mark = tokens.pos();
                    let statement = match Statement::parse(tokens) {
                        Ok(s) => s,
                        Err(e) => return Err(e),
                    };
                    let Statement::Expression(e) = statement;
                    proof {
                        lemma_stmts_push(statements@, e);
                        let n = (tokens.pos() - mark) as nat;
                        assert(tokens.rest() == before.skip(n as int));
                        lemma_block_step(before, expr_view(e), n);
                        match block_spec(tokens.rest()) {
                            Ok((rest, m)) => {
                                assert(stmts_view(statements@).push(expr_view(e)) + rest
                                    =~= stmts_view(statements@) + (seq![expr_view(e)] + rest));
                            },
                            Err(_) => {},
                        }
                    }
                    statements.push(Statement::Expression(e));
                },
                None => return Err(Error::Eof),
            }
        }
    }
}

impl Statement {
    pub fn parse(tokens: &mut Tokens) -> (r: Result<Self, Error>)
        requires
            old(tokens).wf(),
        ensures
            final(tokens).wf(),
            final(tokens).all() == old(tokens).all(),
            old(tokens).pos() <= final(tokens).pos(),
            match statement_spec(old(tokens).rest()) {
                Ok((v, n)) => r matches Ok(x) && x@ == v && final(tokens).pos() == old(tokens).pos() + n,
                Err(e) => r matches Err(x) && x@ == e,
            },
        decreases old(tokens).rest().len(), 3int,
    {
        let ghost ts = tokens.rest();
        let ghost start = tokens.pos();
        let expression = match Expression::parse(tokens) {
            Ok(x) => x,
            Err(e) => return Err(e),
        };
        proof {
            assert(tokens.rest() == ts.skip(tokens.pos() - start));
        }
        match tokens.next() {
            Some(Token::Semicolon) => Ok(Statement::Expression(expression)),
            Some(other) => Err(Error::Unexpected { expected: "semicolon `;`", got: other }),
            None => Err(Error::Eof),
        }
    }
}

impl Expression {
    pub fn parse_base(tokens: &mut Tokens) -> (r: Result<Self, Error>)
        requires
            old(tokens).wf(),
        ensures
            final(tokens).wf(),
            final(tokens).all() == old(tokens).all(),
            old(tokens).pos() <= final(tokens).pos(),
            match base_spec(old(tokens).rest()) {
                Ok((v, n)) => r matches Ok(x) && x@ == v && final(tokens).pos() == old(tokens).pos() + n,
                Err(e) => r matches Err(x) && x@ == e,
            },
        decreases old(tokens).rest().len(), 0int,
    {
        let ghost ts = tokens.rest();
        let ghost start = tokens.pos();
        match tokens.next() {
            Some(Token::Word(word)) => Ok(Expression::Word(word)),
            Some(Token::Literal(literal)) => Ok(Expression::Literal(literal)),
            Some(Token::LeftBrace) => {
                assert(tokens.rest() == ts.skip(1));
                let block = match Block::parse_body(tokens) {
                    Ok(b) => b,
                    Err(e) => return Err(e),
                };
                proof {
                    assert(tokens.rest() == ts.skip(tokens.pos() - start));
                }
                match tokens.next() {
                    Some(Token::RightBrace) => {},
                    Some(other) => return Err(Error::Unexpected { expected: "closing brace `}`", got: other }),
                    None => return Err(Error::Eof),
                }
                Ok(Expression::Block(block))
            },
            Some(other) => Err(Error::Unexpected { expected: "word, literal, or `{`", got: other }),
            None => Err(Error::Eof),
        }
    }

    /// The arguments of a call after its `(`, when the next token is not `)`.
    #[verifier::rlimit(100)]
    #[verifier::spinoff_prover]
    fn parse_call_args(tokens: &mut Tokens) -> (r: Result<Vec<Expression>, Error>)
        requires
            old(tokens).wf(),
        ensures
            final(tokens).wf(),
            final(tokens).all() == old(tokens).all(),
            old(tokens).pos() <= final(tokens).pos(),
            match call_args_tail_spec(old(tokens).rest()) {
                Ok((v, n)) => r matches Ok(x) && exprs_view(x@) == v && final(tokens).pos() == old(tokens).pos() + n,
                Err(e) => r matches Err(x) && x@ == e,
            },
        decreases old(tokens).rest().len(), 3int,
    {
        let ghost ts = tokens.rest();
        let ghost start = tokens.pos();
        let mut args: Vec<Expression> = Vec::new();
        assert(ts.skip(0) =~= ts);
        loop
            invariant
                tokens.wf(),
                tokens.all() == old(tokens).all(),
                start == old(tokens).pos(),
                ts == old(tokens).rest(),
                start <= tokens.pos(),
                tokens.rest() == ts.skip(tokens.pos() - start),
                call_args_tail_spec(ts) == match call_args_tail_spec(tokens.rest()) {
                    Ok((rest, m)) => Ok((exprs_view(args@) + rest, ((tokens.pos() - start) + m) as nat)),
                    Err(e) => Err(e),
                },
            decreases tokens.rest().len(),
        {
            let ghost before = tokens.rest();
            let ghost mark = tokens.pos();
            let arg = match Expression::parse(tokens) {
                Ok(a) => a,
                Err(e) => return Err(e),
            };
            proof {
                assert(tokens.rest() == before.skip(tokens.pos() - mark));
                lemma_exprs_push(args@, arg);
            }
            let ghost mid = tokens.rest();
            let ghost av = expr_view(arg);
            let ghost prev = args@;
            args.push(arg);
            assert(exprs_view(args@) =~= exprs_view(prev) + seq![av]);
            match tokens.next() {
                Some(Token::Comma) => {
                    proof {
                        assert(tokens.rest() == mid.skip(1));
                        if let Ok((rest, m)) = call_args_tail_spec(tokens.rest()) {
                            lemma_append_assoc(exprs_view(prev), seq![av], rest);
                        }
                    }
                },
                Some(Token::RightParen) => {
                    return Ok(args);
                },
                None => return Err(Error::Eof),
                Some(other) => return Err(Error::Unexpected { expected: "`,` or `)`", got: other }),
            }
        }
    }

    #[verifier::rlimit(100)]
    #[verifier::spinoff_prover]
    pub fn parse(tokens: &mut Tokens) -> (r: Result<Self, Error>)
        requires
            old(tokens).wf(),
        ensures
            final(tokens).wf(),
            final(tokens).all() == old(tokens).all(),
            old(tokens).pos() <= final(tokens).pos(),
            match expr_spec(old(tokens).rest()) {
                Ok((v, n)) => r matches Ok(x) && x@ == v && final(tokens).pos() == old(tokens).pos() + n,
                Err(e) => r matches Err(x) && x@ == e,
            },
        decreases old(tokens).rest().len(), 2int,
    {
        let ghost ts = tokens.rest();
        let ghost start = tokens.pos();
        let mut acc = match Expression::parse_base(tokens) {
            Ok(b) => b,
            Err(e) => return Err(e),
        };
        loop
            invariant
                tokens.wf(),
                tokens.all() == old(tokens).all(),
                start == old(tokens).pos(),
                ts == old(tokens).rest(),
                start <= tokens.pos(),
                tokens.rest() == ts.skip(tokens.pos() - start),
                expr_spec(ts) == match postfix_spec(tokens.rest(), acc@) {
                    Ok((r, m)) => Ok((r, ((tokens.pos() - start) + m) as nat)),
                    Err(e) => Err(e),
                },
            decreases tokens.rest().len(),
        {
            let ghost before = tokens.rest();
            let ghost mark = tokens.pos();
            let ghost acc_view = acc@;
            match tokens.peek() {
                Some(Token::Dot) => {
                    tokens.next();
                    let rhs = match Expression::parse_base(tokens) {
                        Ok(x) => x,
                        Err(e) => return Err(e),
                    };
                    proof {
                        assert(tokens.rest() == before.skip(tokens.pos() - mark));
                        lemma_postfix_dot(before, acc_view, rhs@, (tokens.pos() - mark - 1) as nat);
                    }
                    acc = Expression::Dot(Dot { left: Box::new(acc), right: Box::new(rhs) });
                },
                Some(Token::LeftParen) => {
                    tokens.next();
                    let empty = match tokens.peek() {
                        Some(Token::RightParen) => true,
                        None => return Err(Error::Eof),
                        Some(_) => false,
                    };
                    if empty {
                        tokens.next();
                        proof {
                            assert(tokens.rest() == before.skip(2));
                            lemma_postfix_empty_call(before, acc_view);
                            assert(exprs_view(Seq::<Expression>::empty()) == Seq::<ExprView>::empty());
                        }
                        acc = Expression::Call(Call { left: Box::new(acc), args: Vec::new() });
                        continue;
                    }
                    let args = match Expression::parse_call_args(tokens) {
                        Ok(a) => a,
                        Err(e) => return Err(e),
                    };
                    proof {
                        assert(tokens.rest() == before.skip(tokens.pos() - mark));
                        lemma_postfix_call(before, acc_view, exprs_view(args@), (tokens.pos() - mark - 1) as nat);
                    }
                    acc = Expression::Call(Call { left: Box::new(acc), args });
                },
                _ => return Ok(acc),
            }
        }
    }
}


impl Function {
    /// The arguments after the `(`, up to and with the closing `)`.
    #[verifier::rlimit(60)]
    fn parse_args(tokens: &mut Tokens) -> (r: Result<Vec<Argument>, Error>)
        requires
            old(tokens).wf(),
        ensures
            final(tokens).wf(),
            final(tokens).all() == old(tokens).all(),
            old(tokens).pos() <= final(tokens).pos(),
            match arguments_spec(old(tokens).rest()) {
                Ok((v, n)) => r matches Ok(x) && args_view(x@) == v
                    && final(tokens).pos() == old(tokens).pos() + n,
                Err(e) => r matches Err(x) && x@ == e,
            },
    {
        let ghost ts = tokens.rest();
        let ghost start = tokens.pos();
        let mut args: Vec<Argument> = Vec::new();
        match tokens.peek() {
            Some(Token::RightParen) => {
                tokens.next();
                return Ok(args);
            },
            None => return Err(Error::Eof),
            Some(_) => {},
        }
        assert(ts.skip(0) =~= ts);
        loop
            invariant
                tokens.wf(),
                tokens.all() == old(tokens).all(),
                start == old(tokens).pos(),
                ts == old(tokens).rest(),
                start <= tokens.pos(),
                tokens.rest() == ts.skip(tokens.pos() - start),
                arguments_spec(ts) == match arguments_tail_spec(tokens.rest()) {
                    Ok((rest, m)) => Ok((args_view(args@) + rest, ((tokens.pos() - start) + m) as nat)),
                    Err(e) => Err(e),
                },
            decreases tokens.rest().len(),
        {
            let ghost before = tokens.rest();
            let ghost mark = tokens.pos();
            let arg = match Argument::parse(tokens) {
                Ok(a) => a,
                Err(e) => return Err(e),
            };
            proof {
                assert(tokens.rest() == before.skip(tokens.pos() - mark));
            }
            let ghost mid = tokens.rest();
            let ghost av = arg@;
            let ghost prev = args@;
            args.push(arg);
            proof {
                lemma_args_push(prev, args@.last());
                assert(args@ == prev.push(args@.last()));
            }
            match tokens.next() {
                Some(Token::Comma) => {
                    proof {
                        assert(tokens.rest() == mid.skip(1));
                        if let Ok((rest, m)) = arguments_tail_spec(tokens.rest()) {
                            lemma_append_assoc(args_view(prev), seq![av], rest);
                        }
                    }
                },
                Some(Token::RightParen) => {
                    return Ok(args);
                },
                None => return Err(Error::Eof),
                Some(other) => return Err(Error::Unexpected { expected: "`,` or `)`", got: other }),
            }
        }
    }

    pub fn parse(tokens: &mut Tokens) -> (r: Result<Self, Error>)
        requires
            old(tokens).wf(),
        ensures
            final(tokens).wf(),
            final(tokens).all() == old(tokens).all(),
            old(tokens).pos() <= final(tokens).pos(),
            match function_spec(old(tokens).rest()) {
                Ok((v, n)) => r matches Ok(x) && x@ == v && final(tokens).pos() == old(tokens).pos() + n,
                Err(e) => r matches Err(x) && x@ == e,
            },
    {
        let ghost ts = tokens.rest();
        let ghost start = tokens.pos();
        match tokens.next() {
            Some(Token::Keyword(Keyword::Func)) => {},
            None => return Err(Error::Eof),
            Some(other) => return Err(Error::Unexpected { expected: "`func`", got: other }),
        }
        assert(tokens.rest() == ts.skip(1));
        let name = match tokens.next() {
            Some(Token::Word(word)) => word,
            None => return Err(Error::Eof),
            Some(other) => return Err(Error::Unexpected { expected: "word", got: other }),
        };
        match tokens.next() {
            Some(Token::LeftParen) => {},
            Some(other) => return Err(Error::Unexpected { expected: "opening parentheses `(`", got: other }),
            None => return Err(Error::Eof),
        }
        assert(tokens.rest() == ts.skip(3));
        let args = match Function::parse_args(tokens) {
            Ok(a) => a,
            Err(e) => return Err(e),
        };
        assert(tokens.rest() == ts.skip(tokens.pos() - start));
        match tokens.next() {
            Some(Token::LeftBrace) => {},
            None => return Err(Error::Eof),
            Some(other) => return Err(Error::Unexpected { expected: "`{`", got: other }),
        }
        assert(tokens.rest() == ts.skip(tokens.pos() - start));
        let body = match Block::parse_body(tokens) {
            Ok(b) => b,
            Err(e) => return Err(e),
        };
        assert(tokens.rest() == ts.skip(tokens.pos() - start));
        match tokens.next() {
            Some(Token::RightBrace) => {},
            None => return Err(Error::Eof),
            Some(other) => return Err(Error::Unexpected { expected: "`}`", got: other }),
        }
        Ok(Function { name, args, body })
    }
}

impl Item {
    pub fn parse(tokens: &mut Tokens) -> (r: Result<Self, Error>)
        requires
            old(tokens).wf(),
        ensures
            final(tokens).wf(),
            final(tokens).all() == old(tokens).all(),
            old(tokens).pos() <= final(tokens).pos(),
            match function_spec(old(tokens).rest()) {
                Ok((v, n)) => r matches Ok(x) && x@ == v && final(tokens).pos() == old(tokens).pos() + n,
                Err(e) => r matches Err(x) && x@ == e,
            },
            old(tokens).rest().len() == 0 || old(tokens).rest()[0] != TokenView::Keyword(Keyword::Func)
                ==> final(tokens).pos() == old(tokens).pos(),
    {
        match tokens.peek() {
            Some(Token::Keyword(Keyword::Func)) => {
                match Function::parse(tokens) {
                    Ok(f) => Ok(Item::Function(f)),
                    Err(e) => Err(e),
                }
            },
            None => Err(Error::Eof),
            Some(other) => Err(Error::Unexpected { expected: "`func`", got: other.duplicate() }),
        }
    }
}

impl Module {
    #[verifier::rlimit(60)]
    pub fn parse(tokens: &mut Tokens) -> (r: Result<Self, Error>)
        requires
            old(tokens).wf(),
        ensures
            final(tokens).wf(),
            final(tokens).all() == old(tokens).all(),
            old(tokens).pos() <= final(tokens).pos(),
            match module_spec(old(tokens).rest()) {
                Ok((v, n)) => r matches Ok(x) && x@ == v && final(tokens).pos() == old(tokens).pos() + n,
                Err(e) => r matches Err(x) && x@ == e,
            },
    {
        let ghost ts = tokens.rest();
        let ghost start = tokens.pos();
        let mut items: Vec<Item> = Vec::new();
        loop
            invariant
                tokens.wf(),
                tokens.all() == old(tokens).all(),
                start == old(tokens).pos(),
                ts == old(tokens).rest(),
                start <= tokens.pos(),
                tokens.rest() == ts.skip(tokens.pos() - start),
                module_spec(ts) == match module_spec(tokens.rest()) {
                    Ok((rest, m)) => Ok((items_view(items@) + rest, ((tokens.pos() - start) + m) as nat)),
                    Err(e) => Err(e),
                },
            decreases tokens.rest().len(),
        {
            match tokens.peek() {
                Some(Token::RightBrace) | None => {
                    assert(items_view(items@) + Seq::<FunctionView>::empty()
                        =~= items_view(items@));
                    return Ok(Module { items });
                },
                Some(_) => {},
            }
            let ghost before = tokens.rest();
            let ghost mark = tokens.pos();
            let item = match Item::parse(tokens) {
                Ok(i) => i,
                Err(e) => return Err(e),
            };
            proof {
                assert(tokens.rest() == before.skip(tokens.pos() - mark));
            }
            let ghost iv = item@;
            let ghost prev = items@;
            items.push(item);
            proof {
                lemma_items_push(prev, items@.last());
                assert(items@ == prev.push(items@.last()));
                if let Ok((rest, m)) = module_spec(tokens.rest()) {
                    lemma_append_assoc(items_view(prev), seq![iv], rest);
                }
            }
        }
    }
}


/// The whole input read as one module: the bytes are lexed, the tokens parsed
/// as a module, and a token left over after it is an error.
pub fn parse_source(bytes: Vec<u8>) -> (r: Result<Module, Error>)
    ensures
        match module_spec(lex_spec(bytes@)) {
            Ok((v, n)) => if n == lex_spec(bytes@).len() {
                r matches Ok(x) && x@ == v
            } else {
                r matches Err(x) && x@ == ErrorView::Unexpected("eof"@, lex_spec(bytes@)[n as int])
            },
            Err(e) => r matches Err(x) && x@ == e,
        },
{
    let mut tokens = Tokens::new(lex(bytes));
    assert(tokens.rest() =~= tokens.all());
    let module = match Module::parse(&mut tokens) {
        Ok(m) => m,
        Err(e) => return Err(e),
    };
    match tokens.next() {
        None => Ok(module),
        Some(other) => Err(Error::Unexpected { expected: "eof", got: other }),
    }
}

} // verus!
