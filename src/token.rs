//! Tokens and the byte-level lexer.
use vstd::prelude::*;

verus! {

/// `s.skip(a).skip(b)` is `s.skip(a + b)`.
pub broadcast proof fn lemma_skip_skip<A>(s: Seq<A>, a: int, b: int)
    requires
        0 <= a,
        0 <= b,
        a + b <= s.len(),
    ensures
        #[trigger] s.skip(a).skip(b) == s.skip(a + b),
{
    assert(s.skip(a).skip(b) =~= s.skip(a + b));
}


/// Reserved words of the language.
#[derive(Clone, Copy, Debug, PartialEq, Eq, Structural)]
pub enum Keyword {
    Func,
}

/// An identifier: bytes of the shape `[A-Za-z_][A-Za-z0-9_]*`.
#[derive(Clone, Debug, PartialEq)]
pub struct Word(pub Vec<u8>);

/// The decoded content of a string literal, escapes already resolved.
#[derive(Clone, Debug, PartialEq)]
pub struct StringLiteral(pub Vec<u8>);

#[derive(Clone, Debug, PartialEq)]
pub enum Literal {
    String(StringLiteral),
}

#[derive(Clone, Debug, PartialEq)]
pub enum Token {
    Word(Word),
    LeftParen,
    RightParen,
    LeftBrace,
    RightBrace,
    Literal(Literal),
    Colon,
    Semicolon,
    Dot,
    Comma,
    Keyword(Keyword),
}

/// What a token is, with its bytes as a sequence.
pub enum TokenView {
    Word(Seq<u8>),
    LeftParen,
    RightParen,
    LeftBrace,
    RightBrace,
    Literal(Seq<u8>),
    Colon,
    Semicolon,
    Dot,
    Comma,
    Keyword(Keyword),
}

impl View for Token {
    type V = TokenView;

    open spec fn view(&self) -> TokenView {
        match self {
            Token::Word(w) => TokenView::Word(w.0@),
            Token::LeftParen => TokenView::LeftParen,
            Token::RightParen => TokenView::RightParen,
            Token::LeftBrace => TokenView::LeftBrace,
            Token::RightBrace => TokenView::RightBrace,
            Token::Literal(Literal::String(s)) => TokenView::Literal(s.0@),
            Token::Colon => TokenView::Colon,
            Token::Semicolon => TokenView::Semicolon,
            Token::Dot => TokenView::Dot,
            Token::Comma => TokenView::Comma,
            Token::Keyword(k) => TokenView::Keyword(*k),
        }
    }
}

pub open spec fn opt_view(t: Option<Token>) -> Option<TokenView> {
    match t {
        Some(t) => Some(t@),
        None => None,
    }
}

pub open spec fn opt_seq(t: Option<TokenView>) -> Seq<TokenView> {
    match t {
        Some(t) => seq![t],
        None => Seq::empty(),
    }
}

pub open spec fn views(ts: Seq<Token>) -> Seq<TokenView> {
    ts.map_values(|t: Token| t@)
}

impl Token {
    /// A copy of this token.
    pub fn duplicate(&self) -> (r: Token)
        ensures
            r@ == self@,
    {
        match self {
            Token::Word(w) => {
                let b = w.0.clone();
                assert(b@ =~= w.0@);
                Token::Word(Word(b))
            },
            Token::LeftParen => Token::LeftParen,
            Token::RightParen => Token::RightParen,
            Token::LeftBrace => Token::LeftBrace,
            Token::RightBrace => Token::RightBrace,
            Token::Literal(Literal::String(s)) => {
                let b = s.0.clone();
                assert(b@ =~= s.0@);
                Token::Literal(Literal::String(StringLiteral(b)))
            },
            Token::Colon => Token::Colon,
            Token::Semicolon => Token::Semicolon,
            Token::Dot => Token::Dot,
            Token::Comma => Token::Comma,
            Token::Keyword(k) => Token::Keyword(*k),
        }
    }
}

pub open spec fn is_word_start(c: u8) -> bool {
    c == 95 || (97 <= c && c <= 122) || (65 <= c && c <= 90)
}

pub open spec fn is_word_byte(c: u8) -> bool {
    is_word_start(c) || (48 <= c && c <= 57)
}

/// The punctuation token of a byte, if it is one of `( ) { } : ; . ,`.
pub open spec fn punct(c: u8) -> Option<TokenView> {
    if c == 40 {
        Some(TokenView::LeftParen)
    } else if c == 41 {
        Some(TokenView::RightParen)
    } else if c == 123 {
        Some(TokenView::LeftBrace)
    } else if c == 125 {
        Some(TokenView::RightBrace)
    } else if c == 58 {
        Some(TokenView::Colon)
    } else if c == 59 {
        Some(TokenView::Semicolon)
    } else if c == 46 {
        Some(TokenView::Dot)
    } else if c == 44 {
        Some(TokenView::Comma)
    } else {
        None
    }
}

pub open spec fn is_punct_token(t: TokenView) -> bool {
    t is LeftParen || t is RightParen || t is LeftBrace || t is RightBrace || t is Colon
        || t is Semicolon || t is Dot || t is Comma
}

/// The bytes `func`.
pub open spec fn func_bytes() -> Seq<u8> {
    seq![102u8, 117u8, 110u8, 99u8]
}

/// A finished identifier: the keyword it spells, or a word.
pub open spec fn classify(w: Seq<u8>) -> TokenView {
    if w == func_bytes() {
        TokenView::Keyword(Keyword::Func)
    } else {
        TokenView::Word(w)
    }
}

/// The lexer's state: no partial token, a byte waiting to be read again, a
/// word being read, or a string literal being read (the flag: after a backslash).
pub enum LexStateView {
    Start,
    Pending(u8),
    Word(Seq<u8>),
    Str(Seq<u8>, bool),
}

pub open spec fn start_step(c: u8) -> (LexStateView, Option<TokenView>) {
    if is_word_start(c) {
        (LexStateView::Word(seq![c]), None)
    } else if c == 34 {
        (LexStateView::Str(Seq::empty(), false), None)
    } else {
        (LexStateView::Start, punct(c))
    }
}

pub open spec fn pending_rank(s: LexStateView) -> int {
    if s is Pending { 1 } else { 0 }
}

/// One transition: the next state and the token emitted, if any.
pub open spec fn step(s: LexStateView, c: u8) -> (LexStateView, Option<TokenView>)
    decreases pending_rank(s),
{
    match s {
        LexStateView::Start => start_step(c),
        LexStateView::Pending(d) => {
            let (ps, pt) = start_step(d);
            if pt is Some {
                (LexStateView::Pending(c), pt)
            } else {
                step(ps, c)
            }
        },
        LexStateView::Word(w) => if is_word_byte(c) {
            (LexStateView::Word(w.push(c)), None)
        } else {
            (LexStateView::Pending(c), Some(classify(w)))
        },
        LexStateView::Str(s, false) => if c == 92 {
            (LexStateView::Str(s, true), None)
        } else if c == 34 {
            (LexStateView::Start, Some(TokenView::Literal(s)))
        } else {
            (LexStateView::Str(s.push(c), false), None)
        },
        LexStateView::Str(s, true) => if c == 110 {
            (LexStateView::Str(s.push(10), false), None)
        } else {
            (LexStateView::Str(s.push(c), false), None)
        },
    }
}

/// What is emitted when the input ends: a pending byte is read once more and a
/// word in progress is finished; an unterminated string literal is dropped.
pub open spec fn flush(s: LexStateView) -> Option<TokenView>
    decreases pending_rank(s),
{
    match s {
        LexStateView::Start => None,
        LexStateView::Pending(d) => {
            let (ps, pt) = start_step(d);
            if pt is Some {
                pt
            } else {
                flush(ps)
            }
        },
        LexStateView::Word(w) => Some(classify(w)),
        LexStateView::Str(_, _) => None,
    }
}

/// The tokens that the lexer emits from state `s` over `bytes`.
pub open spec fn run(s: LexStateView, bytes: Seq<u8>) -> Seq<TokenView>
    decreases bytes.len(),
{
    if bytes.len() == 0 {
        opt_seq(flush(s))
    } else {
        let (s2, t) = step(s, bytes[0]);
        opt_seq(t) + run(s2, bytes.drop_first())
    }
}

/// The tokens of a byte sequence.
pub open spec fn lex_spec(bytes: Seq<u8>) -> Seq<TokenView> {
    run(LexStateView::Start, bytes)
}


#[derive(Debug, PartialEq, Eq, Structural)]
pub enum StringLiteralState {
    Normal,
    Escape,
}

#[derive(Debug)]
pub enum LexState {
    Start,
    Pending(u8),
    Word(Vec<u8>),
    StringLiteral(Vec<u8>, StringLiteralState),
}

impl View for LexState {
    type V = LexStateView;

    open spec fn view(&self) -> LexStateView {
        match self {
            LexState::Start => LexStateView::Start,
            LexState::Pending(d) => LexStateView::Pending(*d),
            LexState::Word(w) => LexStateView::Word(w@),
            LexState::StringLiteral(s, st) => LexStateView::Str(s@, *st == StringLiteralState::Escape),
        }
    }
}

fn is_word_start_byte(c: u8) -> (r: bool)
    ensures
        r == is_word_start(c),
{
    c == 95u8 || (97u8 <= c && c <= 122u8) || (65u8 <= c && c <= 90u8)
}

fn is_word_byte_exec(c: u8) -> (r: bool)
    ensures
        r == is_word_byte(c),
{
    is_word_start_byte(c) || (48u8 <= c && c <= 57u8)
}

fn classify_word(w: Vec<u8>) -> (r: Token)
    ensures
        r@ == classify(w@),
{
    let is_func = w.len() == 4 && w[0] == 102u8 && w[1] == 117u8 && w[2] == 110u8 && w[3] == 99u8;
    if is_func {
        assert(w@ =~= func_bytes());
        Token::Keyword(Keyword::Func)
    } else {
        assert(w@ == func_bytes() ==> w@[0] == 102u8 && w@[1] == 117u8 && w@[2] == 110u8 && w@[3] == 99u8);
        Token::Word(Word(w))
    }
}

impl LexState {
    fn take(&mut self) -> (r: LexState)
        ensures
            r == *old(self),
            *final(self) == LexState::Start,
    {
        let mut r = LexState::Start;
        core::mem::swap(self, &mut r);
        r
    }

    fn start(c: u8) -> (r: (LexState, Option<Token>))
        ensures
            (r.0@, opt_view(r.1)) == start_step(c),
            r.1 is Some ==> r.0@ == LexStateView::Start,
    {
        if is_word_start_byte(c) {
            let v = vec![c];
            assert(v@ =~= seq![c]);
            (LexState::Word(v), None)
        } else if c == 34u8 {
            let v: Vec<u8> = Vec::new();
            assert(v@ =~= Seq::<u8>::empty());
            (LexState::StringLiteral(v, StringLiteralState::Normal), None)
        } else {
            let t = if c == 40u8 {
                Some(Token::LeftParen)
            } else if c == 41u8 {
                Some(Token::RightParen)
            } else if c == 123u8 {
                Some(Token::LeftBrace)
            } else if c == 125u8 {
                Some(Token::RightBrace)
            } else if c == 58u8 {
                Some(Token::Colon)
            } else if c == 59u8 {
                Some(Token::Semicolon)
            } else if c == 46u8 {
                Some(Token::Dot)
            } else if c == 44u8 {
                Some(Token::Comma)
            } else {
                None
            };
            (LexState::Start, t)
        }
    }

    /// One transition of the state machine on the byte `c`.
    fn consume(self, c: u8) -> (r: (LexState, Option<Token>))
        ensures
            (r.0@, opt_view(r.1)) == step(self@, c),
        decreases pending_rank(self@),
    {
        match self {
            LexState::Start => LexState::start(c),
            LexState::Pending(d) => {
                let (pend_state, pend_token) = LexState::start(d);
                if pend_token.is_some() {
                    (LexState::Pending(c), pend_token)
                } else {
                    pend_state.consume(c)
                }
            },
            LexState::Word(mut word) => {
                if is_word_byte_exec(c) {
                    word.push(c);
                    (LexState::Word(word), None)
                } else {
                    (LexState::Pending(c), Some(classify_word(word)))
                }
            },
            LexState::StringLiteral(mut string, state) => {
                match state {
                    StringLiteralState::Normal => {
                        if c == 92u8 {
                            (LexState::StringLiteral(string, StringLiteralState::Escape), None)
                        } else if c == 34u8 {
                            (LexState::Start, Some(Token::Literal(Literal::String(StringLiteral(string)))))
                        } else {
                            string.push(c);
                            (LexState::StringLiteral(string, StringLiteralState::Normal), None)
                        }
                    },
                    StringLiteralState::Escape => {
                        if c == 110u8 {
                            string.push(10u8);
                        } else {
                            string.push(c);
                        }
                        (LexState::StringLiteral(string, StringLiteralState::Normal), None)
                    },
                }
            },
        }
    }

    /// The token, if any, that this state still holds when the input ends.
    fn finish(self) -> (r: Option<Token>)
        ensures
            opt_view(r) == flush(self@),
        decreases pending_rank(self@),
    {
        match self {
            LexState::Start => None,
            LexState::Pending(d) => {
                let (pend_state, pend_token) = LexState::start(d);
                if pend_token.is_some() {
                    pend_token
                } else {
                    pend_state.finish()
                }
            },
            LexState::Word(word) => Some(classify_word(word)),
            LexState::StringLiteral(_, _) => None,
        }
    }
}

/// A pull-based lexer over a byte buffer.
pub struct Lexer {
    chars: Vec<u8>,
    pos: usize,
    state: LexState,
}

impl Lexer {
    pub closed spec fn wf(&self) -> bool {
        self.pos <= self.chars.len()
    }

    /// The tokens that this lexer has yet to hand out.
    pub closed spec fn remaining(&self) -> Seq<TokenView> {
        run(self.state@, self.chars@.skip(self.pos as int))
    }

    pub fn new(chars: Vec<u8>) -> (r: Lexer)
        ensures
            r.wf(),
            r.remaining() == lex_spec(chars@),
    {
        let r = Lexer { chars, pos: 0, state: LexState::Start };
        assert(r.chars@.skip(0) =~= r.chars@);
        r
    }

    /// The next token, or `None` once the input is used up.
    pub fn next(&mut self) -> (r: Option<Token>)
        requires
            old(self).wf(),
        ensures
            final(self).wf(),
            old(self).remaining() == opt_seq(opt_view(r)) + final(self).remaining(),
            r is None ==> final(self).remaining() == Seq::<TokenView>::empty(),
    {
        loop
            invariant
                self.wf(),
                self.remaining() == old(self).remaining(),
            decreases self.chars.len() - self.pos,
        {
            if self.pos == self.chars.len() {
                let st = self.state.take();
                proof {
                    assert(self.chars@.skip(self.pos as int) =~= Seq::<u8>::empty());
                }
                let t = st.finish();
                return t;
            }
            let c = self.chars[self.pos];
            let st = self.state.take();
            proof {
                let rest = self.chars@.skip(self.pos as int);
                assert(rest[0] == c);
                assert(rest.drop_first() =~= self.chars@.skip(self.pos + 1));
            }
            let (next_state, token) = st.consume(c);
            self.state = next_state;
            self.pos = self.pos + 1;
            if token.is_some() {
                return token;
            }
        }
    }
}

/// All tokens of `bytes`, in order.
pub fn lex(bytes: Vec<u8>) -> (r: Vec<Token>)
    ensures
        views(r@) == lex_spec(bytes@),
{
    let mut lexer = Lexer::new(bytes);
    let mut out: Vec<Token> = Vec::new();
    loop
        invariant
            lexer.wf(),
            views(out@) + lexer.remaining() == lex_spec(bytes@),
        decreases lexer.remaining().len(),
    {
        let t = lexer.next();
        match t {
            Some(t) => {
                proof {
                    assert(views(out@.push(t)) =~= views(out@).push(t@));
                }
                out.push(t);
            },
            None => {
                assert(views(out@) + Seq::<TokenView>::empty() =~= views(out@));
                return out;
            },
        }
    }
}


/// A byte sequence of identifier shape: `[A-Za-z_][A-Za-z0-9_]*`.
pub open spec fn is_identifier(w: Seq<u8>) -> bool {
    &&& w.len() > 0
    &&& is_word_start(w[0])
    &&& forall|i: int| 0 <= i < w.len() ==> is_word_byte(#[trigger] w[i])
}

/// What holds of every state the lexer reaches: a word in progress has
/// identifier shape.
pub open spec fn state_ok(s: LexStateView) -> bool {
    match s {
        LexStateView::Word(w) => is_identifier(w),
        _ => true,
    }
}

pub open spec fn token_ok(t: TokenView) -> bool {
    match t {
        TokenView::Word(w) => is_identifier(w) && w != func_bytes(),
        _ => true,
    }
}

proof fn lemma_step_ok(s: LexStateView, c: u8)
    requires
        state_ok(s),
    ensures
        state_ok(step(s, c).0),
        step(s, c).1 matches Some(t) ==> token_ok(t),
    decreases pending_rank(s),
{
    match s {
        LexStateView::Pending(d) => {
            let (ps, pt) = start_step(d);
            if pt is None {
                if let LexStateView::Word(w) = ps {
                    assert(w =~= seq![d]);
                }
                lemma_step_ok(ps, c);
            }
        },
        LexStateView::Start => {
            if is_word_start(c) {
                assert(is_identifier(seq![c]));
            }
        },
        LexStateView::Word(w) => {
            if is_word_byte(c) {
                assert(is_identifier(w.push(c))) by {
                    assert forall|i: int| 0 <= i < w.push(c).len() implies is_word_byte(#[trigger] w.push(c)[i]) by {
                        if i < w.len() {
                            assert(is_word_byte(w[i]));
                        }
                    }
                }
            }
        },
        _ => {},
    }
}

proof fn lemma_flush_ok(s: LexStateView)
    requires
        state_ok(s),
    ensures
        flush(s) matches Some(t) ==> token_ok(t),
    decreases pending_rank(s),
{
    if let LexStateView::Pending(d) = s {
        let (ps, pt) = start_step(d);
        if pt is None {
            if let LexStateView::Word(w) = ps {
                assert(is_identifier(seq![d]));
            }
            lemma_flush_ok(ps);
        }
    }
}

proof fn lemma_run_ok(s: LexStateView, bytes: Seq<u8>)
    requires
        state_ok(s),
    ensures
        forall|i: int| 0 <= i < run(s, bytes).len() ==> token_ok(#[trigger] run(s, bytes)[i]),
    decreases bytes.len(),
{
    if bytes.len() == 0 {
        lemma_flush_ok(s);
    } else {
        let (s2, t) = step(s, bytes[0]);
        lemma_step_ok(s, bytes[0]);
        lemma_run_ok(s2, bytes.drop_first());
        let r = run(s, bytes);
        assert forall|i: int| 0 <= i < r.len() implies token_ok(#[trigger] r[i]) by {
            if i >= opt_seq(t).len() {
                assert(r[i] == run(s2, bytes.drop_first())[i - opt_seq(t).len()]);
            }
        }
    }
}

/// Every word that the lexer emits, from any input, is a non-empty byte
/// sequence of identifier shape, and never spells the keyword `func`.
pub proof fn lemma_lex_words_are_identifiers(bytes: Seq<u8>)
    ensures
        forall|i: int|
            0 <= i < lex_spec(bytes).len() ==> (#[trigger] lex_spec(bytes)[i] matches TokenView::Word(w)
                ==> w.len() > 0 && is_identifier(w) && w != func_bytes()),
{
    lemma_run_ok(LexStateView::Start, bytes);
}

/// No state holds a byte waiting to be read again that is punctuation.
pub open spec fn no_pending_punct(s: LexStateView) -> bool {
    match s {
        LexStateView::Pending(d) => punct(d) is None,
        _ => true,
    }
}

proof fn lemma_step_no_punct(s: LexStateView, c: u8)
    requires
        no_pending_punct(s),
        punct(c) is None,
    ensures
        no_pending_punct(step(s, c).0),
        step(s, c).1 matches Some(t) ==> !is_punct_token(t),
    decreases pending_rank(s),
{
    if let LexStateView::Pending(d) = s {
        let (ps, pt) = start_step(d);
        if pt is None {
            lemma_step_no_punct(ps, c);
        }
    }
}

proof fn lemma_flush_no_punct(s: LexStateView)
    requires
        no_pending_punct(s),
    ensures
        flush(s) matches Some(t) ==> !is_punct_token(t),
    decreases pending_rank(s),
{
    if let LexStateView::Pending(d) = s {
        let (ps, pt) = start_step(d);
        if pt is None {
            lemma_flush_no_punct(ps);
        }
    }
}

proof fn lemma_run_no_punct(s: LexStateView, bytes: Seq<u8>)
    requires
        no_pending_punct(s),
        forall|i: int| 0 <= i < bytes.len() ==> punct(#[trigger] bytes[i]) is None,
    ensures
        forall|i: int| 0 <= i < run(s, bytes).len() ==> !is_punct_token(#[trigger] run(s, bytes)[i]),
    decreases bytes.len(),
{
    if bytes.len() == 0 {
        lemma_flush_no_punct(s);
    } else {
        let (s2, t) = step(s, bytes[0]);
        assert(punct(bytes[0]) is None);
        lemma_step_no_punct(s, bytes[0]);
        assert(bytes.drop_first().len() == bytes.len() - 1);
        assert forall|i: int| 0 <= i < bytes.drop_first().len() implies punct(#[trigger] bytes.drop_first()[i]) is None by {
            assert(bytes.drop_first()[i] == bytes[i + 1]);
        }
        lemma_run_no_punct(s2, bytes.drop_first());
        let r = run(s, bytes);
        assert forall|i: int| 0 <= i < r.len() implies !is_punct_token(#[trigger] r[i]) by {
            if i >= opt_seq(t).len() {
                assert(r[i] == run(s2, bytes.drop_first())[i - opt_seq(t).len()]);
            }
        }
    }
}

/// Where no byte of the input is one of `( ) { } : ; . ,`, the lexer emits no
/// punctuation token.
pub proof fn lemma_lex_punct_only_from_punct_bytes(bytes: Seq<u8>)
    requires
        forall|i: int| 0 <= i < bytes.len() ==> punct(#[trigger] bytes[i]) is None,
    ensures
        forall|i: int| 0 <= i < lex_spec(bytes).len() ==> !is_punct_token(#[trigger] lex_spec(bytes)[i]),
{
    lemma_run_no_punct(LexStateView::Start, bytes);
}

proof fn lemma_run_word(p: Seq<u8>, w: Seq<u8>)
    requires
        forall|i: int| 0 <= i < w.len() ==> is_word_byte(#[trigger] w[i]),
    ensures
        run(LexStateView::Word(p), w) == seq![classify(p + w)],
    decreases w.len(),
{
    if w.len() == 0 {
        assert(p + w =~= p);
    } else {
        assert(is_word_byte(w[0]));
        assert forall|i: int| 0 <= i < w.drop_first().len() implies is_word_byte(#[trigger] w.drop_first()[i]) by {
            assert(w.drop_first()[i] == w[i + 1]);
        }
        lemma_run_word(p.push(w[0]), w.drop_first());
        assert(p.push(w[0]) + w.drop_first() =~= p + w);
        assert(opt_seq(None) + seq![classify(p + w)] =~= seq![classify(p + w)]);
    }
}

/// An input of identifier shape lexes to exactly one token: the keyword
/// `func` where it spells `func`, a word holding those bytes otherwise.
pub proof fn lemma_lex_identifier(w: Seq<u8>)
    requires
        is_identifier(w),
    ensures
        lex_spec(w) == seq![classify(w)],
        w == func_bytes() ==> lex_spec(w) == seq![TokenView::Keyword(Keyword::Func)],
        w != func_bytes() ==> lex_spec(w) == seq![TokenView::Word(w)],
{
    assert forall|i: int| 0 <= i < w.drop_first().len() implies is_word_byte(#[trigger] w.drop_first()[i]) by {
        assert(w.drop_first()[i] == w[i + 1]);
    }
    lemma_run_word(seq![w[0]], w.drop_first());
    assert(seq![w[0]] + w.drop_first() =~= w);
    assert(opt_seq(None) + seq![classify(w)] =~= seq![classify(w)]);
}


/// A state that may still produce a token with no further byte: a word in
/// progress, or a byte waiting to be read again.
pub open spec fn held(s: LexStateView) -> nat {
    if s is Pending || s is Word { 1 } else { 0 }
}

proof fn lemma_step_count(s: LexStateView, c: u8)
    ensures
        opt_seq(step(s, c).1).len() + held(step(s, c).0) <= 1 + held(s),
    decreases pending_rank(s),
{
    if let LexStateView::Pending(d) = s {
        let (ps, pt) = start_step(d);
        if pt is None {
            lemma_step_count(ps, c);
        }
    }
}

proof fn lemma_flush_count(s: LexStateView)
    ensures
        opt_seq(flush(s)).len() <= held(s),
    decreases pending_rank(s),
{
    if let LexStateView::Pending(d) = s {
        let (ps, pt) = start_step(d);
        if pt is None {
            lemma_flush_count(ps);
        }
    }
}

proof fn lemma_run_count(s: LexStateView, bytes: Seq<u8>)
    ensures
        run(s, bytes).len() <= bytes.len() + held(s),
    decreases bytes.len(),
{
    if bytes.len() == 0 {
        lemma_flush_count(s);
    } else {
        let (s2, t) = step(s, bytes[0]);
        lemma_step_count(s, bytes[0]);
        lemma_run_count(s2, bytes.drop_first());
    }
}

/// The lexer emits at most one token per input byte.
pub proof fn lemma_lex_at_most_one_token_per_byte(bytes: Seq<u8>)
    ensures
        lex_spec(bytes).len() <= bytes.len(),
{
    lemma_run_count(LexStateView::Start, bytes);
}


/// How many times `b` occurs in `bytes`.
pub open spec fn count_byte(bytes: Seq<u8>, b: u8) -> nat
    decreases bytes.len(),
{
    if bytes.len() == 0 {
        0
    } else {
        (if bytes[0] == b { 1nat } else { 0nat }) + count_byte(bytes.drop_first(), b)
    }
}

/// How many times `t` occurs in `ts`.
pub open spec fn count_token(ts: Seq<TokenView>, t: TokenView) -> nat
    decreases ts.len(),
{
    if ts.len() == 0 {
        0
    } else {
        (if ts[0] == t { 1nat } else { 0nat }) + count_token(ts.drop_first(), t)
    }
}

proof fn lemma_count_token_append(a: Seq<TokenView>, b: Seq<TokenView>, t: TokenView)
    ensures
        count_token(a + b, t) == count_token(a, t) + count_token(b, t),
    decreases a.len(),
{
    if a.len() == 0 {
        assert(a + b =~= b);
    } else {
        assert((a + b).drop_first() =~= a.drop_first() + b);
        lemma_count_token_append(a.drop_first(), b, t);
    }
}

proof fn lemma_count_token_opt(o: Option<TokenView>, t: TokenView)
    ensures
        count_token(opt_seq(o), t) == if o == Some(t) { 1nat } else { 0nat },
{
    if let Some(x) = o {
        assert(opt_seq(o).drop_first() =~= Seq::<TokenView>::empty());
        assert(count_token(Seq::<TokenView>::empty(), t) == 0);
        assert(opt_seq(o)[0] == x);
    }
}

/// A byte waiting to be read again that will give the punctuation token `p`.
pub open spec fn holds_punct(s: LexStateView, p: TokenView) -> nat {
    match s {
        LexStateView::Pending(d) => if punct(d) == Some(p) { 1 } else { 0 },
        _ => 0,
    }
}

proof fn lemma_step_punct_count(s: LexStateView, c: u8, p: TokenView)
    requires
        is_punct_token(p),
    ensures
        (if step(s, c).1 == Some(p) { 1nat } else { 0nat }) + holds_punct(step(s, c).0, p)
            <= (if punct(c) == Some(p) { 1nat } else { 0nat }) + holds_punct(s, p),
    decreases pending_rank(s),
{
    if let LexStateView::Pending(d) = s {
        let (ps, pt) = start_step(d);
        if pt is None {
            lemma_step_punct_count(ps, c, p);
        }
    }
}

proof fn lemma_run_punct_count(s: LexStateView, bytes: Seq<u8>, b: u8)
    requires
        punct(b) is Some,
    ensures
        count_token(run(s, bytes), punct(b).unwrap()) <= count_byte(bytes, b) + holds_punct(s, punct(b).unwrap()),
    decreases bytes.len(),
{
    let p = punct(b).unwrap();
    if bytes.len() == 0 {
        lemma_count_token_opt(flush(s), p);
        if let LexStateView::Pending(d) = s {
            let (ps, pt) = start_step(d);
            if pt is None {
                assert(flush(ps) != Some(p));
            }
        }
    } else {
        let (s2, t) = step(s, bytes[0]);
        lemma_step_punct_count(s, bytes[0], p);
        lemma_run_punct_count(s2, bytes.drop_first(), b);
        lemma_count_token_append(opt_seq(t), run(s2, bytes.drop_first()), p);
        lemma_count_token_opt(t, p);
        assert(punct(bytes[0]) == Some(p) ==> bytes[0] == b);
    }
}

/// Each punctuation token is emitted no more often than its byte occurs in
/// the input.
pub proof fn lemma_lex_punct_count(bytes: Seq<u8>, b: u8)
    requires
        punct(b) is Some,
    ensures
        count_token(lex_spec(bytes), punct(b).unwrap()) <= count_byte(bytes, b),
{
    lemma_run_punct_count(LexStateView::Start, bytes, b);
}

} // verus!
