//! The precedence shift/reduce parser and the quad evaluator.
//!
//! The parser consumes a token list, comparing the most recently pushed
//! operator-class token against each newly read one through the
//! precedence functions.  Where the old operator yields, the new one is
//! pushed and a subordinate production is parsed, the operator joining
//! the Polish output once it returns; where the two are equal the new
//! one is pushed without recursing; where the old one takes, the level
//! returns and its caller resumes against the token that stopped it.
//! Operand tokens go straight to the Polish output.  The quad evaluator
//! then walks the Polish sequence once, left to right, turning it into
//! intermediate instructions.

use vstd::prelude::*;

use crate::lexical::{
    empty_view, str_eq, sym_idx, symbol_count, symbol_index, temp_view, terminator_view, views_of,
    Token, TokenClass, TokenView,
};
use crate::loader::find_space;
use crate::precedence::PFunc;

verus! {

/// A parse failure; every kind is fatal and none is retried.
#[derive(Debug, Clone, PartialEq, Eq)]
pub enum SyntaxError {
    /// No precedence relation is defined between the parse position and
    /// this token, or the scanner already marked it unclassifiable.
    UndefinedPrecedence(Token),
    /// The stream ended where a production still expected a token.
    UnexpectedEndOfInput,
}

/// One intermediate instruction: an operator, up to two operands, and
/// the temporary that holds the result.
#[derive(Debug, Clone, PartialEq, Eq)]
pub struct Quad {
    pub op: Token,
    pub param_one: Token,
    pub param_two: Token,
    pub temp: Token,
}

/// The ordered instruction list handed to the code generator.
pub type QuadList = Vec<Quad>;

/// The mathematical value of a quad: the views of its four tokens.
pub struct QuadView {
    pub op: TokenView,
    pub param_one: TokenView,
    pub param_two: TokenView,
    pub temp: TokenView,
}

impl View for Quad {
    type V = QuadView;

    open spec fn view(&self) -> QuadView {
        QuadView {
            op: self.op@,
            param_one: self.param_one@,
            param_two: self.param_two@,
            temp: self.temp@,
        }
    }
}

/// The views of a quad list, in order.
pub open spec fn quad_views_of(s: Seq<Quad>) -> Seq<QuadView> {
    s.map_values(|q: Quad| q@)
}

/// How two adjacent operator-class tokens relate.
#[derive(Debug, Clone, Copy, PartialEq, Eq, Structural)]
pub enum Handle {
    Yields,
    Takes,
    Equal,
    Nil,
}

/// An operand token: it goes straight to the Polish output.
pub open spec fn is_operand(t: TokenView) -> bool {
    t.class == TokenClass::Identifier || t.class == TokenClass::Literal
}

/// An operator-class token: it takes part in precedence comparison.
pub open spec fn is_operator_class(t: TokenView) -> bool {
    t.class == TokenClass::ReservedWord || t.class == TokenClass::Delimiter || t.class
        == TokenClass::Op
}

/// The comparison the parser makes between the previous operator and a
/// newly read token: `Nil` where the new token's spelling has no entry
/// in the symbol table, otherwise the sign of `f[prev]` against
/// `g[new]`.
pub open spec fn spec_lookup(f: Seq<i32>, g: Seq<i32>, prev: TokenView, t: TokenView) -> Handle {
    let gi = sym_idx(t.name);
    if gi == 0 {
        Handle::Nil
    } else {
        let fi = sym_idx(prev.name);
        if f[fi] > g[gi] {
            Handle::Takes
        } else if f[fi] < g[gi] {
            Handle::Yields
        } else {
            Handle::Equal
        }
    }
}

/// What scanning forward to the next operator-class token found.
pub enum ScanFound {
    /// The stream ended first.
    Exhausted,
    /// An operator-class token, consumed from the stream.
    Oper(TokenView),
    /// An unclassifiable token; the parse fails on it.
    Bad(TokenView),
}

/// The result of scanning forward to the next operator-class token.
pub struct ScanOut {
    /// The position after the scan.
    pub pos: int,
    /// The operand tokens passed over, in order; they join the Polish
    /// output.
    pub emitted: Seq<TokenView>,
    /// What stopped the scan.
    pub found: ScanFound,
}

/// Scans from `pos` to the next operator-class token, collecting the
/// operand tokens passed over.
pub open spec fn spec_next_op(toks: Seq<TokenView>, pos: int) -> ScanOut
    decreases toks.len() - pos,
{
    if pos < 0 || pos >= toks.len() {
        ScanOut { pos: pos, emitted: Seq::empty(), found: ScanFound::Exhausted }
    } else {
        let t = toks[pos];
        if is_operand(t) {
            let r = spec_next_op(toks, pos + 1);
            ScanOut { pos: r.pos, emitted: seq![t] + r.emitted, found: r.found }
        } else if is_operator_class(t) {
            ScanOut { pos: pos + 1, emitted: Seq::empty(), found: ScanFound::Oper(t) }
        } else {
            ScanOut { pos: pos + 1, emitted: Seq::empty(), found: ScanFound::Bad(t) }
        }
    }
}

/// How one production level ends.
pub enum ParseOutcome {
    /// The stream is exhausted; the parse is complete.
    Finished,
    /// The previous operator took: the level returns and its caller
    /// resumes comparison against this token.
    Resume(TokenView),
    /// A fatal error on this token.
    Stuck(TokenView),
}

/// The effect of parsing one production level: the new position, the
/// tokens appended to the Polish output, the operators left on the
/// operator stack, and how the level ended.
pub struct LevelOut {
    pub pos: int,
    pub polish: Seq<TokenView>,
    pub stack: Seq<TokenView>,
    pub out: ParseOutcome,
}

/// One production level of the parse: compare `prev` against each
/// operator-class token read (starting from `cur` if a caller handed
/// one back).  Yields pushes the token and parses a subordinate level,
/// appending the popped operator after it returns; Equal pushes the
/// token and continues with it as the new previous operator; Takes
/// returns the token to the caller; Nil fails.
pub open spec fn spec_level(
    toks: Seq<TokenView>,
    f: Seq<i32>,
    g: Seq<i32>,
    pos: int,
    prev: TokenView,
    cur: Option<TokenView>,
) -> LevelOut
    decreases
            toks.len() - pos,
            (if cur is Some {
                1int
            } else {
                0int
            }),
{
    match cur {
        None => {
            let r = spec_next_op(toks, pos);
            match r.found {
                ScanFound::Exhausted => LevelOut {
                    pos: r.pos,
                    polish: r.emitted,
                    stack: Seq::empty(),
                    out: ParseOutcome::Finished,
                },
                ScanFound::Bad(t) => LevelOut {
                    pos: r.pos,
                    polish: r.emitted,
                    stack: Seq::empty(),
                    out: ParseOutcome::Stuck(t),
                },
                ScanFound::Oper(t) => {
                    if pos < r.pos <= toks.len() {
                        let l = spec_level(toks, f, g, r.pos, prev, Some(t));
                        LevelOut {
                            pos: l.pos,
                            polish: r.emitted + l.polish,
                            stack: l.stack,
                            out: l.out,
                        }
                    } else {
                        // the scan consumes the operator it finds, so this
                        // branch cannot arise
                        LevelOut {
                            pos: r.pos,
                            polish: r.emitted,
                            stack: Seq::empty(),
                            out: ParseOutcome::Stuck(t),
                        }
                    }
                },
            }
        },
        Some(t) => {
            match spec_lookup(f, g, prev, t) {
                Handle::Nil => LevelOut {
                    pos: pos,
                    polish: Seq::empty(),
                    stack: Seq::empty(),
                    out: ParseOutcome::Stuck(t),
                },
                Handle::Takes => LevelOut {
                    pos: pos,
                    polish: Seq::empty(),
                    stack: Seq::empty(),
                    out: ParseOutcome::Resume(t),
                },
                Handle::Yields => {
                    let sub = spec_level(toks, f, g, pos, t, None);
                    match sub.out {
                        ParseOutcome::Stuck(e) => LevelOut {
                            pos: sub.pos,
                            polish: sub.polish,
                            stack: seq![t] + sub.stack,
                            out: ParseOutcome::Stuck(e),
                        },
                        ParseOutcome::Finished => LevelOut {
                            pos: sub.pos,
                            polish: sub.polish + seq![(seq![t] + sub.stack).last()],
                            stack: (seq![t] + sub.stack).drop_last(),
                            out: ParseOutcome::Finished,
                        },
                        ParseOutcome::Resume(t2) => {
                            if pos < sub.pos <= toks.len() {
                                let rest = spec_level(toks, f, g, sub.pos, prev, Some(t2));
                                LevelOut {
                                    pos: rest.pos,
                                    polish: sub.polish + seq![(seq![t] + sub.stack).last()]
                                        + rest.polish,
                                    stack: (seq![t] + sub.stack).drop_last() + rest.stack,
                                    out: rest.out,
                                }
                            } else {
                                // a subordinate level that hands a token back
                                // has consumed input, so this branch cannot
                                // arise
                                LevelOut {
                                    pos: sub.pos,
                                    polish: sub.polish,
                                    stack: seq![t] + sub.stack,
                                    out: ParseOutcome::Stuck(t2),
                                }
                            }
                        },
                    }
                },
                Handle::Equal => {
                    let sub = spec_level(toks, f, g, pos, t, None);
                    LevelOut {
                        pos: sub.pos,
                        polish: sub.polish,
                        stack: seq![t] + sub.stack,
                        out: sub.out,
                    }
                },
            }
        },
    }
}

/// Scanning never moves backwards, never passes the end, and consumes
/// at least the token it reports.
pub proof fn lemma_next_op_bounds(toks: Seq<TokenView>, pos: int)
    requires
        0 <= pos <= toks.len(),
    ensures
        pos <= spec_next_op(toks, pos).pos <= toks.len(),
        !(spec_next_op(toks, pos).found is Exhausted) ==> spec_next_op(toks, pos).pos > pos,
        spec_next_op(toks, pos).found is Exhausted ==> spec_next_op(toks, pos).pos
            == toks.len(),
    decreases toks.len() - pos,
{
    if pos < toks.len() {
        if is_operand(toks[pos]) {
            lemma_next_op_bounds(toks, pos + 1);
        }
    }
}

/// A production level never moves backwards or past the end, and a
/// level entered without a pending token consumes input before it can
/// hand one back.
pub proof fn lemma_level_bounds(
    toks: Seq<TokenView>,
    f: Seq<i32>,
    g: Seq<i32>,
    pos: int,
    prev: TokenView,
    cur: Option<TokenView>,
)
    requires
        0 <= pos <= toks.len(),
    ensures
        pos <= spec_level(toks, f, g, pos, prev, cur).pos <= toks.len(),
        cur is None && spec_level(toks, f, g, pos, prev, cur).out is Resume ==> spec_level(
            toks,
            f,
            g,
            pos,
            prev,
            cur,
        ).pos > pos,
        spec_level(toks, f, g, pos, prev, cur).out is Finished ==> spec_level(
            toks,
            f,
            g,
            pos,
            prev,
            cur,
        ).pos == toks.len(),
    decreases
            toks.len() - pos,
            (if cur is Some {
                1int
            } else {
                0int
            }),
{
    match cur {
        None => {
            let r = spec_next_op(toks, pos);
            lemma_next_op_bounds(toks, pos);
            match r.found {
                ScanFound::Exhausted => {},
                ScanFound::Bad(_) => {},
                ScanFound::Oper(t) => {
                    lemma_level_bounds(toks, f, g, r.pos, prev, Some(t));
                },
            }
        },
        Some(t) => {
            match spec_lookup(f, g, prev, t) {
                Handle::Nil => {},
                Handle::Takes => {},
                Handle::Yields => {
                    let sub = spec_level(toks, f, g, pos, t, None);
                    lemma_level_bounds(toks, f, g, pos, t, None);
                    match sub.out {
                        ParseOutcome::Stuck(_) => {},
                        ParseOutcome::Finished => {},
                        ParseOutcome::Resume(t2) => {
                            lemma_level_bounds(toks, f, g, sub.pos, prev, Some(t2));
                        },
                    }
                },
                Handle::Equal => {
                    lemma_level_bounds(toks, f, g, pos, t, None);
                },
            }
        },
    }
}


/// The view of an optional pending token.
pub open spec fn opt_view(o: Option<Token>) -> Option<TokenView> {
    match o {
        Option::None => Option::None,
        Option::Some(t) => Option::Some(t@),
    }
}

/// Prefixes a level's effect with what an enclosing level has already
/// accumulated.
pub open spec fn glue(acc_pol: Seq<TokenView>, acc_stk: Seq<TokenView>, s: LevelOut) -> LevelOut {
    LevelOut { pos: s.pos, polish: acc_pol + s.polish, stack: acc_stk + s.stack, out: s.out }
}

proof fn lemma_views_push(s: Seq<Token>, t: Token)
    ensures
        views_of(s.push(t)) == views_of(s).push(t@),
{
    assert(views_of(s.push(t)) =~= views_of(s).push(t@));
}

proof fn lemma_quad_views_push(s: Seq<Quad>, q: Quad)
    ensures
        quad_views_of(s.push(q)) == quad_views_of(s).push(q@),
{
    assert(quad_views_of(s.push(q)) =~= quad_views_of(s).push(q@));
}

/// The parser's state over one compilation: the token stream and its
/// cursor, the Polish output, the quad list, the precedence functions,
/// the operator stack, and the previous-operator cursor.
pub struct Syntax {
    pub tokens: Vec<Token>,
    pub pos: usize,
    pub polish: Vec<Token>,
    pub quads: QuadList,
    pub p_func: PFunc,
    pub op_stack: Vec<Token>,
    pub prev_op: Token,
}

impl Syntax {
    /// The precedence tables cover every symbol index, and the cursor
    /// stays within the stream.
    pub open spec fn wf(self) -> bool {
        &&& self.p_func.f@.len() == symbol_count()
        &&& self.p_func.g@.len() == symbol_count()
        &&& self.pos <= self.tokens@.len()
    }

    /// A parser over the given token stream, driven by the given
    /// precedence functions.
    pub fn new(tokens: Vec<Token>, p_func: PFunc) -> (s: Syntax)
        requires
            p_func.f@.len() == symbol_count(),
            p_func.g@.len() == symbol_count(),
        ensures
            s.wf(),
            s.tokens == tokens,
            s.pos == 0,
            s.polish@ == Seq::<Token>::empty(),
            s.quads@ == Seq::<Quad>::empty(),
            s.op_stack@ == Seq::<Token>::empty(),
            s.p_func == p_func,
            s.prev_op@ == empty_view(),
    {
        Syntax {
            tokens,
            pos: 0,
            polish: Vec::new(),
            quads: Vec::new(),
            p_func,
            op_stack: Vec::new(),
            prev_op: Token::empty(),
        }
    }

    /// The stream the analysis consumes: the scanned tokens behind a
    /// synthetic terminator that marks the start of the input.
    pub fn tokens_from_memory(tokens: &Vec<Token>) -> (r: Vec<Token>)
        ensures
            r@.len() == tokens@.len() + 1,
            r@[0]@ == terminator_view(),
            forall|i: int| 0 <= i < tokens@.len() ==> r@[i + 1] == tokens@[i],
    {
        let mut r: Vec<Token> = Vec::new();
        r.push(Token::terminator());
        let mut i: usize = 0;
        while i < tokens.len()
            invariant
                i <= tokens@.len(),
                r@.len() == i + 1,
                r@[0]@ == terminator_view(),
                forall|i2: int| 0 <= i2 < i ==> r@[i2 + 1] == tokens@[i2],
            decreases tokens@.len() - i,
        {
            r.push(tokens[i].duplicate());
            i += 1;
        }
        r
    }

    /// Compares the previous operator against a newly read token
    /// through the precedence functions.
    fn table_lookup(&self, prev: &Token, t: &Token) -> (h: Handle)
        requires
            self.wf(),
        ensures
            h == spec_lookup(self.p_func.f@, self.p_func.g@, prev@, t@),
    {
        let gi = symbol_index(t.name.as_str());
        if gi == 0 {
            return Handle::Nil;
        }
        let fi = symbol_index(prev.name.as_str());
        let fv = self.p_func.f[fi];
        let gv = self.p_func.g[gi];
        if fv > gv {
            Handle::Takes
        } else if fv < gv {
            Handle::Yields
        } else {
            Handle::Equal
        }
    }

    /// Advances to the next operator-class token, appending the
    /// operand tokens passed over to the Polish output.
    fn next_op(&mut self) -> (r: Result<Option<Token>, SyntaxError>)
        requires
            old(self).wf(),
        ensures
            final(self).wf(),
            final(self).tokens == old(self).tokens,
            final(self).p_func == old(self).p_func,
            final(self).quads == old(self).quads,
            final(self).op_stack == old(self).op_stack,
            final(self).prev_op == old(self).prev_op,
            final(self).pos == spec_next_op(
                views_of(old(self).tokens@),
                old(self).pos as int,
            ).pos,
            views_of(final(self).polish@) == views_of(old(self).polish@) + spec_next_op(
                views_of(old(self).tokens@),
                old(self).pos as int,
            ).emitted,
            (match r {
                Ok(found) => match found {
                    Option::None => spec_next_op(
                        views_of(old(self).tokens@),
                        old(self).pos as int,
                    ).found is Exhausted,
                    Option::Some(t) => spec_next_op(
                        views_of(old(self).tokens@),
                        old(self).pos as int,
                    ).found == ScanFound::Oper(t@),
                },
                Err(e) => match e {
                    SyntaxError::UndefinedPrecedence(t) => spec_next_op(
                        views_of(old(self).tokens@),
                        old(self).pos as int,
                    ).found == ScanFound::Bad(t@),
                    SyntaxError::UnexpectedEndOfInput => false,
                },
            }),
    {
        let ghost toks = views_of(old(self).tokens@);
        let ghost pol0 = views_of(old(self).polish@);
        let ghost target = spec_next_op(toks, old(self).pos as int);
        let ghost mut acc: Seq<TokenView> = Seq::empty();
        proof {
            assert(pol0 + acc =~= pol0);
        }
        loop
            invariant
                self.wf(),
                self.tokens == old(self).tokens,
                self.p_func == old(self).p_func,
                self.quads == old(self).quads,
                self.op_stack == old(self).op_stack,
                self.prev_op == old(self).prev_op,
                toks == views_of(self.tokens@),
                pol0 == views_of(old(self).polish@),
                target == spec_next_op(toks, old(self).pos as int),
                views_of(self.polish@) == pol0 + acc,
                target.pos == spec_next_op(toks, self.pos as int).pos,
                target.found == spec_next_op(toks, self.pos as int).found,
                target.emitted == acc + spec_next_op(toks, self.pos as int).emitted,
            decreases self.tokens@.len() - self.pos,
        {
            let ghost p = self.pos as int;
            let ghost s_here = spec_next_op(toks, p);
            if self.pos >= self.tokens.len() {
                proof {
                    assert(s_here.found is Exhausted);
                    assert(s_here.emitted =~= Seq::<TokenView>::empty());
                    assert(target.emitted =~= acc);
                    assert(views_of(self.polish@) =~= pol0 + target.emitted);
                }
                return Ok(None);
            }
            let t = self.tokens[self.pos].duplicate();
            proof {
                assert(toks[p] == self.tokens@[p]@);
                assert(toks[p] == t@);
            }
            self.pos += 1;
            match t.class {
                TokenClass::Identifier | TokenClass::Literal => {
                    let ghost s_next = spec_next_op(toks, p + 1);
                    proof {
                        assert(is_operand(toks[p]));
                        assert(s_here.pos == s_next.pos);
                        assert(s_here.found == s_next.found);
                        assert(s_here.emitted == seq![toks[p]] + s_next.emitted);
                    }
                    self.polish.push(t);
                    proof {
                        lemma_views_push(old(self).polish@.subrange(0, old(self).polish@.len() as int), t);
                        assert(views_of(self.polish@) =~= (pol0 + acc).push(t@));
                        assert((pol0 + acc).push(t@) =~= pol0 + acc.push(t@));
                        assert(acc + (seq![t@] + s_next.emitted) =~= acc.push(t@)
                            + s_next.emitted);
                        acc = acc.push(t@);
                    }
                },
                TokenClass::Unknown => {
                    proof {
                        assert(!is_operand(toks[p]) && !is_operator_class(toks[p]));
                        assert(s_here.found == ScanFound::Bad(t@));
                        assert(s_here.pos == p + 1);
                        assert(s_here.emitted =~= Seq::<TokenView>::empty());
                        assert(target.emitted =~= acc);
                        assert(views_of(self.polish@) =~= pol0 + target.emitted);
                    }
                    return Err(SyntaxError::UndefinedPrecedence(t));
                },
                _ => {
                    proof {
                        assert(is_operator_class(toks[p]));
                        assert(s_here.found == ScanFound::Oper(t@));
                        assert(s_here.pos == p + 1);
                        assert(s_here.emitted =~= Seq::<TokenView>::empty());
                        assert(target.emitted =~= acc);
                        assert(views_of(self.polish@) =~= pol0 + target.emitted);
                    }
                    return Ok(Some(t));
                },
            }
        }
    }
}


impl Syntax {
    /// Parses one production level.  `prev` is the operator this level
    /// was entered under (or the start marker); `pending` is a token a
    /// subordinate level handed back, if any.  Returns the token that
    /// stopped the level, or `None` when the stream is exhausted.
    fn expression(&mut self, prev: &Token, pending: Option<Token>) -> (r: Result<
        Option<Token>,
        SyntaxError,
    >)
        requires
            old(self).wf(),
        ensures
            final(self).wf(),
            final(self).tokens == old(self).tokens,
            final(self).p_func == old(self).p_func,
            final(self).quads == old(self).quads,
            final(self).prev_op == old(self).prev_op,
            old(self).pos <= final(self).pos,
            ({
                let s = spec_level(
                    views_of(old(self).tokens@),
                    old(self).p_func.f@,
                    old(self).p_func.g@,
                    old(self).pos as int,
                    prev@,
                    opt_view(pending),
                );
                &&& final(self).pos == s.pos
                &&& views_of(final(self).polish@) == views_of(old(self).polish@) + s.polish
                &&& views_of(final(self).op_stack@) == views_of(old(self).op_stack@) + s.stack
                &&& (match r {
                    Ok(found) => match found {
                        Option::None => s.out is Finished,
                        Option::Some(t) => s.out == ParseOutcome::Resume(t@),
                    },
                    Err(e) => match e {
                        SyntaxError::UndefinedPrecedence(t) => s.out == ParseOutcome::Stuck(t@),
                        SyntaxError::UnexpectedEndOfInput => false,
                    },
                })
            }),
        decreases
                old(self).tokens@.len() - old(self).pos,
                (if pending is Some {
                    1int
                } else {
                    0int
                }),
    {
        let ghost toks = views_of(old(self).tokens@);
        let ghost fseq = old(self).p_func.f@;
        let ghost gseq = old(self).p_func.g@;
        let ghost pos0 = old(self).pos as int;
        let ghost pol0 = views_of(old(self).polish@);
        let ghost stk0 = views_of(old(self).op_stack@);
        let ghost target = spec_level(toks, fseq, gseq, pos0, prev@, opt_view(pending));
        let mut prevt: Token = prev.duplicate();
        let mut cur: Option<Token> = pending;
        let ghost mut acc_pol: Seq<TokenView> = Seq::empty();
        let ghost mut acc_stk: Seq<TokenView> = Seq::empty();
        proof {
            assert(pol0 + acc_pol =~= pol0);
            assert(stk0 + acc_stk =~= stk0);
            assert(acc_pol + target.polish =~= target.polish);
            assert(acc_stk + target.stack =~= target.stack);
        }
        loop
            invariant
                self.wf(),
                self.tokens == old(self).tokens,
                self.p_func == old(self).p_func,
                self.quads == old(self).quads,
                self.prev_op == old(self).prev_op,
                toks == views_of(self.tokens@),
                fseq == self.p_func.f@,
                gseq == self.p_func.g@,
                pol0 == views_of(old(self).polish@),
                stk0 == views_of(old(self).op_stack@),
                target == spec_level(toks, fseq, gseq, pos0, prev@, opt_view(pending)),
                pos0 == old(self).pos as int,
                pos0 <= self.pos as int,
                pending is None && cur is Some ==> pos0 < self.pos as int,
                views_of(self.polish@) == pol0 + acc_pol,
                views_of(self.op_stack@) == stk0 + acc_stk,
                target == glue(
                    acc_pol,
                    acc_stk,
                    spec_level(toks, fseq, gseq, self.pos as int, prevt@, opt_view(cur)),
                ),
            decreases
                    self.tokens@.len() - self.pos,
                    (if cur is Some {
                        1int
                    } else {
                        0int
                    }),
        {
            let ghost p = self.pos as int;
            let ghost s_here = spec_level(toks, fseq, gseq, p, prevt@, opt_view(cur));
            match cur {
                None => {
                    let ghost scan = spec_next_op(toks, p);
                    proof {
                        lemma_next_op_bounds(toks, p);
                    }
                    let got = self.next_op();
                    match got {
                        Err(e) => {
                            proof {
                                assert(scan.found is Bad);
                                assert(s_here.pos == scan.pos);
                                assert(s_here.polish == scan.emitted);
                                assert(s_here.stack == Seq::<TokenView>::empty());
                                assert(s_here.out == ParseOutcome::Stuck(scan.found->Bad_0));
                                assert(target.pos == s_here.pos);
                                assert(target.polish == acc_pol + s_here.polish);
                                assert(target.stack == acc_stk + s_here.stack);
                                assert(target.out == s_here.out);
                                assert(views_of(self.polish@) =~= pol0 + (acc_pol
                                    + s_here.polish));
                                assert(views_of(self.op_stack@) =~= stk0 + (acc_stk
                                    + s_here.stack));
                            }
                            return Err(e);
                        },
                        Ok(None) => {
                            proof {
                                assert(s_here.polish == scan.emitted);
                                assert(views_of(self.polish@) =~= pol0 + (acc_pol
                                    + s_here.polish));
                                assert(stk0 + acc_stk =~= stk0 + (acc_stk + s_here.stack));
                            }
                            return Ok(None);
                        },
                        Ok(Some(t)) => {
                            proof {
                                assert(scan.found == ScanFound::Oper(t@));
                                assert(p < scan.pos <= toks.len());
                                let l = spec_level(toks, fseq, gseq, scan.pos, prevt@, Some(t@));
                                assert(s_here.polish == scan.emitted + l.polish);
                                assert(acc_pol + (scan.emitted + l.polish) =~= (acc_pol
                                    + scan.emitted) + l.polish);
                                acc_pol = acc_pol + scan.emitted;
                            }
                            cur = Some(t);
                        },
                    }
                },
                Some(t) => {
                    let h = self.table_lookup(&prevt, &t);
                    match h {
                        Handle::Nil => {
                            proof {
                                assert(s_here.out == ParseOutcome::Stuck(t@));
                                assert(views_of(self.polish@) =~= pol0 + (acc_pol
                                    + s_here.polish));
                                assert(views_of(self.op_stack@) =~= stk0 + (acc_stk
                                    + s_here.stack));
                            }
                            return Err(SyntaxError::UndefinedPrecedence(t));
                        },
                        Handle::Takes => {
                            proof {
                                assert(s_here.out == ParseOutcome::Resume(t@));
                                assert(views_of(self.polish@) =~= pol0 + (acc_pol
                                    + s_here.polish));
                                assert(views_of(self.op_stack@) =~= stk0 + (acc_stk
                                    + s_here.stack));
                            }
                            return Ok(Some(t));
                        },
                        Handle::Yields => {
                            let ghost sub_spec = spec_level(toks, fseq, gseq, p, t@, None);
                            proof {
                                lemma_level_bounds(toks, fseq, gseq, p, t@, None);
                            }
                            let ghost stack_pre = self.op_stack@;
                            self.op_stack.push(t.duplicate());
                            proof {
                                lemma_views_push(stack_pre, t);
                                assert(views_of(self.op_stack@) == views_of(stack_pre).push(
                                    t@,
                                ));
                                assert(views_of(self.op_stack@) =~= stk0 + (acc_stk + seq![
                                    t@,
                                ]));
                            }
                            let sub_res = self.expression(&t, None);
                            let back = match sub_res {
                                Err(e) => {
                                    proof {
                                        assert(s_here.stack =~= seq![t@] + sub_spec.stack);
                                        assert(views_of(self.polish@) =~= pol0 + (acc_pol
                                            + sub_spec.polish));
                                        assert(views_of(self.op_stack@) =~= stk0 + ((acc_stk
                                            + seq![t@]) + sub_spec.stack));
                                        assert(stk0 + ((acc_stk + seq![t@]) + sub_spec.stack)
                                            =~= stk0 + (acc_stk + (seq![t@] + sub_spec.stack)));
                                    }
                                    return Err(e);
                                },
                                Ok(v) => v,
                            };
                            let ghost whole = seq![t@] + sub_spec.stack;
                            proof {
                                assert(views_of(self.op_stack@) =~= (stk0 + acc_stk) + whole);
                                assert(whole.len() >= 1);
                                assert(self.op_stack@.len() == views_of(self.op_stack@).len());
                                assert(((stk0 + acc_stk) + whole).last() == whole.last());
                            }
                            let popped = self.op_stack.pop();
                            let op = match popped {
                                Some(op) => op,
                                None => {
                                    proof {
                                        assert(false);
                                    }
                                    Token::empty()
                                },
                            };
                            proof {
                                assert(op@ == whole.last());
                                assert(views_of(self.op_stack@) =~= ((stk0 + acc_stk)
                                    + whole).drop_last());
                                assert(((stk0 + acc_stk) + whole).drop_last() =~= (stk0
                                    + acc_stk) + whole.drop_last());
                                assert((stk0 + acc_stk) + whole.drop_last() =~= stk0 + (acc_stk
                                    + whole.drop_last()));
                            }
                            let ghost polish_pre = self.polish@;
                            self.polish.push(op);
                            proof {
                                lemma_views_push(polish_pre, op);
                                assert(views_of(self.polish@) == views_of(polish_pre).push(
                                    op@,
                                ));
                                assert(views_of(polish_pre) == (pol0 + acc_pol)
                                    + sub_spec.polish);
                                assert(views_of(self.polish@) =~= pol0 + (acc_pol
                                    + (sub_spec.polish + seq![whole.last()])));
                            }
                            match back {
                                None => {
                                    proof {
                                        assert(sub_spec.out is Finished);
                                        assert(s_here.polish == sub_spec.polish + seq![
                                            whole.last(),
                                        ]);
                                        assert(s_here.stack == whole.drop_last());
                                        assert(s_here.out is Finished);
                                        assert(views_of(self.polish@) =~= pol0 + (acc_pol
                                            + s_here.polish));
                                        assert(views_of(self.op_stack@) =~= stk0 + (acc_stk
                                            + s_here.stack));
                                    }
                                    return Ok(None);
                                },
                                Some(t2) => {
                                    proof {
                                        assert(sub_spec.out == ParseOutcome::Resume(t2@));
                                        assert(p < sub_spec.pos <= toks.len());
                                        let rest = spec_level(
                                            toks,
                                            fseq,
                                            gseq,
                                            sub_spec.pos,
                                            prevt@,
                                            Some(t2@),
                                        );
                                        assert(s_here.polish == sub_spec.polish + seq![
                                            whole.last(),
                                        ] + rest.polish);
                                        assert(s_here.stack == whole.drop_last() + rest.stack);
                                        assert(acc_pol + (sub_spec.polish + seq![whole.last()]
                                            + rest.polish) =~= (acc_pol + (sub_spec.polish
                                            + seq![whole.last()])) + rest.polish);
                                        assert(acc_stk + (whole.drop_last() + rest.stack) =~= (
                                        acc_stk + whole.drop_last()) + rest.stack);
                                        acc_pol = acc_pol + (sub_spec.polish + seq![
                                            whole.last(),
                                        ]);
                                        acc_stk = acc_stk + whole.drop_last();
                                    }
                                    cur = Some(t2);
                                },
                            }
                        },
                        Handle::Equal => {
                            let ghost sub_spec = spec_level(toks, fseq, gseq, p, t@, None);
                            let ghost stack_pre = self.op_stack@;
                            self.op_stack.push(t.duplicate());
                            proof {
                                assert(s_here.pos == sub_spec.pos);
                                assert(s_here.polish == sub_spec.polish);
                                assert(s_here.stack == seq![t@] + sub_spec.stack);
                                assert(s_here.out == sub_spec.out);
                                lemma_views_push(stack_pre, t);
                                assert(views_of(self.op_stack@) == views_of(stack_pre).push(
                                    t@,
                                ));
                                assert(views_of(self.op_stack@) =~= stk0 + (acc_stk + seq![
                                    t@,
                                ]));
                                assert(acc_stk + (seq![t@] + sub_spec.stack) =~= (acc_stk
                                    + seq![t@]) + sub_spec.stack);
                                acc_stk = acc_stk + seq![t@];
                            }
                            prevt = t;
                            cur = None;
                        },
                    }
                },
            }
        }
    }
}


/// One left-to-right pass over a Polish sequence with a value stack:
/// operands push; a binary operator other than `=` pops its right and
/// left operands, emits a quad into a fresh temporary, and pushes that
/// temporary; `=` pops value and target and emits a quad with no
/// temporary; `GET` and `PUT` pop one operand; delimiters and other
/// reserved words are skipped.  `None` where a pop finds the stack
/// empty.
pub open spec fn spec_consume(
    polish: Seq<TokenView>,
    i: int,
    stack: Seq<TokenView>,
    tid: int,
) -> Option<Seq<QuadView>>
    decreases polish.len() - i,
{
    if i < 0 || i >= polish.len() {
        Some(Seq::empty())
    } else {
        let t = polish[i];
        if t.class == TokenClass::Op {
            if stack.len() < 2 {
                None
            } else if t.name == "="@ {
                let q = QuadView {
                    op: t,
                    param_one: stack.last(),
                    param_two: stack[stack.len() - 2],
                    temp: empty_view(),
                };
                match spec_consume(polish, i + 1, stack.drop_last().drop_last(), tid) {
                    Option::None => Option::None,
                    Option::Some(rest) => Option::Some(seq![q] + rest),
                }
            } else {
                let q = QuadView {
                    op: t,
                    param_one: stack.last(),
                    param_two: stack[stack.len() - 2],
                    temp: temp_view(tid as nat),
                };
                match spec_consume(
                    polish,
                    i + 1,
                    stack.drop_last().drop_last().push(temp_view(tid as nat)),
                    tid + 1,
                ) {
                    Option::None => Option::None,
                    Option::Some(rest) => Option::Some(seq![q] + rest),
                }
            }
        } else if t.class == TokenClass::Delimiter {
            spec_consume(polish, i + 1, stack, tid)
        } else if t.class == TokenClass::ReservedWord {
            if t.name == "GET"@ || t.name == "PUT"@ {
                if stack.len() < 1 {
                    None
                } else {
                    let q = QuadView {
                        op: t,
                        param_one: stack.last(),
                        param_two: empty_view(),
                        temp: empty_view(),
                    };
                    match spec_consume(polish, i + 1, stack.drop_last(), tid) {
                        Option::None => Option::None,
                        Option::Some(rest) => Option::Some(seq![q] + rest),
                    }
                }
            } else {
                spec_consume(polish, i + 1, stack, tid)
            }
        } else {
            spec_consume(polish, i + 1, stack.push(t), tid)
        }
    }
}

impl Syntax {
    /// Runs the whole analysis: the first token of the stream becomes
    /// the previous-operator cursor (the synthetic terminator, when the
    /// stream came through `tokens_from_memory`), one production level
    /// is parsed from the token after it, and the operators still on
    /// the stack join the Polish output in pop order.  Fails with
    /// `UnexpectedEndOfInput` on an empty stream, and with the parse's
    /// own error where it gets stuck.
    pub fn complete_analysis(&mut self) -> (r: Result<(), SyntaxError>)
        requires
            old(self).wf(),
        ensures
            final(self).wf(),
            final(self).tokens == old(self).tokens,
            final(self).p_func == old(self).p_func,
            final(self).quads == old(self).quads,
            old(self).pos >= old(self).tokens@.len() ==> r == Err::<(), SyntaxError>(
                SyntaxError::UnexpectedEndOfInput,
            ) && *final(self) == *old(self),
            old(self).pos < old(self).tokens@.len() ==> ({
                let toks = views_of(old(self).tokens@);
                let first = old(self).tokens@[old(self).pos as int];
                let lv = spec_level(
                    toks,
                    old(self).p_func.f@,
                    old(self).p_func.g@,
                    old(self).pos as int + 1,
                    first@,
                    Option::None,
                );
                &&& final(self).prev_op == first
                &&& (match r {
                    Ok(u) => {
                        &&& (lv.out is Finished || lv.out is Resume)
                        &&& views_of(final(self).polish@) == views_of(old(self).polish@)
                            + lv.polish + (views_of(old(self).op_stack@) + lv.stack).reverse()
                        &&& final(self).op_stack@ == Seq::<Token>::empty()
                        &&& final(self).pos == lv.pos
                    },
                    Err(e) => match e {
                        SyntaxError::UndefinedPrecedence(t) => {
                            &&& lv.out == ParseOutcome::Stuck(t@)
                            &&& views_of(final(self).polish@) == views_of(old(self).polish@)
                                + lv.polish
                            &&& views_of(final(self).op_stack@) == views_of(
                                old(self).op_stack@,
                            ) + lv.stack
                            &&& final(self).pos == lv.pos
                        },
                        SyntaxError::UnexpectedEndOfInput => false,
                    },
                })
            }),
    {
        if self.pos >= self.tokens.len() {
            return Err(SyntaxError::UnexpectedEndOfInput);
        }
        let first = self.tokens[self.pos].duplicate();
        self.pos += 1;
        self.prev_op = first.duplicate();
        let res = self.expression(&first, None);
        match res {
            Err(e) => {
                return Err(e);
            },
            Ok(_) => {},
        }
        let ghost toks0 = views_of(old(self).tokens@);
        let ghost lv = spec_level(
            toks0,
            old(self).p_func.f@,
            old(self).p_func.g@,
            old(self).pos as int + 1,
            old(self).tokens@[old(self).pos as int]@,
            Option::<TokenView>::None,
        );
        let ghost drained = views_of(self.polish@);
        let ghost stack_all = views_of(self.op_stack@);
        proof {
            assert(drained == views_of(old(self).polish@) + lv.polish);
            assert(stack_all == views_of(old(self).op_stack@) + lv.stack);
            assert(views_of(self.op_stack@) =~= stack_all.subrange(
                0,
                self.op_stack@.len() as int,
            ));
            assert(stack_all.skip(stack_all.len() as int).reverse() =~= Seq::<
                TokenView,
            >::empty());
            assert(views_of(self.polish@) =~= drained + stack_all.skip(
                stack_all.len() as int,
            ).reverse());
        }
        loop
            invariant
                self.wf(),
                self.tokens == old(self).tokens,
                self.p_func == old(self).p_func,
                self.quads == old(self).quads,
                old(self).pos < old(self).tokens@.len(),
                self.prev_op == old(self).tokens@[old(self).pos as int],
                lv == spec_level(
                    views_of(old(self).tokens@),
                    old(self).p_func.f@,
                    old(self).p_func.g@,
                    old(self).pos as int + 1,
                    old(self).tokens@[old(self).pos as int]@,
                    Option::<TokenView>::None,
                ),
                lv.out is Finished || lv.out is Resume,
                self.pos == lv.pos,
                drained == views_of(old(self).polish@) + lv.polish,
                stack_all == views_of(old(self).op_stack@) + lv.stack,
                self.op_stack@.len() <= stack_all.len(),
                views_of(self.op_stack@) == stack_all.subrange(0, self.op_stack@.len() as int),
                views_of(self.polish@) == drained + stack_all.skip(
                    self.op_stack@.len() as int,
                ).reverse(),
            ensures
                self.wf(),
                self.tokens == old(self).tokens,
                self.p_func == old(self).p_func,
                self.quads == old(self).quads,
                self.prev_op == old(self).tokens@[old(self).pos as int],
                self.pos == lv.pos,
                self.op_stack@.len() == 0,
                views_of(self.polish@) == drained + stack_all.reverse(),
            decreases self.op_stack@.len(),
        {
            let ghost k = self.op_stack@.len() as int;
            let ghost stack_pre = self.op_stack@;
            let popped = self.op_stack.pop();
            match popped {
                None => {
                    proof {
                        assert(stack_all.skip(0) =~= stack_all);
                        assert(views_of(self.polish@) =~= drained + stack_all.reverse());
                    }
                    break ;
                },
                Some(op) => {
                    proof {
                        assert(op == stack_pre.last());
                        assert(op@ == views_of(stack_pre)[k - 1]);
                        assert(op@ == stack_all[k - 1]);
                        assert(views_of(self.op_stack@) =~= stack_all.subrange(0, k - 1));
                    }
                    let ghost polish_pre = self.polish@;
                    self.polish.push(op);
                    proof {
                        lemma_views_push(polish_pre, op);
                        assert(stack_all.skip(k - 1).reverse() =~= stack_all.skip(k).reverse()
                            + seq![stack_all[k - 1]]);
                        assert(views_of(self.polish@) =~= drained + stack_all.skip(
                            k - 1,
                        ).reverse());
                    }
                },
            }
        }
        proof {
            assert(views_of(self.polish@) =~= views_of(old(self).polish@) + lv.polish + (
            views_of(old(self).op_stack@) + lv.stack).reverse());
            assert(views_of(self.op_stack@) =~= Seq::<TokenView>::empty());
            assert(self.op_stack@ =~= Seq::<Token>::empty());
        }
        Ok(())
    }

    /// Turns the Polish output into the quad list, as one forward pass
    /// with a value stack.  Fails with `UnexpectedEndOfInput` where an
    /// operator finds too few operands on the stack.
    pub fn consume_polish(&mut self) -> (r: Result<(), SyntaxError>)
        requires
            old(self).wf(),
            old(self).polish@.len() < 0x7FFF_FFFF,
        ensures
            final(self).wf(),
            final(self).tokens == old(self).tokens,
            final(self).pos == old(self).pos,
            final(self).polish == old(self).polish,
            final(self).op_stack == old(self).op_stack,
            final(self).p_func == old(self).p_func,
            final(self).prev_op == old(self).prev_op,
            (match spec_consume(views_of(old(self).polish@), 0, Seq::empty(), 1) {
                Option::Some(qs) => r == Ok::<(), SyntaxError>(()) && quad_views_of(
                    final(self).quads@,
                ) == qs,
                Option::None => r == Err::<(), SyntaxError>(SyntaxError::UnexpectedEndOfInput)
                    && final(self).quads == old(self).quads,
            }),
    {
        let ghost pview = views_of(old(self).polish@);
        let ghost target = spec_consume(pview, 0, Seq::empty(), 1);
        let mut quads: Vec<Quad> = Vec::new();
        let mut param_stack: Vec<Token> = Vec::new();
        let mut temp_id: i32 = 1;
        let mut i: usize = 0;
        let n = self.polish.len();
        proof {
            assert(views_of(param_stack@) =~= Seq::<TokenView>::empty());
            assert(quad_views_of(quads@) =~= Seq::<QuadView>::empty());
            assert(match spec_consume(pview, 0, views_of(param_stack@), 1) {
                Option::None => target is None,
                Option::Some(rest) => target == Option::Some(
                    quad_views_of(quads@) + rest,
                ),
            }) by {
                if spec_consume(pview, 0, views_of(param_stack@), 1) is Some {
                    let rest = spec_consume(pview, 0, views_of(param_stack@), 1)->Some_0;
                    assert(quad_views_of(quads@) + rest =~= rest);
                }
            }
        }
        while i < n
            invariant
                i <= n,
                n == self.polish@.len(),
                old(self).wf(),
                *self == *old(self),
                pview == views_of(self.polish@),
                target == spec_consume(pview, 0, Seq::empty(), 1),
                n < 0x7FFF_FFFF,
                1 <= temp_id,
                temp_id <= 1 + i,
                (match spec_consume(pview, i as int, views_of(param_stack@), temp_id as int) {
                    Option::None => target is None,
                    Option::Some(rest) => target == Option::Some(
                        quad_views_of(quads@) + rest,
                    ),
                }),
            decreases n - i,
        {
            let ghost s_stack = views_of(param_stack@);
            let ghost s_here = spec_consume(pview, i as int, s_stack, temp_id as int);
            let t = self.polish[i].duplicate();
            proof {
                assert(pview[i as int] == self.polish@[i as int]@);
                assert(pview[i as int] == t@);
            }
            match t.class {
                TokenClass::Op => {
                    if param_stack.len() < 2 {
                        proof {
                            assert(s_here is None);
                        }
                        return Err(SyntaxError::UnexpectedEndOfInput);
                    }
                    let is_assign = str_eq(t.name.as_str(), "=");
                    let p1 = match param_stack.pop() {
                        Some(v) => v,
                        None => {
                            proof {
                                assert(false);
                            }
                            Token::empty()
                        },
                    };
                    let p2 = match param_stack.pop() {
                        Some(v) => v,
                        None => {
                            proof {
                                assert(false);
                            }
                            Token::empty()
                        },
                    };
                    proof {
                        assert(p1@ == s_stack.last());
                        assert(p2@ == s_stack[s_stack.len() - 2]);
                        assert(views_of(param_stack@) =~= s_stack.drop_last().drop_last());
                    }
                    if is_assign {
                        let ghost q_pre = quads@;
                        quads.push(
                            Quad { op: t, param_one: p1, param_two: p2, temp: Token::empty() },
                        );
                        proof {
                            lemma_quad_views_push(q_pre, quads@.last());
                            let qv = QuadView {
                                op: pview[i as int],
                                param_one: s_stack.last(),
                                param_two: s_stack[s_stack.len() - 2],
                                temp: empty_view(),
                            };
                            assert(quads@.last()@ == qv);
                            let rest2 = spec_consume(
                                pview,
                                i as int + 1,
                                s_stack.drop_last().drop_last(),
                                temp_id as int,
                            );
                            assert(s_here == (match rest2 {
                                Option::None => Option::<Seq<QuadView>>::None,
                                Option::Some(rest) => Option::Some(seq![qv] + rest),
                            }));
                            if rest2 is Some {
                                assert(quad_views_of(q_pre) + (seq![qv] + rest2->Some_0)
                                    =~= quad_views_of(quads@) + rest2->Some_0);
                            }
                        }
                    } else {
                        let temp = Token::temp_gen(temp_id);
                        let ghost q_pre = quads@;
                        quads.push(
                            Quad {
                                op: t,
                                param_one: p1,
                                param_two: p2,
                                temp: temp.duplicate(),
                            },
                        );
                        let ghost stack_pre = param_stack@;
                        param_stack.push(temp);
                        temp_id += 1;
                        proof {
                            lemma_quad_views_push(q_pre, quads@.last());
                            lemma_views_push(stack_pre, param_stack@.last());
                            let qv = QuadView {
                                op: pview[i as int],
                                param_one: s_stack.last(),
                                param_two: s_stack[s_stack.len() - 2],
                                temp: temp_view((temp_id - 1) as nat),
                            };
                            assert(quads@.last()@ == qv);
                            assert(views_of(param_stack@) =~= s_stack.drop_last().drop_last()
                                .push(temp_view((temp_id - 1) as nat)));
                            let rest2 = spec_consume(
                                pview,
                                i as int + 1,
                                s_stack.drop_last().drop_last().push(
                                    temp_view((temp_id - 1) as nat),
                                ),
                                temp_id as int,
                            );
                            assert(s_here == (match rest2 {
                                Option::None => Option::<Seq<QuadView>>::None,
                                Option::Some(rest) => Option::Some(seq![qv] + rest),
                            }));
                            if rest2 is Some {
                                assert(quad_views_of(q_pre) + (seq![qv] + rest2->Some_0)
                                    =~= quad_views_of(quads@) + rest2->Some_0);
                            }
                        }
                    }
                },
                TokenClass::Delimiter => {
                    proof {
                        assert(s_here == spec_consume(
                            pview,
                            i as int + 1,
                            views_of(param_stack@),
                            temp_id as int,
                        ));
                    }
                },
                TokenClass::ReservedWord => {
                    let is_io = str_eq(t.name.as_str(), "GET") || str_eq(
                        t.name.as_str(),
                        "PUT",
                    );
                    if is_io {
                        if param_stack.len() < 1 {
                            proof {
                                assert(s_here is None);
                            }
                            return Err(SyntaxError::UnexpectedEndOfInput);
                        }
                        let p1 = match param_stack.pop() {
                            Some(v) => v,
                            None => {
                                proof {
                                    assert(false);
                                }
                                Token::empty()
                            },
                        };
                        let ghost q_pre = quads@;
                        quads.push(
                            Quad {
                                op: t,
                                param_one: p1,
                                param_two: Token::empty(),
                                temp: Token::empty(),
                            },
                        );
                        proof {
                            lemma_quad_views_push(q_pre, quads@.last());
                            let qv = QuadView {
                                op: pview[i as int],
                                param_one: s_stack.last(),
                                param_two: empty_view(),
                                temp: empty_view(),
                            };
                            assert(quads@.last()@ == qv);
                            assert(views_of(param_stack@) =~= s_stack.drop_last());
                            let rest2 = spec_consume(
                                pview,
                                i as int + 1,
                                s_stack.drop_last(),
                                temp_id as int,
                            );
                            assert(s_here == (match rest2 {
                                Option::None => Option::<Seq<QuadView>>::None,
                                Option::Some(rest) => Option::Some(seq![qv] + rest),
                            }));
                            if rest2 is Some {
                                assert(quad_views_of(q_pre) + (seq![qv] + rest2->Some_0)
                                    =~= quad_views_of(quads@) + rest2->Some_0);
                            }
                        }
                    } else {
                        proof {
                            assert(s_here == spec_consume(
                                pview,
                                i as int + 1,
                                views_of(param_stack@),
                                temp_id as int,
                            ));
                        }
                    }
                },
                _ => {
                    let ghost stack_pre = param_stack@;
                    param_stack.push(t);
                    proof {
                        lemma_views_push(stack_pre, param_stack@.last());
                        assert(views_of(param_stack@) =~= s_stack.push(pview[i as int]));
                        assert(s_here == spec_consume(
                            pview,
                            i as int + 1,
                            s_stack.push(pview[i as int]),
                            temp_id as int,
                        ));
                    }
                },
            }
            i += 1;
        }
        proof {
            assert(spec_consume(pview, n as int, views_of(param_stack@), temp_id as int)
                == Option::Some(Seq::<QuadView>::empty()));
            assert(quad_views_of(quads@) + Seq::<QuadView>::empty() =~= quad_views_of(quads@));
        }
        self.quads = quads;
        Ok(())
    }
}


/// A token whose spelling has no entry in the precedence relation
/// stops the parse at once: the level fails naming that token, and
/// neither the Polish output nor the position moves past it.
pub proof fn lemma_undefined_precedence_stops_the_parse(
    toks: Seq<TokenView>,
    f: Seq<i32>,
    g: Seq<i32>,
    pos: int,
    prev: TokenView,
    t: TokenView,
)
    requires
        sym_idx(t.name) == 0,
    ensures
        spec_level(toks, f, g, pos, prev, Some(t)) == (LevelOut {
            pos: pos,
            polish: Seq::empty(),
            stack: Seq::empty(),
            out: ParseOutcome::Stuck(t),
        }),
{
}


/// The token class a class word of a token file denotes.  The two
/// finer operator spellings fold into the one operator class.
pub open spec fn spec_class_word(w: Seq<char>) -> Option<TokenClass> {
    if w == "Identifier"@ {
        Some(TokenClass::Identifier)
    } else if w == "ReservedWord"@ {
        Some(TokenClass::ReservedWord)
    } else if w == "Literal"@ {
        Some(TokenClass::Literal)
    } else if w == "Delimiter"@ {
        Some(TokenClass::Delimiter)
    } else if w == "Op"@ || w == "RelationOp"@ || w == "Mop"@ {
        Some(TokenClass::Op)
    } else {
        None
    }
}

/// The token a line of a token file denotes: a non-empty spelling, one
/// space, and a class word.
pub open spec fn spec_token_line(line: Seq<char>) -> Option<TokenView> {
    let k = find_space(line, 0);
    if k == 0 || k >= line.len() {
        None
    } else {
        match spec_class_word(line.subrange(k + 1, line.len() as int)) {
            Option::None => Option::None,
            Option::Some(class) => Option::Some(
                TokenView { name: line.subrange(0, k), class },
            ),
        }
    }
}

fn class_word(w: &str) -> (r: Option<TokenClass>)
    ensures
        r == spec_class_word(w@),
{
    if str_eq(w, "Identifier") {
        Some(TokenClass::Identifier)
    } else if str_eq(w, "ReservedWord") {
        Some(TokenClass::ReservedWord)
    } else if str_eq(w, "Literal") {
        Some(TokenClass::Literal)
    } else if str_eq(w, "Delimiter") {
        Some(TokenClass::Delimiter)
    } else if str_eq(w, "Op") || str_eq(w, "RelationOp") || str_eq(w, "Mop") {
        Some(TokenClass::Op)
    } else {
        None
    }
}

impl Syntax {
    /// Reads one line of a token file, `"<spelling> <class>"`, and
    /// pushes the token it denotes.  Returns whether the line was
    /// well-formed; a malformed line pushes nothing.
    pub fn parse_token(stack: &mut Vec<Token>, line: &str) -> (ok: bool)
        ensures
            (match spec_token_line(line@) {
                Option::Some(tv) => ok && views_of(final(stack)@) == views_of(
                    old(stack)@,
                ).push(tv),
                Option::None => !ok && *final(stack) == *old(stack),
            }),
    {
        let n = line.unicode_len();
        let mut k: usize = 0;
        while k < n && line.get_char(k) != ' '
            invariant
                k <= n,
                n == line@.len(),
                forall|k2: int| 0 <= k2 < k ==> line@[k2] != ' ',
            decreases n - k,
        {
            k += 1;
        }
        proof {
            crate::loader::lemma_find_space_pins(line@, k as int);
        }
        if k == 0 || k >= n {
            return false;
        }
        let word = line.substring_char(k + 1, n);
        let class = match class_word(word) {
            Some(c) => c,
            None => {
                return false;
            },
        };
        let name = line.substring_char(0, k).to_owned();
        let ghost stack_pre = stack@;
        let token = Token { name, class };
        let ghost tv = token@;
        stack.push(token);
        proof {
            lemma_views_push(stack_pre, stack@.last());
            assert(tv == spec_token_line(line@)->Some_0);
        }
        true
    }
}

} // verus!
