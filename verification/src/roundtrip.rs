//! The canonical rendering and the parser undo each other: a tree of the
//! shape the parser builds renders to text that parses back to that tree.
//! And the rendering names its tree: a reading of the rendered text's tokens,
//! the parser's grammar plus the rule for a negative literal's group, gives
//! back any tree at all, so no two trees share a spelling.

use vstd::prelude::*;
use vstd::utf8::encode_utf8;

use crate::ast::{BinaryOperator, Expr, UnaryOperator};
use crate::formatter::{
    guard, literal_text, render, spec_binary_symbol, spec_binding_power, spec_infix_powers, UNARY,
};
use crate::lexer::{
    digit_run_end, lex, lex_from, spec_single_char_kind, TokenView,
};
use crate::numeral::{decimal, digits_value, int_text, is_digit, lemma_decimal};
use crate::errors::{ExpressionError, ParseError};
use crate::evaluator::{spec_evaluate, spec_evaluate_text};
use crate::parser::{
    binds_at_least, lemma_operand_progress, p_expr, p_operand, p_tail, spec_infix, spec_parse,
};
use crate::tokens::TokenKind;

verus! {

/// A tree of the shape the parser builds: every literal is nonnegative, a
/// minus in the source being a prefix operator of its own.
pub open spec fn parsable(e: Expr) -> bool
    decreases e,
{
    match e {
        Expr::Number(v) => v >= 0,
        Expr::UnaryOp { op: _, operand } => parsable(*operand),
        Expr::BinaryOp { op: _, left, right } => parsable(*left) && parsable(*right),
    }
}

/// A token's kind and text, its position left aside.
pub type Lexeme = (TokenKind, Seq<char>);

/// The kinds and texts of a run of tokens.
pub open spec fn strip(t: Seq<TokenView>) -> Seq<Lexeme> {
    t.map_values(|v: TokenView| (v.0, v.1))
}

/// The token an infix operator spells as.
pub open spec fn symbol_kind(op: BinaryOperator) -> TokenKind {
    match op {
        BinaryOperator::Add => TokenKind::Plus,
        BinaryOperator::Sub => TokenKind::Minus,
        BinaryOperator::Mul => TokenKind::Star,
        BinaryOperator::Div => TokenKind::Slash,
    }
}

/// A child's tokens, in parentheses when the rendering puts it in them.
pub open spec fn gtoks(child: Expr, toks: Seq<Lexeme>, floor: u8) -> Seq<Lexeme> {
    if spec_binding_power(child) < floor {
        seq![(TokenKind::LParen, seq!['('])] + toks + seq![(TokenKind::RParen, seq![')'])]
    } else {
        toks
    }
}

/// The tokens the rendering of a tree scans as.
pub open spec fn rtoks(e: Expr) -> Seq<Lexeme>
    decreases e,
{
    match e {
        Expr::Number(v) => if v < 0 {
            seq![
                (TokenKind::LParen, seq!['(']),
                (TokenKind::Minus, seq!['-']),
                (TokenKind::Number, decimal((-v) as nat)),
                (TokenKind::RParen, seq![')']),
            ]
        } else {
            seq![(TokenKind::Number, int_text(v as int))]
        },
        Expr::UnaryOp { op: _, operand } => seq![(TokenKind::Minus, seq!['-'])] + gtoks(
            *operand,
            rtoks(*operand),
            UNARY,
        ),
        Expr::BinaryOp { op, left, right } => gtoks(*left, rtoks(*left), spec_infix_powers(op).0)
            + seq![(symbol_kind(op), seq![spec_binary_symbol(op)])] + gtoks(
            *right,
            rtoks(*right),
            spec_infix_powers(op).1,
        ),
    }
}

/// The kinds and texts the scan of `s` from `i` yields, if it succeeds.
pub open spec fn lexed(s: Seq<char>, i: int) -> Option<Seq<Lexeme>> {
    match lex_from(s, i) {
        Ok(t) => Some(strip(t)),
        Err(_) => None,
    }
}

/// Put lexemes in front of a scan's result.
pub open spec fn front(a: Seq<Lexeme>, r: Option<Seq<Lexeme>>) -> Option<Seq<Lexeme>> {
    match r {
        Some(x) => Some(a + x),
        None => None,
    }
}

/// `s` holds `text` from `i` on, and what follows it can't extend a digit
/// run at its end.
pub open spec fn holds_at(s: Seq<char>, i: int, text: Seq<char>) -> bool {
    &&& 0 <= i
    &&& i + text.len() <= s.len()
    &&& s.subrange(i, i + text.len()) == text
    &&& (i + text.len() == s.len() || !is_digit(s[i + text.len()]))
}

proof fn lemma_strip_front(head: TokenView, tail: Seq<TokenView>)
    ensures
        strip(seq![head] + tail) == seq![(head.0, head.1)] + strip(tail),
{
    assert(strip(seq![head] + tail) =~= seq![(head.0, head.1)] + strip(tail));
}

proof fn lemma_front_assoc(a: Seq<Lexeme>, b: Seq<Lexeme>, r: Option<Seq<Lexeme>>)
    ensures
        front(a, front(b, r)) == front(a + b, r),
{
    if let Some(x) = r {
        assert(a + (b + x) =~= (a + b) + x);
    }
}

/// One operator or parenthesis character scans as one token.
proof fn lemma_lex_char(s: Seq<char>, i: int)
    requires
        0 <= i < s.len(),
        spec_single_char_kind(s[i]) is Some,
    ensures
        lexed(s, i) == front(seq![(spec_single_char_kind(s[i])->0, seq![s[i]])], lexed(s, i + 1)),
{
    assert(!is_digit(s[i]));
    if let Ok(tail) = lex_from(s, i + 1) {
        let head = (spec_single_char_kind(s[i])->0, seq![s[i]], crate::lexer::byte_offset(s, i) as usize);
        lemma_strip_front(head, tail);
    }
}

/// A space scans as nothing.
proof fn lemma_lex_space(s: Seq<char>, i: int)
    requires
        0 <= i < s.len(),
        s[i] == ' ',
    ensures
        lexed(s, i) == lexed(s, i + 1),
{
    assert(!is_digit(s[i]));
    assert(spec_single_char_kind(s[i]) is None);
}

/// Within a run of digits that something other than a digit ends, the run
/// ends where it was going to.
proof fn lemma_run_end(s: Seq<char>, k: int, stop: int)
    requires
        0 <= k <= stop <= s.len(),
        forall|m: int| k <= m < stop ==> #[trigger] is_digit(s[m]),
        stop == s.len() || !is_digit(s[stop]),
    ensures
        digit_run_end(s, k) == stop,
    decreases stop - k,
{
    if k < stop {
        lemma_run_end(s, k + 1, stop);
    }
}

/// A nonnegative literal's digits scan as one number token.
proof fn lemma_lex_number(s: Seq<char>, i: int, v: nat)
    requires
        holds_at(s, i, decimal(v)),
    ensures
        lexed(s, i) == front(seq![(TokenKind::Number, decimal(v))], lexed(s, i + decimal(v).len())),
{
    let d = decimal(v);
    lemma_decimal(v);
    let stop = i + d.len();
    assert forall|m: int| i <= m < stop implies #[trigger] is_digit(s[m]) by {
        assert(s[m] == s.subrange(i, stop)[m - i]);
    }
    assert(is_digit(s[i]));
    lemma_run_end(s, i + 1, stop);
    if let Ok(tail) = lex_from(s, stop) {
        let head = (TokenKind::Number, s.subrange(i, stop), crate::lexer::byte_offset(s, i) as usize);
        lemma_strip_front(head, tail);
    }
}

/// Splitting a text held at `i` into two halves.
proof fn lemma_holds_split(s: Seq<char>, i: int, a: Seq<char>, b: Seq<char>)
    requires
        0 <= i,
        i + a.len() + b.len() <= s.len(),
        s.subrange(i, i + (a + b).len()) == a + b,
    ensures
        s.subrange(i, i + a.len()) == a,
        s.subrange(i + a.len(), i + a.len() + b.len()) == b,
{
    assert forall|k: int| 0 <= k < a.len() implies s.subrange(i, i + a.len())[k] == a[k] by {
        assert(s[i + k] == (a + b)[k]);
    }
    assert forall|k: int| 0 <= k < b.len() implies s.subrange(
        i + a.len(),
        i + a.len() + b.len(),
    )[k] == b[k] by {
        assert(s[i + a.len() + k] == s.subrange(i, i + (a + b).len())[a.len() + k]);
        assert((a + b)[a.len() + k] == b[k]);
    }
    assert(s.subrange(i, i + a.len()) =~= a);
    assert(s.subrange(i + a.len(), i + a.len() + b.len()) =~= b);
}

/// A negative literal scans as its parentheses, its sign and its digits.
proof fn lemma_lex_negative_literal(v: int, s: Seq<char>, i: int)
    requires
        v < 0,
        holds_at(s, i, literal_text(v)),
    ensures
        lexed(s, i) == front(
            seq![
                (TokenKind::LParen, seq!['(']),
                (TokenKind::Minus, seq!['-']),
                (TokenKind::Number, decimal((-v) as nat)),
                (TokenKind::RParen, seq![')']),
            ],
            lexed(s, i + literal_text(v).len()),
        ),
{
    let d = decimal((-v) as nat);
    let text = literal_text(v);
    assert(text =~= seq!['(', '-'] + d + seq![')']);
    let k = i + 2 + d.len();
    lemma_holds_split(s, i, seq!['(', '-'] + d, seq![')']);
    lemma_holds_split(s, i, seq!['(', '-'], d);
    assert(s[i] == '(') by {
        assert(s[i] == s.subrange(i, i + 2)[0]);
    }
    assert(s[i + 1] == '-') by {
        assert(s[i + 1] == s.subrange(i, i + 2)[1]);
    }
    assert(s[k] == ')') by {
        assert(s[k] == s.subrange(k, k + 1)[0]);
    }
    lemma_lex_char(s, i);
    lemma_lex_char(s, i + 1);
    lemma_lex_number(s, i + 2, (-v) as nat);
    lemma_lex_char(s, k);
    let lp = seq![(TokenKind::LParen, seq!['('])];
    let mi = seq![(TokenKind::Minus, seq!['-'])];
    let nu = seq![(TokenKind::Number, d)];
    let rp = seq![(TokenKind::RParen, seq![')'])];
    lemma_front_assoc(nu, rp, lexed(s, k + 1));
    lemma_front_assoc(mi, nu + rp, lexed(s, k + 1));
    lemma_front_assoc(lp, mi + (nu + rp), lexed(s, k + 1));
    assert(lp + (mi + (nu + rp)) =~= seq![
        (TokenKind::LParen, seq!['(']),
        (TokenKind::Minus, seq!['-']),
        (TokenKind::Number, d),
        (TokenKind::RParen, seq![')']),
    ]);
}

/// The rendering of a tree scans as its tokens.
proof fn lemma_lex_render(e: Expr, s: Seq<char>, i: int)
    requires
        holds_at(s, i, render(e)),
    ensures
        lexed(s, i) == front(rtoks(e), lexed(s, i + render(e).len())),
    decreases e, 1int,
{
    match e {
        Expr::Number(v) => {
            if v < 0 {
                lemma_lex_negative_literal(v as int, s, i);
            } else {
                assert(int_text(v as int) == decimal(v as nat));
                lemma_lex_number(s, i, v as nat);
            }
        },
        Expr::UnaryOp { op: _, operand } => {
            lemma_lex_neg(e, *operand, s, i);
        },
        Expr::BinaryOp { op, left, right } => {
            lemma_lex_binary(e, op, *left, *right, s, i);
        },
    }
}

/// A prefix minus and its guarded operand scan as their tokens.
proof fn lemma_lex_neg(e: Expr, x: Expr, s: Seq<char>, i: int)
    requires
        e == (Expr::UnaryOp { op: UnaryOperator::Neg, operand: Box::new(x) }),
        holds_at(s, i, seq!['-'] + guard(x, render(x), UNARY)),
    ensures
        lexed(s, i) == front(
            seq![(TokenKind::Minus, seq!['-'])] + gtoks(x, rtoks(x), UNARY),
            lexed(s, i + 1 + guard(x, render(x), UNARY).len()),
        ),
    decreases e, 0int,
{
    let g = guard(x, render(x), UNARY);
    let n = 1 + g.len();
    lemma_holds_split(s, i, seq!['-'], g);
    assert(s[i] == '-') by {
        assert(s[i] == s.subrange(i, i + 1)[0]);
    }
    lemma_lex_char(s, i);
    assert(decreases_to!(e => e->operand));
    lemma_lex_guarded(x, UNARY, s, i + 1);
    lemma_front_assoc(seq![(TokenKind::Minus, seq!['-'])], gtoks(x, rtoks(x), UNARY), lexed(s, i + n));
}

/// An infix node scans as its left operand's tokens, the operator's, and
/// its right operand's.
proof fn lemma_lex_binary(e: Expr, op: BinaryOperator, l: Expr, r: Expr, s: Seq<char>, i: int)
    requires
        e == (Expr::BinaryOp { op, left: Box::new(l), right: Box::new(r) }),
        holds_at(
            s,
            i,
            guard(l, render(l), spec_infix_powers(op).0) + seq![' ', spec_binary_symbol(op), ' ']
                + guard(r, render(r), spec_infix_powers(op).1),
        ),
    ensures
        lexed(s, i) == front(
            gtoks(l, rtoks(l), spec_infix_powers(op).0) + seq![
                (symbol_kind(op), seq![spec_binary_symbol(op)]),
            ] + gtoks(r, rtoks(r), spec_infix_powers(op).1),
            lexed(
                s,
                i + guard(l, render(l), spec_infix_powers(op).0).len() + 3 + guard(
                    r,
                    render(r),
                    spec_infix_powers(op).1,
                ).len(),
            ),
        ),
    decreases e, 0int,
{
    let (own, rf) = spec_infix_powers(op);
    let gl = guard(l, render(l), own);
    let gr = guard(r, render(r), rf);
    let mid = seq![' ', spec_binary_symbol(op), ' '];
    let n = gl.len() + 3 + gr.len();
    lemma_holds_split(s, i, gl + mid, gr);
    lemma_holds_split(s, i, gl, mid);
    let j = i + gl.len();
    assert(s[j] == ' ' && s[j + 1] == spec_binary_symbol(op) && s[j + 2] == ' ') by {
        assert(s[j] == s.subrange(j, j + 3)[0]);
        assert(s[j + 1] == s.subrange(j, j + 3)[1]);
        assert(s[j + 2] == s.subrange(j, j + 3)[2]);
    }
    assert(decreases_to!(e => e->left));
    assert(decreases_to!(e => e->right));
    lemma_lex_guarded(l, own, s, i);
    lemma_lex_space(s, j);
    lemma_lex_char(s, j + 1);
    lemma_lex_space(s, j + 2);
    lemma_lex_guarded(r, rf, s, j + 3);
    let sym = seq![(symbol_kind(op), seq![spec_binary_symbol(op)])];
    assert(spec_single_char_kind(s[j + 1])->0 == symbol_kind(op));
    lemma_front_assoc(sym, gtoks(r, rtoks(r), rf), lexed(s, i + n));
    lemma_front_assoc(gtoks(l, rtoks(l), own), sym + gtoks(r, rtoks(r), rf), lexed(s, i + n));
    assert(gtoks(l, rtoks(l), own) + (sym + gtoks(r, rtoks(r), rf)) =~= gtoks(l, rtoks(l), own)
        + sym + gtoks(r, rtoks(r), rf));
}

/// A child rendered in its place, parentheses included where the
/// rendering puts them, scans as its tokens in theirs.
proof fn lemma_lex_guarded(c: Expr, floor: u8, s: Seq<char>, i: int)
    requires
        holds_at(s, i, guard(c, render(c), floor)),
    ensures
        lexed(s, i) == front(gtoks(c, rtoks(c), floor), lexed(s, i + guard(c, render(c), floor).len())),
    decreases c, 2int,
{
    let rc = render(c);
    if spec_binding_power(c) < floor {
        let g = seq!['('] + rc + seq![')'];
        lemma_holds_split(s, i, seq!['('] + rc, seq![')']);
        lemma_holds_split(s, i, seq!['('], rc);
        assert(s[i] == '(') by {
            assert(s[i] == s.subrange(i, i + 1)[0]);
        }
        let k = i + 1 + rc.len();
        assert(s[k] == ')') by {
            assert(s[k] == s.subrange(k, k + 1)[0]);
        }
        lemma_lex_char(s, i);
        lemma_lex_render(c, s, i + 1);
        lemma_lex_char(s, k);
        let lp = seq![(TokenKind::LParen, seq!['('])];
        let rp = seq![(TokenKind::RParen, seq![')'])];
        lemma_front_assoc(rtoks(c), rp, lexed(s, k + 1));
        lemma_front_assoc(lp, rtoks(c) + rp, lexed(s, k + 1));
        assert(lp + (rtoks(c) + rp) =~= lp + rtoks(c) + rp);
    } else {
        lemma_lex_render(c, s, i);
    }
}

/// The kinds and texts of `t` from `pos` on begin with `toks`.
pub open spec fn matched(t: Seq<TokenView>, pos: int, toks: Seq<Lexeme>) -> bool {
    &&& 0 <= pos
    &&& pos + toks.len() <= t.len()
    &&& strip(t).subrange(pos, pos + toks.len()) == toks
}

/// No infix operator binding at least as tightly as `b` stands at `k`.
pub open spec fn stops(t: Seq<TokenView>, k: int, b: int) -> bool {
    !(0 <= k < t.len() && binds_at_least(t[k].0, b as u8))
}

/// A match of a concatenation is a match of each half in its place.
proof fn lemma_matched_split(t: Seq<TokenView>, pos: int, a: Seq<Lexeme>, b: Seq<Lexeme>)
    requires
        matched(t, pos, a + b),
    ensures
        matched(t, pos, a),
        matched(t, pos + a.len(), b),
{
    let st = strip(t);
    assert forall|k: int| 0 <= k < a.len() implies st.subrange(pos, pos + a.len())[k] == a[k] by {
        assert(st[pos + k] == st.subrange(pos, pos + (a + b).len())[k]);
    }
    assert forall|k: int| 0 <= k < b.len() implies st.subrange(
        pos + a.len(),
        pos + a.len() + b.len(),
    )[k] == b[k] by {
        assert(st[pos + a.len() + k] == st.subrange(pos, pos + (a + b).len())[a.len() + k]);
        assert((a + b)[a.len() + k] == b[k]);
    }
    assert(st.subrange(pos, pos + a.len()) =~= a);
    assert(st.subrange(pos + a.len(), pos + a.len() + b.len()) =~= b);
}

/// The token a match puts at `pos` has the matched kind and text.
proof fn lemma_matched_at(t: Seq<TokenView>, pos: int, toks: Seq<Lexeme>, k: int)
    requires
        matched(t, pos, toks),
        0 <= k < toks.len(),
    ensures
        t[pos + k].0 == toks[k].0,
        t[pos + k].1 == toks[k].1,
{
    assert(strip(t)[pos + k] == strip(t).subrange(pos, pos + toks.len())[k]);
}

/// A tail meeting no operator it may take hands back what it holds.
proof fn lemma_tail_stops(t: Seq<TokenView>, e: Expr, k: int, minp: u8, end: usize)
    requires
        0 <= k <= t.len(),
        stops(t, k, minp as int),
    ensures
        p_tail(t, e, k, minp, end) == Ok::<(Expr, int), ParseError>((e, k)),
{
}

/// Stopping for a level means stopping for every tighter one.
proof fn lemma_stops_tighter(t: Seq<TokenView>, k: int, b: int, c: int)
    requires
        stops(t, k, b),
        1 <= b <= c <= 5,
    ensures
        stops(t, k, c),
{
}

/// A chain whose first operand is a tree of the parser's shape, followed by
/// nothing binding tighter than the tree's own top, reads the tree whole and
/// goes on from after it.
proof fn lemma_parse_chain(e: Expr, minp: u8, t: Seq<TokenView>, pos: int, end: usize)
    requires
        parsable(e),
        1 <= minp <= 3,
        spec_binding_power(e) >= minp,
        matched(t, pos, rtoks(e)),
        stops(t, pos + rtoks(e).len(), spec_binding_power(e) + 1),
    ensures
        p_expr(t, pos, minp, end) == p_tail(t, e, pos + rtoks(e).len(), minp, end),
    decreases e, 1int,
{
    match e {
        Expr::Number(v) => {
            lemma_matched_at(t, pos, rtoks(e), 0);
            assert(int_text(v as int) == decimal(v as nat));
            lemma_decimal(v as nat);
        },
        Expr::UnaryOp { op: _, operand } => {
            lemma_parse_chain_neg(e, *operand, minp, t, pos, end);
        },
        Expr::BinaryOp { op, left, right } => {
            lemma_parse_chain_binary(e, op, *left, *right, minp, t, pos, end);
        },
    }
}

/// [`lemma_parse_chain`] for a prefix minus.
proof fn lemma_parse_chain_neg(e: Expr, x: Expr, minp: u8, t: Seq<TokenView>, pos: int, end: usize)
    requires
        e == (Expr::UnaryOp { op: UnaryOperator::Neg, operand: Box::new(x) }),
        parsable(e),
        1 <= minp <= 3,
        matched(t, pos, rtoks(e)),
    ensures
        p_expr(t, pos, minp, end) == p_tail(t, e, pos + rtoks(e).len(), minp, end),
    decreases e, 0int,
{
    let g = gtoks(x, rtoks(x), UNARY);
    lemma_matched_split(t, pos, seq![(TokenKind::Minus, seq!['-'])], g);
    lemma_matched_at(t, pos, rtoks(e), 0);
    assert(decreases_to!(e => e->operand));
    lemma_parse_operand_tight(x, t, pos + 1, end);
}

/// [`lemma_parse_chain`] for an infix node.
proof fn lemma_parse_chain_binary(
    e: Expr,
    op: BinaryOperator,
    l: Expr,
    r: Expr,
    minp: u8,
    t: Seq<TokenView>,
    pos: int,
    end: usize,
)
    requires
        e == (Expr::BinaryOp { op, left: Box::new(l), right: Box::new(r) }),
        parsable(e),
        1 <= minp <= 3,
        spec_binding_power(e) >= minp,
        matched(t, pos, rtoks(e)),
        stops(t, pos + rtoks(e).len(), spec_binding_power(e) + 1),
    ensures
        p_expr(t, pos, minp, end) == p_tail(t, e, pos + rtoks(e).len(), minp, end),
    decreases e, 0int,
{
    let (own, rf) = spec_infix_powers(op);
    let gl = gtoks(l, rtoks(l), own);
    let sym = seq![(symbol_kind(op), seq![spec_binary_symbol(op)])];
    let gr = gtoks(r, rtoks(r), rf);
    assert(rtoks(e) == gl + sym + gr);
    lemma_matched_split(t, pos, gl + sym, gr);
    lemma_matched_split(t, pos, gl, sym);
    let pos_op = pos + gl.len();
    let pos_r = pos_op + 1 + gr.len();
    lemma_matched_at(t, pos_op, sym, 0);
    assert(spec_infix(t[pos_op].0) == Some((op, own)));
    assert(decreases_to!(e => e->left));
    assert(decreases_to!(e => e->right));
    // The left operand, read whole.
    if spec_binding_power(l) >= own {
        lemma_parse_chain(l, minp, t, pos, end);
    } else {
        lemma_parse_parenthesized(l, t, pos, end);
        lemma_operand_progress(t, pos, end);
    }
    assert(p_expr(t, pos, minp, end) == p_tail(t, l, pos_op, minp, end));
    // The right operand, read whole at one level tighter.
    let rp = (own + 1) as u8;
    if spec_binding_power(r) >= rf {
        lemma_stops_tighter(t, pos_r, own + 1, spec_binding_power(r) + 1);
        lemma_parse_chain(r, rp, t, pos_op + 1, end);
    } else {
        lemma_parse_parenthesized(r, t, pos_op + 1, end);
    }
    lemma_tail_stops(t, r, pos_r, rp, end);
    assert(p_expr(t, pos_op + 1, rp, end) == Ok::<(Expr, int), ParseError>((r, pos_r)));
}

/// An operand in parentheses reads as the tree inside them.
proof fn lemma_parse_parenthesized(c: Expr, t: Seq<TokenView>, pos: int, end: usize)
    requires
        parsable(c),
        matched(
            t,
            pos,
            seq![(TokenKind::LParen, seq!['('])] + rtoks(c) + seq![(TokenKind::RParen, seq![')'])],
        ),
    ensures
        p_operand(t, pos, end) == Ok::<(Expr, int), ParseError>((c, pos + rtoks(c).len() + 2)),
    decreases c, 2int,
{
    let lp = seq![(TokenKind::LParen, seq!['('])];
    let rp = seq![(TokenKind::RParen, seq![')'])];
    lemma_matched_split(t, pos, lp + rtoks(c), rp);
    lemma_matched_split(t, pos, lp, rtoks(c));
    lemma_matched_at(t, pos, lp, 0);
    let k = pos + 1 + rtoks(c).len();
    lemma_matched_at(t, k, rp, 0);
    assert(spec_binding_power(c) >= 1);
    lemma_parse_chain(c, 1, t, pos + 1, end);
    lemma_tail_stops(t, c, k, 1, end);
}

/// An operand a prefix minus holds on to reads as its tree.
proof fn lemma_parse_operand_tight(x: Expr, t: Seq<TokenView>, pos: int, end: usize)
    requires
        parsable(x),
        matched(t, pos, gtoks(x, rtoks(x), UNARY)),
    ensures
        p_operand(t, pos, end) == Ok::<(Expr, int), ParseError>(
            (x, pos + gtoks(x, rtoks(x), UNARY).len()),
        ),
    decreases x, 3int,
{
    match x {
        Expr::Number(v) => {
            lemma_matched_at(t, pos, rtoks(x), 0);
            assert(int_text(v as int) == decimal(v as nat));
            lemma_decimal(v as nat);
        },
        Expr::UnaryOp { op: _, operand } => {
            let y = *operand;
            let g = gtoks(y, rtoks(y), UNARY);
            lemma_matched_split(t, pos, seq![(TokenKind::Minus, seq!['-'])], g);
            lemma_matched_at(t, pos, rtoks(x), 0);
            assert(decreases_to!(x => x->operand));
            lemma_parse_operand_tight(y, t, pos + 1, end);
        },
        Expr::BinaryOp { .. } => {
            lemma_parse_parenthesized(x, t, pos, end);
        },
    }
}

/// Law: a tree of the shape the parser builds renders to text that parses
/// back to that very tree. [`crate::formatter::format_expr`] returns
/// `render(e)` and [`crate::parser::parse`] returns `spec_parse` of its text,
/// so parsing the formatted tree gives the tree back.
pub proof fn law_rendering_parses_back(e: Expr)
    requires
        parsable(e),
    ensures
        spec_parse(render(e)) == Ok::<Expr, ExpressionError>(e),
{
    let s = render(e);
    lemma_lex_whole(e);
    let t = lex(s)->Ok_0;
    assert(strip(t) == rtoks(e));
    assert(t.len() == rtoks(e).len()) by {
        assert(strip(t).len() == t.len());
    }
    assert(strip(t).subrange(0, t.len() as int) =~= strip(t));
    let end = encode_utf8(s).len() as usize;
    lemma_parse_chain(e, 1, t, 0, end);
    lemma_tail_stops(t, e, t.len() as int, 1, end);
}

/// Law: the text a tree of the parser's shape renders to evaluates to
/// whatever the tree does; the scan and the grammar have nothing to object
/// to, so any failure comes from the walk.
pub proof fn law_rendered_text_evaluates_as_its_tree(e: Expr)
    requires
        parsable(e),
    ensures
        spec_evaluate_text(render(e)) == match spec_evaluate(e) {
            Ok(v) => Ok::<(int, int), ExpressionError>(v),
            Err(err) => Err(ExpressionError::Eval(err)),
        },
{
    law_rendering_parses_back(e);
}

/// The scan of a tree's rendering, from the start of the text to its end,
/// is the tree's tokens.
proof fn lemma_lex_whole(e: Expr)
    ensures
        lexed(render(e), 0) == Some(rtoks(e)),
{
    let s = render(e);
    let n = s.len() as int;
    assert(s.subrange(0, n) =~= s);
    lemma_lex_render(e, s, 0);
    assert(lexed(s, n) == Some(Seq::<Lexeme>::empty())) by {
        assert(strip(Seq::<TokenView>::empty()) =~= Seq::<Lexeme>::empty());
    }
    assert(rtoks(e) + Seq::<Lexeme>::empty() =~= rtoks(e));
}

/// Tokens `(`, `-`, a number and `)` stand at `pos`: the spelling of a
/// negative literal.
pub open spec fn literal_group(t: Seq<Lexeme>, pos: int) -> bool {
    &&& 0 <= pos
    &&& pos + 4 <= t.len()
    &&& t[pos].0 == TokenKind::LParen
    &&& t[pos + 1].0 == TokenKind::Minus
    &&& t[pos + 2].0 == TokenKind::Number
    &&& t[pos + 3].0 == TokenKind::RParen
}

/// An operand of the reading from `pos`: a literal (a negative one being
/// spelled in a group of its own), a prefix `-` over another operand, or a
/// parenthesized chain. This is the parser's grammar with the one rule that
/// tells a negative literal from a prefix minus over a parenthesized
/// operand; the reading stands only in the proof that a rendering names
/// one tree.
pub open spec fn read_operand(t: Seq<Lexeme>, pos: int) -> Option<(Expr, int)>
    decreases t.len() - pos, 0int,
{
    if pos < 0 || pos >= t.len() {
        None
    } else if literal_group(t, pos) {
        let m = digits_value(t[pos + 2].1);
        if 0 < m <= 0x8000_0000_0000_0000 {
            Some((Expr::Number((-m) as i64), pos + 4))
        } else {
            None
        }
    } else {
        match t[pos].0 {
            TokenKind::Number => if digits_value(t[pos].1) <= i64::MAX {
                Some((Expr::Number(digits_value(t[pos].1) as i64), pos + 1))
            } else {
                None
            },
            TokenKind::Minus => match read_operand(t, pos + 1) {
                Some((x, p)) => Some(
                    (Expr::UnaryOp { op: UnaryOperator::Neg, operand: Box::new(x) }, p),
                ),
                None => None,
            },
            TokenKind::LParen => match read_chain(t, pos + 1, 1) {
                Some((inner, p)) => if 0 <= p < t.len() && t[p].0 == TokenKind::RParen {
                    Some((inner, p + 1))
                } else {
                    None
                },
                None => None,
            },
            _ => None,
        }
    }
}

/// A chain of infix operators binding at least as tightly as `minp`, read
/// from `pos`.
pub open spec fn read_chain(t: Seq<Lexeme>, pos: int, minp: u8) -> Option<(Expr, int)>
    decreases t.len() - pos, 2int,
{
    match read_operand(t, pos) {
        None => None,
        Some((left, p)) => if pos < p <= t.len() {
            read_tail(t, left, p, minp)
        } else {
            None
        },
    }
}

/// The rest of a chain whose operands so far make `left`.
pub open spec fn read_tail(t: Seq<Lexeme>, left: Expr, pos: int, minp: u8) -> Option<(Expr, int)>
    decreases t.len() - pos, 1int,
{
    if 0 <= pos < t.len() && binds_at_least(t[pos].0, minp) {
        let (op, prec) = spec_infix(t[pos].0)->0;
        match read_chain(t, pos + 1, (prec + 1) as u8) {
            None => None,
            Some((right, p)) => if pos < p <= t.len() {
                read_tail(
                    t,
                    Expr::BinaryOp { op, left: Box::new(left), right: Box::new(right) },
                    p,
                    minp,
                )
            } else {
                None
            },
        }
    } else {
        Some((left, pos))
    }
}

/// `t` holds `toks` from `pos` on.
pub open spec fn tokens_at(t: Seq<Lexeme>, pos: int, toks: Seq<Lexeme>) -> bool {
    &&& 0 <= pos
    &&& pos + toks.len() <= t.len()
    &&& t.subrange(pos, pos + toks.len()) == toks
}

/// No infix operator binding at least as tightly as `b` stands at `k`.
pub open spec fn ends_at(t: Seq<Lexeme>, k: int, b: int) -> bool {
    !(0 <= k < t.len() && binds_at_least(t[k].0, b as u8))
}

proof fn lemma_tokens_split(t: Seq<Lexeme>, pos: int, a: Seq<Lexeme>, b: Seq<Lexeme>)
    requires
        tokens_at(t, pos, a + b),
    ensures
        tokens_at(t, pos, a),
        tokens_at(t, pos + a.len(), b),
{
    assert forall|k: int| 0 <= k < a.len() implies t.subrange(pos, pos + a.len())[k] == a[k] by {
        assert(t[pos + k] == t.subrange(pos, pos + (a + b).len())[k]);
    }
    assert forall|k: int| 0 <= k < b.len() implies t.subrange(
        pos + a.len(),
        pos + a.len() + b.len(),
    )[k] == b[k] by {
        assert(t[pos + a.len() + k] == t.subrange(pos, pos + (a + b).len())[a.len() + k]);
        assert((a + b)[a.len() + k] == b[k]);
    }
    assert(t.subrange(pos, pos + a.len()) =~= a);
    assert(t.subrange(pos + a.len(), pos + a.len() + b.len()) =~= b);
}

proof fn lemma_token_at(t: Seq<Lexeme>, pos: int, toks: Seq<Lexeme>, k: int)
    requires
        tokens_at(t, pos, toks),
        0 <= k < toks.len(),
    ensures
        t[pos + k] == toks[k],
{
    assert(t[pos + k] == t.subrange(pos, pos + toks.len())[k]);
}

/// Tokens that begin `-`, a number, `)`: the inside of a literal group.
pub open spec fn group_inside(toks: Seq<Lexeme>) -> bool {
    &&& toks.len() >= 3
    &&& toks[0].0 == TokenKind::Minus
    &&& toks[1].0 == TokenKind::Number
    &&& toks[2].0 == TokenKind::RParen
}

/// No tree's tokens begin like the inside of a literal group, and an infix
/// node has at least three of them.
proof fn lemma_no_group_inside(x: Expr)
    ensures
        !group_inside(rtoks(x)),
        rtoks(x).len() >= 1,
        x is BinaryOp ==> rtoks(x).len() >= 3,
    decreases x,
{
    match x {
        Expr::Number(v) => {},
        Expr::UnaryOp { op: _, operand } => {
            let y = *operand;
            lemma_no_group_inside(y);
            let g = gtoks(y, rtoks(y), UNARY);
            assert(rtoks(x) == seq![(TokenKind::Minus, seq!['-'])] + g);
            assert(rtoks(x)[1] == g[0]);
            match y {
                Expr::Number(v) => {
                    if v >= 0 {
                        assert(rtoks(x).len() == 2);
                    }
                },
                _ => {},
            }
        },
        Expr::BinaryOp { op, left, right } => {
            let l = *left;
            let r = *right;
            lemma_no_group_inside(l);
            lemma_no_group_inside(r);
            let (own, rf) = spec_infix_powers(op);
            let gl = gtoks(l, rtoks(l), own);
            let sym = seq![(symbol_kind(op), seq![spec_binary_symbol(op)])];
            let gr = gtoks(r, rtoks(r), rf);
            assert(rtoks(x) == gl + sym + gr);
            if gl.len() >= 3 {
                assert(rtoks(x)[0] == gl[0]);
                assert(rtoks(x)[1] == gl[1]);
                assert(rtoks(x)[2] == gl[2]);
            } else if gl.len() == 2 {
                assert(rtoks(x)[2] == sym[0]);
            } else {
                assert(rtoks(x)[1] == sym[0]);
            }
        },
    }
}

/// A tail meeting no operator it may take hands back what it holds.
proof fn lemma_read_tail_ends(t: Seq<Lexeme>, e: Expr, k: int, minp: u8)
    requires
        0 <= k <= t.len(),
        ends_at(t, k, minp as int),
    ensures
        read_tail(t, e, k, minp) == Some((e, k)),
{
}

/// A literal, of either sign, reads as itself.
proof fn lemma_read_literal(v: i64, t: Seq<Lexeme>, pos: int)
    requires
        tokens_at(t, pos, rtoks(Expr::Number(v))),
    ensures
        read_operand(t, pos) == Some((Expr::Number(v), pos + rtoks(Expr::Number(v)).len())),
{
    let toks = rtoks(Expr::Number(v));
    lemma_token_at(t, pos, toks, 0);
    if v < 0 {
        lemma_token_at(t, pos, toks, 1);
        lemma_token_at(t, pos, toks, 2);
        lemma_token_at(t, pos, toks, 3);
        lemma_decimal((-v) as nat);
        assert(digits_value(t[pos + 2].1) == -v);
    } else {
        assert(int_text(v as int) == decimal(v as nat));
        lemma_decimal(v as nat);
    }
}

/// A chain whose first operand is a tree, followed by nothing binding
/// tighter than the tree's own top, reads the tree whole and goes on from
/// after it.
proof fn lemma_read_chain(e: Expr, minp: u8, t: Seq<Lexeme>, pos: int)
    requires
        1 <= minp <= 3,
        spec_binding_power(e) >= minp,
        tokens_at(t, pos, rtoks(e)),
        ends_at(t, pos + rtoks(e).len(), spec_binding_power(e) + 1),
    ensures
        read_chain(t, pos, minp) == read_tail(t, e, pos + rtoks(e).len(), minp),
    decreases e, 1int,
{
    lemma_no_group_inside(e);
    match e {
        Expr::Number(v) => {
            lemma_read_literal(v, t, pos);
        },
        Expr::UnaryOp { op: _, operand } => {
            let x = *operand;
            let g = gtoks(x, rtoks(x), UNARY);
            lemma_tokens_split(t, pos, seq![(TokenKind::Minus, seq!['-'])], g);
            lemma_token_at(t, pos, rtoks(e), 0);
            assert(decreases_to!(e => e->operand));
            lemma_read_tight(x, t, pos + 1);
        },
        Expr::BinaryOp { op, left, right } => {
            lemma_read_chain_binary(e, op, *left, *right, minp, t, pos);
        },
    }
}

/// [`lemma_read_chain`] for an infix node.
proof fn lemma_read_chain_binary(
    e: Expr,
    op: BinaryOperator,
    l: Expr,
    r: Expr,
    minp: u8,
    t: Seq<Lexeme>,
    pos: int,
)
    requires
        e == (Expr::BinaryOp { op, left: Box::new(l), right: Box::new(r) }),
        1 <= minp <= 3,
        spec_binding_power(e) >= minp,
        tokens_at(t, pos, rtoks(e)),
        ends_at(t, pos + rtoks(e).len(), spec_binding_power(e) + 1),
    ensures
        read_chain(t, pos, minp) == read_tail(t, e, pos + rtoks(e).len(), minp),
    decreases e, 0int,
{
    let (own, rf) = spec_infix_powers(op);
    let gl = gtoks(l, rtoks(l), own);
    let sym = seq![(symbol_kind(op), seq![spec_binary_symbol(op)])];
    let gr = gtoks(r, rtoks(r), rf);
    assert(rtoks(e) == gl + sym + gr);
    lemma_tokens_split(t, pos, gl + sym, gr);
    lemma_tokens_split(t, pos, gl, sym);
    let pos_op = pos + gl.len();
    let pos_r = pos_op + 1 + gr.len();
    lemma_token_at(t, pos_op, sym, 0);
    assert(spec_infix(t[pos_op].0) == Some((op, own)));
    assert(decreases_to!(e => e->left));
    assert(decreases_to!(e => e->right));
    if spec_binding_power(l) >= own {
        lemma_read_chain(l, minp, t, pos);
    } else {
        lemma_read_parenthesized(l, t, pos);
    }
    assert(read_chain(t, pos, minp) == read_tail(t, l, pos_op, minp));
    let rp = (own + 1) as u8;
    if spec_binding_power(r) >= rf {
        lemma_read_chain(r, rp, t, pos_op + 1);
    } else {
        lemma_read_parenthesized(r, t, pos_op + 1);
    }
    lemma_read_tail_ends(t, r, pos_r, rp);
    assert(read_chain(t, pos_op + 1, rp) == Some((r, pos_r)));
}

/// An operand in parentheses reads as the tree inside them.
proof fn lemma_read_parenthesized(c: Expr, t: Seq<Lexeme>, pos: int)
    requires
        spec_binding_power(c) < UNARY,
        tokens_at(
            t,
            pos,
            seq![(TokenKind::LParen, seq!['('])] + rtoks(c) + seq![(TokenKind::RParen, seq![')'])],
        ),
    ensures
        read_operand(t, pos) == Some((c, pos + rtoks(c).len() + 2)),
    decreases c, 2int,
{
    let lp = seq![(TokenKind::LParen, seq!['('])];
    let rp = seq![(TokenKind::RParen, seq![')'])];
    lemma_tokens_split(t, pos, lp + rtoks(c), rp);
    lemma_tokens_split(t, pos, lp, rtoks(c));
    lemma_token_at(t, pos, lp, 0);
    let k = pos + 1 + rtoks(c).len();
    lemma_token_at(t, k, rp, 0);
    lemma_no_group_inside(c);
    assert(!literal_group(t, pos)) by {
        lemma_token_at(t, pos + 1, rtoks(c), 0);
        lemma_token_at(t, pos + 1, rtoks(c), 1);
        lemma_token_at(t, pos + 1, rtoks(c), 2);
    }
    assert(spec_binding_power(c) >= 1);
    lemma_read_chain(c, 1, t, pos + 1);
    lemma_read_tail_ends(t, c, k, 1);
}

/// An operand a prefix minus holds on to reads as its tree.
proof fn lemma_read_tight(x: Expr, t: Seq<Lexeme>, pos: int)
    requires
        tokens_at(t, pos, gtoks(x, rtoks(x), UNARY)),
    ensures
        read_operand(t, pos) == Some((x, pos + gtoks(x, rtoks(x), UNARY).len())),
    decreases x, 3int,
{
    match x {
        Expr::Number(v) => {
            lemma_read_literal(v, t, pos);
        },
        Expr::UnaryOp { op: _, operand } => {
            let y = *operand;
            let g = gtoks(y, rtoks(y), UNARY);
            lemma_tokens_split(t, pos, seq![(TokenKind::Minus, seq!['-'])], g);
            lemma_token_at(t, pos, rtoks(x), 0);
            assert(decreases_to!(x => x->operand));
            lemma_read_tight(y, t, pos + 1);
        },
        Expr::BinaryOp { .. } => {
            lemma_read_parenthesized(x, t, pos);
        },
    }
}

/// A tree's tokens read back as the tree.
proof fn lemma_tokens_read_back(e: Expr)
    ensures
        read_chain(rtoks(e), 0, 1) == Some((e, rtoks(e).len() as int)),
{
    let t = rtoks(e);
    assert(t.subrange(0, t.len() as int) =~= t);
    assert(spec_binding_power(e) >= 1);
    lemma_read_chain(e, 1, t, 0);
    lemma_read_tail_ends(t, e, t.len() as int, 1);
}

/// Law: two trees render alike exactly when they are the same tree: one
/// tree, one spelling.
pub proof fn law_rendering_is_one_to_one(a: Expr, b: Expr)
    ensures
        render(a) == render(b) <==> a == b,
{
    if render(a) == render(b) {
        lemma_lex_whole(a);
        lemma_lex_whole(b);
        lemma_tokens_read_back(a);
        lemma_tokens_read_back(b);
    }
}

/// Law: two trees that render alike evaluate alike, so a table of values
/// filed under renderings answers each lookup with the value of the tree
/// looked up.
pub proof fn law_one_rendering_one_value(a: Expr, b: Expr)
    requires
        render(a) == render(b),
    ensures
        spec_evaluate(a) == spec_evaluate(b),
{
    law_rendering_is_one_to_one(a, b);
}

} // verus!
