//! Helpers for property suites: the arrangement of drawn token runs into
//! text the lexer reads back.

use vstd::prelude::*;
use vstd::utf8::encode_utf8;

use vstd::utf8::{is_ascii_chars, is_ascii_chars_encode_utf8};

use crate::errors::LexError;
use crate::lexer::{
    byte_offset, digit_run_end, lex, lex_from, spec_single_char_kind, TokenView,
};
use crate::numeral::{all_digits, is_digit, push_char};
use crate::tokens::{token_views, Token, TokenKind};

verus! {

/// The texts of a run of tokens.
pub open spec fn lexemes(run: Seq<Token>) -> Seq<Seq<char>> {
    run.map_values(|t: Token| t.lexeme@)
}

/// Texts joined by single spaces.
pub open spec fn joined(texts: Seq<Seq<char>>) -> Seq<char>
    decreases texts.len(),
{
    if texts.len() == 0 {
        Seq::empty()
    } else if texts.len() == 1 {
        texts[0]
    } else {
        joined(texts.drop_last()) + seq![' '] + texts.last()
    }
}

/// The byte offset the `k`-th of a run of texts lands at once each is
/// followed by one separator byte.
pub open spec fn placed_offset(texts: Seq<Seq<char>>, k: int) -> nat
    decreases k,
{
    if k <= 0 {
        0
    } else {
        placed_offset(texts, k - 1) + encode_utf8(texts[k - 1]).len() + 1
    }
}

/// Pair a kind with its text at the front of whatever spells it out.
pub fn at_start(kind: TokenKind, lexeme: String) -> (res: Token)
    ensures
        res.kind == kind,
        res.lexeme@ == lexeme@,
        res.offset == 0,
{
    Token { kind, lexeme, offset: 0 }
}

/// Move each token of a run to the offset its own spelling puts it at.
pub fn placed(drawn: Vec<Token>) -> (run: Vec<Token>)
    requires
        placed_offset(lexemes(drawn@), drawn@.len() as int) <= usize::MAX,
    ensures
        run@.len() == drawn@.len(),
        forall|k: int|
            0 <= k < run@.len() ==> (#[trigger] run@[k]).kind == drawn@[k].kind && run@[k].lexeme@
                == drawn@[k].lexeme@ && run@[k].offset == placed_offset(lexemes(drawn@), k),
{
    let ghost texts = lexemes(drawn@);
    let n = drawn.len();
    let mut offset: usize = 0;
    let mut run: Vec<Token> = Vec::with_capacity(n);
    let mut i: usize = 0;
    while i < n
        invariant
            n == drawn@.len(),
            texts == lexemes(drawn@),
            placed_offset(texts, n as int) <= usize::MAX,
            i <= n,
            run@.len() == i,
            offset == placed_offset(texts, i as int),
            forall|k: int|
                0 <= k < i ==> (#[trigger] run@[k]).kind == drawn@[k].kind && run@[k].lexeme@
                    == drawn@[k].lexeme@ && run@[k].offset == placed_offset(texts, k),
        decreases n - i,
    {
        let token = &drawn[i];
        let text = token.lexeme.as_str();
        let width = text.as_bytes().len();
        proof {
            lemma_placed_offset_monotone(texts, i as int + 1, n as int);
            assert(texts[i as int] == token.lexeme@);
        }
        run.push(Token { kind: token.kind, lexeme: token.lexeme.clone(), offset });
        // One for the separator [`spelling`] writes between neighbors.
        offset = offset + width + 1;
        i = i + 1;
    }
    run
}

/// Later tokens land at or after earlier ones.
proof fn lemma_placed_offset_monotone(texts: Seq<Seq<char>>, j: int, k: int)
    requires
        0 <= j <= k,
    ensures
        placed_offset(texts, j) <= placed_offset(texts, k),
    decreases k - j,
{
    if j < k {
        lemma_placed_offset_monotone(texts, j, k - 1);
    }
}

/// Spell a run of tokens out as the text it stands for: a single space
/// joins each pair, which is the spacing [`placed`] counts on.
pub fn spelling(run: &[Token]) -> (res: String)
    ensures
        res@ == joined(lexemes(run@)),
{
    let ghost texts = lexemes(run@);
    let mut out = String::new();
    let mut i: usize = 0;
    while i < run.len()
        invariant
            texts == lexemes(run@),
            i <= run@.len(),
            out@ == joined(texts.take(i as int)),
        decreases run@.len() - i,
    {
        proof {
            assert(texts.take(i as int + 1).drop_last() =~= texts.take(i as int));
            assert(texts.take(i as int + 1).last() == run@[i as int].lexeme@);
        }
        if i > 0 {
            push_char(&mut out, ' ');
        }
        out.append(run[i].lexeme.as_str());
        proof {
            if i == 0 {
                assert(Seq::<char>::empty() + run@[0].lexeme@ =~= run@[0].lexeme@);
            }
        }
        i = i + 1;
    }
    proof {
        assert(texts.take(run@.len() as int) =~= texts);
    }
    out
}

/// A token the lexer could itself have produced: a nonempty digit run
/// marked as a number, or one operator or parenthesis character marked as
/// its own kind.
pub open spec fn producible(tok: TokenView) -> bool {
    ||| tok.0 == TokenKind::Number && tok.1.len() > 0 && all_digits(tok.1)
    ||| tok.1.len() == 1 && spec_single_char_kind(tok.1[0]) == Some(tok.0)
}

/// The texts of a run of token views.
pub open spec fn view_texts(run: Seq<TokenView>) -> Seq<Seq<char>> {
    run.map_values(|t: TokenView| t.1)
}

/// Character index the `k`-th of a run of joined texts starts at.
pub open spec fn start_of(texts: Seq<Seq<char>>, k: int) -> nat
    decreases k,
{
    if k <= 0 {
        0
    } else {
        start_of(texts, k - 1) + texts[k - 1].len() + 1
    }
}

/// Texts made of ASCII characters only.
pub open spec fn all_ascii(texts: Seq<Seq<char>>) -> bool {
    forall|m: int| 0 <= m < texts.len() ==> #[trigger] is_ascii_chars(texts[m])
}

/// Where each text of a join sits, and what follows it.
proof fn lemma_joined_layout(texts: Seq<Seq<char>>, k: int)
    requires
        0 <= k < texts.len(),
    ensures
        start_of(texts, k) + texts[k].len() <= joined(texts).len(),
        joined(texts).subrange(start_of(texts, k) as int, (start_of(texts, k) + texts[k].len()) as int)
            == texts[k],
        k < texts.len() - 1 ==> joined(texts)[(start_of(texts, k) + texts[k].len()) as int] == ' ',
        k == texts.len() - 1 ==> start_of(texts, k) + texts[k].len() == joined(texts).len(),
    decreases texts.len(),
{
    let n = texts.len();
    if n == 1 {
        assert(joined(texts) == texts[0]);
        assert(texts[0].subrange(0, texts[0].len() as int) =~= texts[0]);
    } else {
        let front = texts.drop_last();
        let s = joined(texts);
        let p = joined(front);
        assert(s == p + seq![' '] + texts.last());
        if k < n - 1 {
            lemma_joined_layout(front, k);
            assert(start_of(front, k) == start_of(texts, k)) by {
                lemma_start_prefix(texts, front, k);
            }
            assert(front[k] == texts[k]);
            let a = start_of(texts, k) as int;
            let b = a + texts[k].len();
            assert(s.subrange(a, b) =~= p.subrange(a, b));
            if k < n - 2 {
                assert(s[b] == p[b]);
            } else {
                assert(s[b] == ' ');
            }
        } else {
            lemma_joined_layout(front, n - 2);
            lemma_start_prefix(texts, front, n - 2);
            assert(front[n - 2] == texts[n - 2]);
            let a = start_of(texts, k) as int;
            assert(a == p.len() + 1);
            assert(s.subrange(a, a + texts[k].len()) =~= texts[k]);
        }
    }
}

/// The starts of a prefix of the texts are the starts of the texts.
proof fn lemma_start_prefix(texts: Seq<Seq<char>>, front: Seq<Seq<char>>, k: int)
    requires
        front == texts.drop_last(),
        0 <= k < texts.len(),
    ensures
        start_of(front, k) == start_of(texts, k),
    decreases k,
{
    if k > 0 {
        lemma_start_prefix(texts, front, k - 1);
    }
}

/// Joining ASCII texts with spaces gives ASCII text.
proof fn lemma_joined_ascii(texts: Seq<Seq<char>>)
    requires
        all_ascii(texts),
    ensures
        is_ascii_chars(joined(texts)),
    decreases texts.len(),
{
    if texts.len() > 1 {
        let front = texts.drop_last();
        assert(all_ascii(front)) by {
            assert forall|m: int| 0 <= m < front.len() implies #[trigger] is_ascii_chars(front[m]) by {
                assert(front[m] == texts[m]);
            }
        }
        lemma_joined_ascii(front);
        let s = joined(texts);
        assert(s == joined(front) + seq![' '] + texts.last());
        assert(is_ascii_chars(texts[texts.len() - 1]));
        assert forall|i: int| 0 <= i < s.len() implies '\0' <= #[trigger] s[i] <= '\u{7f}' by {
            if i < joined(front).len() {
                assert(s[i] == joined(front)[i]);
            } else if i > joined(front).len() {
                assert(s[i] == texts.last()[i - joined(front).len() - 1]);
            }
        }
    } else if texts.len() == 1 {
        assert(is_ascii_chars(texts[0]));
    }
}

/// In ASCII text, byte offsets are character indices.
proof fn lemma_ascii_byte_offset(s: Seq<char>, i: int)
    requires
        is_ascii_chars(s),
        0 <= i <= s.len(),
    ensures
        byte_offset(s, i) == i,
{
    assert(is_ascii_chars(s.take(i))) by {
        assert forall|m: int| 0 <= m < s.take(i).len() implies '\0' <= #[trigger] s.take(i)[m] <= '\u{7f}' by {
            assert(s.take(i)[m] == s[m]);
        }
    }
    is_ascii_chars_encode_utf8(s.take(i));
}

/// For ASCII texts, the byte offsets [`placed`] computes are the character
/// starts.
proof fn lemma_placed_is_start(texts: Seq<Seq<char>>, k: int)
    requires
        all_ascii(texts),
        0 <= k <= texts.len(),
    ensures
        placed_offset(texts, k) == start_of(texts, k),
    decreases k,
{
    if k > 0 {
        lemma_placed_is_start(texts, k - 1);
        assert(is_ascii_chars(texts[k - 1]));
        is_ascii_chars_encode_utf8(texts[k - 1]);
    }
}

/// A producible token is made of ASCII characters.
proof fn lemma_producible_ascii(tok: TokenView)
    requires
        producible(tok),
    ensures
        is_ascii_chars(tok.1),
{
    assert forall|i: int| 0 <= i < tok.1.len() implies '\0' <= #[trigger] tok.1[i] <= '\u{7f}' by {
        if tok.0 == TokenKind::Number && all_digits(tok.1) {
            assert(is_digit(tok.1[i]));
        }
    }
}

/// From the start of its `k`-th token on, the spelling of a placed run scans
/// as the rest of the run.
proof fn lemma_scan_spelled(run: Seq<TokenView>, k: int)
    requires
        forall|m: int| 0 <= m < run.len() ==> #[trigger] producible(run[m]),
        forall|m: int| 0 <= m < run.len() ==> (#[trigger] run[m]).2 == start_of(view_texts(run), m),
        is_ascii_chars(joined(view_texts(run))),
        0 <= k < run.len(),
        joined(view_texts(run)).len() <= usize::MAX,
    ensures
        lex_from(joined(view_texts(run)), start_of(view_texts(run), k) as int) == Ok::<
            Seq<TokenView>,
            LexError,
        >(run.subrange(k, run.len() as int)),
    decreases run.len() - k,
{
    let texts = view_texts(run);
    let s = joined(texts);
    let a = start_of(texts, k) as int;
    let tok = run[k];
    let b = a + tok.1.len();
    assert(texts[k] == tok.1);
    lemma_joined_layout(texts, k);
    lemma_ascii_byte_offset(s, a);
    assert(producible(tok));
    assert(s[a] == tok.1[0]) by {
        assert(s[a] == s.subrange(a, b)[0]);
    }
    let next = if k + 1 < run.len() {
        lex_from(s, b + 1)
    } else {
        Ok(Seq::<TokenView>::empty())
    };
    if k + 1 < run.len() {
        lemma_scan_spelled(run, k + 1);
        assert(start_of(texts, k + 1) == b + 1);
        assert(lex_from(s, b) == lex_from(s, b + 1)) by {
            assert(s[b] == ' ');
        }
    }
    assert(lex_from(s, b) == next);
    assert(byte_offset(s, a) as usize == tok.2);
    if tok.0 == TokenKind::Number && tok.1.len() > 0 && all_digits(tok.1) {
        assert forall|m: int| a <= m < b implies #[trigger] is_digit(s[m]) by {
            assert(s[m] == s.subrange(a, b)[m - a]);
        }
        assert(b == s.len() || !is_digit(s[b]));
        lemma_digit_run_to(s, a + 1, b);
        assert(s.subrange(a, b) == tok.1);
        assert(lex_from(s, a) == Ok::<Seq<TokenView>, LexError>(seq![tok] + next->Ok_0));
    } else {
        assert(!is_digit(s[a]));
        assert(s.subrange(a, b) =~= seq![s[a]]);
        assert(seq![s[a]] =~= tok.1);
        assert(lex_from(s, a) == Ok::<Seq<TokenView>, LexError>(seq![tok] + next->Ok_0));
    }
    assert(seq![tok] + run.subrange(k + 1, run.len() as int) =~= run.subrange(k, run.len() as int));
}

/// A run of digits ending where a non-digit or the end stands ends there.
proof fn lemma_digit_run_to(s: Seq<char>, k: int, stop: int)
    requires
        0 <= k <= stop <= s.len(),
        forall|m: int| k <= m < stop ==> #[trigger] is_digit(s[m]),
        stop == s.len() || !is_digit(s[stop]),
    ensures
        digit_run_end(s, k) == stop,
    decreases stop - k,
{
    if k < stop {
        lemma_digit_run_to(s, k + 1, stop);
    }
}

/// Law: a run of tokens the lexer could have produced, placed at the
/// offsets [`placed`] gives them, scans back to itself out of its
/// [`spelling`]. (The spelling fitting the machine's address range is what
/// lets an offset be a `usize`.)
pub proof fn law_spelled_run_scans_back(run: Seq<TokenView>)
    requires
        forall|m: int| 0 <= m < run.len() ==> #[trigger] producible(run[m]),
        forall|m: int|
            0 <= m < run.len() ==> (#[trigger] run[m]).2 == placed_offset(view_texts(run), m),
        joined(view_texts(run)).len() <= usize::MAX,
    ensures
        lex(joined(view_texts(run))) == Ok::<Seq<TokenView>, LexError>(run),
{
    let texts = view_texts(run);
    assert(all_ascii(texts)) by {
        assert forall|m: int| 0 <= m < texts.len() implies #[trigger] is_ascii_chars(texts[m]) by {
            assert(texts[m] == run[m].1);
            lemma_producible_ascii(run[m]);
        }
    }
    lemma_joined_ascii(texts);
    assert forall|m: int| 0 <= m < run.len() implies (#[trigger] run[m]).2 == start_of(texts, m) by {
        lemma_placed_is_start(texts, m);
    }
    if run.len() == 0 {
        assert(joined(texts) =~= Seq::<char>::empty());
        assert(run =~= Seq::<TokenView>::empty());
    } else {
        lemma_scan_spelled(run, 0);
        assert(run.subrange(0, run.len() as int) =~= run);
    }
}

/// Law: what [`placed`] makes of a drawn run of tokens the lexer could have
/// produced (the run its contract describes) scans back to itself out of its
/// [`spelling`]: `tokenize(&spelling(&placed(drawn)))` is `Ok` of that run.
/// The bound is the one [`placed`] itself asks for.
pub proof fn law_placed_run_scans_back(drawn: Seq<Token>, run: Seq<Token>)
    requires
        forall|m: int| 0 <= m < drawn.len() ==> #[trigger] producible(drawn[m]@),
        placed_offset(lexemes(drawn), drawn.len() as int) <= usize::MAX,
        run.len() == drawn.len(),
        forall|k: int|
            0 <= k < run.len() ==> (#[trigger] run[k]).kind == drawn[k].kind && run[k].lexeme@
                == drawn[k].lexeme@ && run[k].offset == placed_offset(lexemes(drawn), k),
    ensures
        lex(joined(lexemes(run))) == Ok::<Seq<TokenView>, LexError>(token_views(run)),
{
    let views = token_views(run);
    let texts = lexemes(drawn);
    assert(view_texts(views) =~= texts);
    assert(lexemes(run) =~= texts);
    assert forall|m: int| 0 <= m < views.len() implies #[trigger] producible(views[m]) by {
        assert(views[m] == run[m]@);
        assert(producible(drawn[m]@));
    }
    assert forall|m: int| 0 <= m < views.len() implies (#[trigger] views[m]).2 == placed_offset(
        view_texts(views),
        m,
    ) by {
        assert(views[m] == run[m]@);
    }
    assert(all_ascii(texts)) by {
        assert forall|m: int| 0 <= m < texts.len() implies #[trigger] is_ascii_chars(texts[m]) by {
            assert(texts[m] == views[m].1);
            lemma_producible_ascii(views[m]);
        }
    }
    let n = texts.len() as int;
    lemma_placed_is_start(texts, n);
    if n > 0 {
        lemma_joined_layout(texts, n - 1);
    } else {
        assert(joined(texts).len() == 0);
    }
    law_spelled_run_scans_back(views);
}

} // verus!
