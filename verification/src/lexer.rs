//! Lexer turning expression text into a token stream.

use vstd::prelude::*;
use vstd::utf8::{encode_scalar, encode_utf8, char_is_scalar};

use crate::errors::LexError;
use crate::numeral::{all_digits, is_digit, push_char};
use crate::tokens::{Token, TokenKind, token_views};

verus! {

/// A token as the lexer's specification speaks of it: kind, text, byte
/// offset.
pub type TokenView = (TokenKind, Seq<char>, usize);

/// Whether a character has the Unicode `White_Space` property: the
/// horizontal tab through the carriage return, the space, the next-line
/// control, the no-break space, the Ogham space mark, the en quad through
/// the hair space, the line and paragraph separators, the narrow no-break
/// space, the medium mathematical space and the ideographic space.
pub open spec fn char_is_whitespace(c: char) -> bool {
    let x = c as u32;
    ||| 0x9 <= x <= 0xD
    ||| x == 0x20
    ||| x == 0x85
    ||| x == 0xA0
    ||| x == 0x1680
    ||| 0x2000 <= x <= 0x200A
    ||| x == 0x2028
    ||| x == 0x2029
    ||| x == 0x202F
    ||| x == 0x205F
    ||| x == 0x3000
}

/// Whether `c` has the Unicode `White_Space` property.
pub fn is_whitespace(c: char) -> (res: bool)
    ensures
        res == char_is_whitespace(c),
{
    let x = c as u32;
    (0x9 <= x && x <= 0xD) || x == 0x20 || x == 0x85 || x == 0xA0 || x == 0x1680 || (0x2000 <= x
        && x <= 0x200A) || x == 0x2028 || x == 0x2029 || x == 0x202F || x == 0x205F || x == 0x3000
}

/// Byte offset of the `i`-th character of `s` in its UTF-8 encoding.
pub open spec fn byte_offset(s: Seq<char>, i: int) -> nat {
    encode_utf8(s.take(i)).len()
}

/// The kind one of the six operator and parenthesis characters maps to.
pub open spec fn spec_single_char_kind(c: char) -> Option<TokenKind> {
    if c == '+' {
        Some(TokenKind::Plus)
    } else if c == '-' {
        Some(TokenKind::Minus)
    } else if c == '*' {
        Some(TokenKind::Star)
    } else if c == '/' {
        Some(TokenKind::Slash)
    } else if c == '(' {
        Some(TokenKind::LParen)
    } else if c == ')' {
        Some(TokenKind::RParen)
    } else {
        None
    }
}

/// Index one past the maximal run of digits starting at `i`.
pub open spec fn digit_run_end(s: Seq<char>, i: int) -> int
    decreases s.len() - i,
{
    if 0 <= i < s.len() && is_digit(s[i]) {
        digit_run_end(s, i + 1)
    } else {
        i
    }
}

/// Put a run of tokens in front of whatever a later scan yields.
pub open spec fn prepend(prefix: Seq<TokenView>, rest: Result<Seq<TokenView>, LexError>) -> Result<
    Seq<TokenView>,
    LexError,
> {
    match rest {
        Ok(tail) => Ok(prefix + tail),
        Err(e) => Err(e),
    }
}

/// The scan of `s` from character `i` on.
///
/// Whitespace separates tokens and means nothing on its own. A maximal run
/// of decimal digits becomes one number token, and each of the six operator
/// and parenthesis characters becomes a token of its own kind. Anything else
/// fails the scan at its byte offset.
pub open spec fn lex_from(s: Seq<char>, i: int) -> Result<Seq<TokenView>, LexError>
    decreases s.len() - i,
{
    if i < 0 || i >= s.len() {
        Ok(Seq::empty())
    } else if is_digit(s[i]) {
        let j = digit_run_end(s, i + 1);
        proof {
            lemma_digit_run_end(s, i + 1);
        }
        prepend(
            seq![(TokenKind::Number, s.subrange(i, j), byte_offset(s, i) as usize)],
            lex_from(s, j),
        )
    } else if spec_single_char_kind(s[i]) is Some {
        prepend(
            seq![(spec_single_char_kind(s[i])->0, seq![s[i]], byte_offset(s, i) as usize)],
            lex_from(s, i + 1),
        )
    } else if char_is_whitespace(s[i]) {
        lex_from(s, i + 1)
    } else {
        Err(LexError { offset: byte_offset(s, i) as usize, character: s[i] })
    }
}

/// The scan of a whole text.
pub open spec fn lex(s: Seq<char>) -> Result<Seq<TokenView>, LexError> {
    lex_from(s, 0)
}

/// `tok` stands at character `i` of `s`: its offset is that character's
/// byte offset and its text is what `s` holds from there.
pub open spec fn token_at(s: Seq<char>, tok: TokenView, i: int) -> bool {
    &&& 0 <= i
    &&& i + tok.1.len() <= s.len()
    &&& byte_offset(s, i) == tok.2
    &&& s.subrange(i, i + tok.1.len()) == tok.1
}

/// `tok` stands at some character of `s`.
pub open spec fn lands(s: Seq<char>, tok: TokenView) -> bool {
    exists|i: int| #[trigger] token_at(s, tok, i)
}

/// Every token of `t` stands somewhere in `s` as [`token_at`] says.
pub open spec fn all_land(s: Seq<char>, t: Seq<TokenView>) -> bool {
    forall|k: int| 0 <= k < t.len() ==> #[trigger] lands(s, t[k])
}

/// `e` names character `i` of `s` and that character's byte offset.
pub open spec fn error_at(s: Seq<char>, e: LexError, i: int) -> bool {
    &&& 0 <= i < s.len()
    &&& byte_offset(s, i) == e.offset
    &&& s[i] == e.character
}

/// A token standing in the text, put in front of a run whose tokens all
/// stand in it, leaves a run whose tokens all stand in it.
proof fn lemma_all_land_cons(s: Seq<char>, head: TokenView, j: int, rest: Seq<TokenView>)
    requires
        token_at(s, head, j),
        all_land(s, rest),
    ensures
        all_land(s, seq![head] + rest),
{
    let t = seq![head] + rest;
    assert forall|k: int| 0 <= k < t.len() implies #[trigger] lands(s, t[k]) by {
        if k > 0 {
            assert(t[k] == rest[k - 1]);
            assert(lands(s, rest[k - 1]));
        } else {
            assert(token_at(s, t[k], j));
        }
    }
}

/// The scan from `j` on reports only offsets of characters of the text.
proof fn lemma_offsets_land_from(s: Seq<char>, j: int)
    requires
        0 <= j,
        encode_utf8(s).len() <= usize::MAX,
    ensures
        lex_from(s, j) matches Ok(t) ==> all_land(s, t),
        lex_from(s, j) matches Err(e) ==> exists|i: int| #[trigger] error_at(s, e, i),
    decreases s.len() - j,
{
    if j < s.len() {
        lemma_byte_offset_bound(s, j);
        if is_digit(s[j]) {
            let m = digit_run_end(s, j + 1);
            lemma_digit_run_end(s, j + 1);
            lemma_offsets_land_from(s, m);
            if let Ok(rest) = lex_from(s, m) {
                let head = (TokenKind::Number, s.subrange(j, m), byte_offset(s, j) as usize);
                lemma_all_land_cons(s, head, j, rest);
            }
        } else if spec_single_char_kind(s[j]) is Some {
            lemma_offsets_land_from(s, j + 1);
            if let Ok(rest) = lex_from(s, j + 1) {
                let head = (spec_single_char_kind(s[j])->0, seq![s[j]], byte_offset(s, j) as usize);
                assert(s.subrange(j, j + 1) =~= seq![s[j]]);
                lemma_all_land_cons(s, head, j, rest);
            }
        } else if char_is_whitespace(s[j]) {
            lemma_offsets_land_from(s, j + 1);
        } else {
            assert(error_at(s, lex_from(s, j)->Err_0, j));
        }
    }
}

/// Law: every offset the scan reports lands on what it names. Each token of
/// a successful scan stands at a character whose byte offset is the
/// token's and from which the text holds the token's lexeme; a failure
/// names a character of the text and that character's byte offset. (The
/// text's encoding fitting the machine's address range is what lets a byte
/// offset be a `usize` at all.)
pub proof fn law_offsets_land_on_the_text(s: Seq<char>)
    requires
        encode_utf8(s).len() <= usize::MAX,
    ensures
        lex(s) matches Ok(t) ==> all_land(s, t),
        lex(s) matches Err(e) ==> exists|i: int| #[trigger] error_at(s, e, i),
{
    lemma_offsets_land_from(s, 0);
}

/// A whitespace character is neither a digit nor one of the six operator
/// and parenthesis characters.
proof fn lemma_whitespace_is_no_token(c: char)
    requires
        char_is_whitespace(c),
    ensures
        !is_digit(c),
        spec_single_char_kind(c) is None,
{
}

/// The scan from `j` on fails only at a character that begins no token and
/// is not whitespace.
proof fn lemma_errors_name_stray_from(s: Seq<char>, j: int)
    ensures
        lex_from(s, j) matches Err(e) ==> !char_is_whitespace(e.character) && !is_digit(
            e.character,
        ) && spec_single_char_kind(e.character) is None,
    decreases s.len() - j,
{
    if 0 <= j < s.len() {
        if is_digit(s[j]) {
            lemma_digit_run_end(s, j + 1);
            lemma_errors_name_stray_from(s, digit_run_end(s, j + 1));
        } else {
            lemma_errors_name_stray_from(s, j + 1);
        }
    }
}

/// Law: the scan fails only at a stray character: one that is not
/// whitespace, not a digit and not an operator or parenthesis. Whitespace,
/// wherever it stands, is never what a scan reports.
pub proof fn law_errors_name_a_stray_character(s: Seq<char>)
    ensures
        lex(s) matches Err(e) ==> !char_is_whitespace(e.character) && !is_digit(e.character)
            && spec_single_char_kind(e.character) is None,
{
    lemma_errors_name_stray_from(s, 0);
}

/// What a scan says once positions are set aside: the kinds and texts of its
/// tokens, or the character it stopped at.
pub open spec fn scan_shape(r: Result<Seq<TokenView>, LexError>) -> Result<
    Seq<(TokenKind, Seq<char>)>,
    char,
> {
    match r {
        Ok(t) => Ok(t.map_values(|v: TokenView| (v.0, v.1))),
        Err(e) => Err(e.character),
    }
}

/// Putting a token in front leaves the shape's own front.
proof fn lemma_shape_prepend(
    head1: TokenView,
    head2: TokenView,
    r1: Result<Seq<TokenView>, LexError>,
    r2: Result<Seq<TokenView>, LexError>,
)
    requires
        head1.0 == head2.0,
        head1.1 == head2.1,
        scan_shape(r1) == scan_shape(r2),
    ensures
        scan_shape(prepend(seq![head1], r1)) == scan_shape(prepend(seq![head2], r2)),
{
    if let (Ok(t1), Ok(t2)) = (r1, r2) {
        let m1 = (seq![head1] + t1).map_values(|v: TokenView| (v.0, v.1));
        let m2 = (seq![head2] + t2).map_values(|v: TokenView| (v.0, v.1));
        assert(t1.map_values(|v: TokenView| (v.0, v.1)) == t2.map_values(|v: TokenView| (v.0, v.1)));
        assert forall|i: int| 0 <= i < m1.len() implies m1[i] == m2[i] by {
            if i > 0 {
                assert(m1[i] == t1.map_values(|v: TokenView| (v.0, v.1))[i - 1]);
                assert(m2[i] == t2.map_values(|v: TokenView| (v.0, v.1))[i - 1]);
            }
        }
        assert(m1 =~= m2);
    }
}

/// Two texts alike but for whitespace at `k` end their digit runs alike.
proof fn lemma_runs_alike(s1: Seq<char>, s2: Seq<char>, k: int, m: int)
    requires
        s1.len() == s2.len(),
        0 <= k < s1.len(),
        char_is_whitespace(s1[k]),
        char_is_whitespace(s2[k]),
        forall|x: int| 0 <= x < s1.len() && x != k ==> s1[x] == s2[x],
    ensures
        digit_run_end(s1, m) == digit_run_end(s2, m),
    decreases s1.len() - m,
{
    if 0 <= m < s1.len() {
        if m == k {
            lemma_whitespace_is_no_token(s1[k]);
            lemma_whitespace_is_no_token(s2[k]);
        } else if is_digit(s1[m]) {
            lemma_runs_alike(s1, s2, k, m + 1);
        }
    }
}

/// Two texts alike but for whitespace at `k` scan alike from any point,
/// positions set aside.
proof fn lemma_scans_alike(s1: Seq<char>, s2: Seq<char>, k: int, i: int)
    requires
        s1.len() == s2.len(),
        0 <= k < s1.len(),
        char_is_whitespace(s1[k]),
        char_is_whitespace(s2[k]),
        forall|x: int| 0 <= x < s1.len() && x != k ==> s1[x] == s2[x],
    ensures
        scan_shape(lex_from(s1, i)) == scan_shape(lex_from(s2, i)),
    decreases s1.len() - i,
{
    if 0 <= i < s1.len() {
        if i == k {
            lemma_whitespace_is_no_token(s1[k]);
            lemma_whitespace_is_no_token(s2[k]);
            lemma_scans_alike(s1, s2, k, i + 1);
        } else {
            assert(s1[i] == s2[i]);
            if is_digit(s1[i]) {
                let j = digit_run_end(s1, i + 1);
                lemma_runs_alike(s1, s2, k, i + 1);
                lemma_digit_run_end(s1, i + 1);
                lemma_scans_alike(s1, s2, k, j);
                if i < k && k < j {
                    assert(is_digit(s1[k]));
                    lemma_whitespace_is_no_token(s1[k]);
                }
                assert(s1.subrange(i, j) =~= s2.subrange(i, j)) by {
                    assert forall|x: int| i <= x < j implies s1[x] == s2[x] by {
                        if x == k {
                            assert(is_digit(s1[k]));
                            lemma_whitespace_is_no_token(s1[k]);
                        }
                    }
                }
                lemma_shape_prepend(
                    (TokenKind::Number, s1.subrange(i, j), byte_offset(s1, i) as usize),
                    (TokenKind::Number, s2.subrange(i, j), byte_offset(s2, i) as usize),
                    lex_from(s1, j),
                    lex_from(s2, j),
                );
            } else if spec_single_char_kind(s1[i]) is Some {
                lemma_scans_alike(s1, s2, k, i + 1);
                lemma_shape_prepend(
                    (spec_single_char_kind(s1[i])->0, seq![s1[i]], byte_offset(s1, i) as usize),
                    (spec_single_char_kind(s2[i])->0, seq![s2[i]], byte_offset(s2, i) as usize),
                    lex_from(s1, i + 1),
                    lex_from(s2, i + 1),
                );
            } else if char_is_whitespace(s1[i]) {
                lemma_scans_alike(s1, s2, k, i + 1);
            }
        }
    }
}

/// Law: whitespace means the same wherever it stands and whichever
/// whitespace character it is. Putting any whitespace character where a
/// text has a space scans to the same kinds and texts of tokens, or fails at
/// the same character; only byte offsets can move.
pub proof fn law_any_whitespace_scans_as_a_space(a: Seq<char>, b: Seq<char>, c: char)
    requires
        char_is_whitespace(c),
    ensures
        scan_shape(lex(a + seq![c] + b)) == scan_shape(lex(a + seq![' '] + b)),
{
    let s1 = a + seq![c] + b;
    let s2 = a + seq![' '] + b;
    let k = a.len() as int;
    assert forall|x: int| 0 <= x < s1.len() && x != k implies s1[x] == s2[x] by {
        if x < k {
            assert(s1[x] == a[x] && s2[x] == a[x]);
        } else {
            assert(s1[x] == b[x - k - 1] && s2[x] == b[x - k - 1]);
        }
    }
    assert(s1[k] == c && s2[k] == ' ');
    lemma_scans_alike(s1, s2, k, 0);
}

/// A character no token begins with and that is not whitespace either.
pub open spec fn stray(c: char) -> bool {
    !char_is_whitespace(c) && !is_digit(c) && spec_single_char_kind(c) is None
}

/// A text with its whitespace taken out.
pub open spec fn visible(s: Seq<char>) -> Seq<char>
    decreases s.len(),
{
    if s.len() == 0 {
        Seq::empty()
    } else if char_is_whitespace(s[0]) {
        visible(s.drop_first())
    } else {
        seq![s[0]] + visible(s.drop_first())
    }
}

/// The texts of a run of tokens, run together.
pub open spec fn spelled(t: Seq<TokenView>) -> Seq<char>
    decreases t.len(),
{
    if t.len() == 0 {
        Seq::empty()
    } else {
        t[0].1 + spelled(t.drop_first())
    }
}

/// `tok` stands whole at character `i` of `s`, positions aside: its text is
/// what `s` holds from `i`, a number is a whole run of digits with no digit
/// on either side of it, and any other token is one operator or parenthesis
/// character marked as its own kind.
pub open spec fn stands_whole(s: Seq<char>, tok: TokenView, i: int) -> bool {
    &&& 0 <= i
    &&& i + tok.1.len() <= s.len()
    &&& s.subrange(i, i + tok.1.len()) == tok.1
    &&& if tok.0 == TokenKind::Number {
        &&& tok.1.len() > 0
        &&& all_digits(tok.1)
        &&& (i + tok.1.len() == s.len() || !is_digit(s[i + tok.1.len()]))
        &&& (i == 0 || !is_digit(s[i - 1]))
    } else {
        tok.1.len() == 1 && spec_single_char_kind(tok.1[0]) == Some(tok.0)
    }
}

/// `tok` stands whole at some character of `s`.
pub open spec fn stands_whole_somewhere(s: Seq<char>, tok: TokenView) -> bool {
    exists|i: int| #[trigger] stands_whole(s, tok, i)
}

/// Text that begins with characters other than whitespace keeps them in
/// front of what remains visible.
proof fn lemma_visible_front(x: Seq<char>, y: Seq<char>)
    requires
        forall|m: int| 0 <= m < x.len() ==> !char_is_whitespace(#[trigger] x[m]),
    ensures
        visible(x + y) == x + visible(y),
    decreases x.len(),
{
    if x.len() == 0 {
        assert(x + y =~= y);
        assert(x + visible(y) =~= visible(y));
    } else {
        let rest = x.drop_first();
        assert(forall|m: int| 0 <= m < rest.len() ==> rest[m] == x[m + 1]);
        lemma_visible_front(rest, y);
        assert((x + y)[0] == x[0]);
        assert((x + y).drop_first() =~= rest + y);
        assert(seq![x[0]] + (rest + visible(y)) =~= x + visible(y));
    }
}

/// The scan from `j` on, when it succeeds, spells out the visible rest of
/// the text in tokens that each stand whole in it.
proof fn lemma_scan_covers_from(s: Seq<char>, j: int)
    requires
        0 <= j <= s.len(),
        0 < j < s.len() ==> !(is_digit(s[j - 1]) && is_digit(s[j])),
    ensures
        lex_from(s, j) matches Ok(t) ==> spelled(t) == visible(s.subrange(j, s.len() as int))
            && forall|k: int| 0 <= k < t.len() ==> #[trigger] stands_whole_somewhere(s, t[k]),
    decreases s.len() - j,
{
    let rest_text = s.subrange(j, s.len() as int);
    if j == s.len() {
        assert(rest_text.len() == 0);
    } else {
        assert(rest_text[0] == s[j]);
        assert(rest_text.drop_first() =~= s.subrange(j + 1, s.len() as int));
        if is_digit(s[j]) {
            let m = digit_run_end(s, j + 1);
            lemma_digit_run_end(s, j + 1);
            lemma_scan_covers_from(s, m);
            if let Ok(rest) = lex_from(s, m) {
                let head = (TokenKind::Number, s.subrange(j, m), byte_offset(s, j) as usize);
                let t = seq![head] + rest;
                assert(t.drop_first() =~= rest);
                let x = s.subrange(j, m);
                assert forall|q: int| 0 <= q < x.len() implies !char_is_whitespace(#[trigger] x[q]) by {
                    assert(x[q] == s[j + q]);
                    assert(is_digit(s[j + q]));
                    if char_is_whitespace(x[q]) {
                        lemma_whitespace_is_no_token(x[q]);
                    }
                }
                assert(rest_text =~= x + s.subrange(m, s.len() as int));
                lemma_visible_front(x, s.subrange(m, s.len() as int));
                assert(all_digits(x)) by {
                    assert forall|q: int| 0 <= q < x.len() implies #[trigger] is_digit(x[q]) by {
                        assert(x[q] == s[j + q]);
                    }
                }
                assert(stands_whole(s, head, j));
                assert forall|k: int| 0 <= k < t.len() implies #[trigger] stands_whole_somewhere(
                    s,
                    t[k],
                ) by {
                    if k > 0 {
                        assert(t[k] == rest[k - 1]);
                    } else {
                        assert(stands_whole(s, t[k], j));
                    }
                }
            }
        } else if spec_single_char_kind(s[j]) is Some {
            lemma_scan_covers_from(s, j + 1);
            if let Ok(rest) = lex_from(s, j + 1) {
                let head = (spec_single_char_kind(s[j])->0, seq![s[j]], byte_offset(s, j) as usize);
                let t = seq![head] + rest;
                assert(t.drop_first() =~= rest);
                assert(s.subrange(j, j + 1) =~= seq![s[j]]);
                assert(!char_is_whitespace(s[j])) by {
                    if char_is_whitespace(s[j]) {
                        lemma_whitespace_is_no_token(s[j]);
                    }
                }
                assert(rest_text =~= seq![s[j]] + s.subrange(j + 1, s.len() as int));
                lemma_visible_front(seq![s[j]], s.subrange(j + 1, s.len() as int));
                assert(stands_whole(s, head, j));
                assert forall|k: int| 0 <= k < t.len() implies #[trigger] stands_whole_somewhere(
                    s,
                    t[k],
                ) by {
                    if k > 0 {
                        assert(t[k] == rest[k - 1]);
                    } else {
                        assert(stands_whole(s, t[k], j));
                    }
                }
            }
        } else if char_is_whitespace(s[j]) {
            lemma_scan_covers_from(s, j + 1);
        }
    }
}

/// The scan from `j` on succeeds exactly when no stray character stands
/// there, and otherwise fails at the first one.
proof fn lemma_scan_fails_at_first_stray(s: Seq<char>, j: int)
    requires
        0 <= j <= s.len(),
    ensures
        lex_from(s, j) is Ok <==> forall|x: int| j <= x < s.len() ==> !stray(#[trigger] s[x]),
        lex_from(s, j) matches Err(e) ==> exists|i: int|
            j <= i < s.len() && #[trigger] s[i] == e.character && stray(s[i]) && forall|x: int|
                j <= x < i ==> !stray(#[trigger] s[x]),
    decreases s.len() - j,
{
    if j < s.len() {
        if is_digit(s[j]) {
            let m = digit_run_end(s, j + 1);
            lemma_digit_run_end(s, j + 1);
            lemma_scan_fails_at_first_stray(s, m);
            assert forall|x: int| j <= x < m implies !stray(#[trigger] s[x]) by {
                if x > j {
                    assert(is_digit(s[x]));
                }
            }
        } else {
            lemma_scan_fails_at_first_stray(s, j + 1);
            if stray(s[j]) {
                assert(s[j] == lex_from(s, j)->Err_0.character);
            }
        }
    }
}

/// Law: what the scan yields is fixed by the text. It succeeds exactly when
/// the text holds no stray character (one that is not whitespace, a digit,
/// an operator or a parenthesis), and fails otherwise at the first one.
/// When it succeeds, its tokens spell out the text with the whitespace taken
/// out, and each stands whole in the text: a number is a complete run of
/// digits, anything else one operator or parenthesis character of its own
/// kind.
pub proof fn law_scan_is_fixed_by_the_text(s: Seq<char>)
    ensures
        lex(s) is Ok <==> forall|x: int| 0 <= x < s.len() ==> !stray(#[trigger] s[x]),
        lex(s) matches Err(e) ==> exists|i: int|
            0 <= i < s.len() && #[trigger] s[i] == e.character && stray(s[i]) && forall|x: int|
                0 <= x < i ==> !stray(#[trigger] s[x]),
        lex(s) matches Ok(t) ==> spelled(t) == visible(s) && forall|k: int|
            0 <= k < t.len() ==> #[trigger] stands_whole_somewhere(s, t[k]),
{
    lemma_scan_fails_at_first_stray(s, 0);
    lemma_scan_covers_from(s, 0);
    assert(s.subrange(0, s.len() as int) =~= s);
}

/// Law: text made of whitespace alone, the empty text included, scans as no
/// tokens at all.
pub proof fn law_blank_text_has_no_tokens(s: Seq<char>)
    requires
        forall|i: int| 0 <= i < s.len() ==> #[trigger] char_is_whitespace(s[i]),
    ensures
        lex(s) == Ok::<Seq<TokenView>, LexError>(Seq::empty()),
{
    lemma_blank_from(s, 0);
}

/// The blank tail of a text from `j` on scans as no tokens.
proof fn lemma_blank_from(s: Seq<char>, j: int)
    requires
        0 <= j,
        forall|i: int| 0 <= i < s.len() ==> #[trigger] char_is_whitespace(s[i]),
    ensures
        lex_from(s, j) == Ok::<Seq<TokenView>, LexError>(Seq::empty()),
    decreases s.len() - j,
{
    if j < s.len() {
        assert(char_is_whitespace(s[j]));
        lemma_blank_from(s, j + 1);
    }
}

/// Every number token of a run carries a nonempty run of digits.
pub open spec fn numbers_are_digits(t: Seq<TokenView>) -> bool {
    forall|k: int|
        0 <= k < t.len() && (#[trigger] t[k]).0 == TokenKind::Number ==> t[k].1.len() > 0
            && all_digits(t[k].1)
}

/// The scan hands out number tokens made of digits only.
pub proof fn lemma_lex_numbers_are_digits(s: Seq<char>, i: int)
    ensures
        lex_from(s, i) matches Ok(t) ==> numbers_are_digits(t),
    decreases s.len() - i,
{
    if 0 <= i < s.len() {
        if is_digit(s[i]) {
            let j = digit_run_end(s, i + 1);
            lemma_digit_run_end(s, i + 1);
            lemma_lex_numbers_are_digits(s, j);
            if let Ok(rest) = lex_from(s, j) {
                let head = seq![(TokenKind::Number, s.subrange(i, j), byte_offset(s, i) as usize)];
                let t = head + rest;
                assert forall|k: int|
                    0 <= k < t.len() && (#[trigger] t[k]).0 == TokenKind::Number implies t[k].1.len()
                    > 0 && all_digits(t[k].1) by {
                    if k > 0 {
                        assert(t[k] == rest[k - 1]);
                    } else {
                        assert(t[k].1 =~= s.subrange(i, j));
                        assert forall|m: int| 0 <= m < t[k].1.len() implies #[trigger] is_digit(
                            t[k].1[m],
                        ) by {
                            assert(t[k].1[m] == s[i + m]);
                        }
                    }
                }
            }
        } else if spec_single_char_kind(s[i]) is Some {
            lemma_lex_numbers_are_digits(s, i + 1);
            if let Ok(rest) = lex_from(s, i + 1) {
                let head = seq![(spec_single_char_kind(s[i])->0, seq![s[i]], byte_offset(s, i) as usize)];
                let t = head + rest;
                assert forall|k: int|
                    0 <= k < t.len() && (#[trigger] t[k]).0 == TokenKind::Number implies t[k].1.len()
                    > 0 && all_digits(t[k].1) by {
                    if k > 0 {
                        assert(t[k] == rest[k - 1]);
                    }
                }
            }
        } else if char_is_whitespace(s[i]) {
            lemma_lex_numbers_are_digits(s, i + 1);
        }
    }
}

/// A digit run ends at or after where it starts, and within the text.
pub proof fn lemma_digit_run_end(s: Seq<char>, i: int)
    ensures
        digit_run_end(s, i) >= i,
        0 <= i <= s.len() ==> digit_run_end(s, i) <= s.len(),
        forall|k: int| i <= k < digit_run_end(s, i) ==> #[trigger] is_digit(s[k]),
        0 <= digit_run_end(s, i) < s.len() ==> !is_digit(s[digit_run_end(s, i)]),
    decreases s.len() - i,
{
    if 0 <= i < s.len() && is_digit(s[i]) {
        lemma_digit_run_end(s, i + 1);
    }
}

/// Encoding a concatenation concatenates the encodings.
pub proof fn lemma_encode_concat(a: Seq<char>, b: Seq<char>)
    ensures
        encode_utf8(a + b) == encode_utf8(a) + encode_utf8(b),
    decreases a.len(),
{
    if a.len() == 0 {
        assert(a + b =~= b);
    } else {
        lemma_encode_concat(a.drop_first(), b);
        assert((a + b).drop_first() =~= a.drop_first() + b);
        assert(encode_utf8(a + b) =~= encode_scalar(a[0] as u32) + encode_utf8(a.drop_first() + b));
    }
}

/// The byte offset of the next character is this one's plus its width.
pub proof fn lemma_byte_offset_step(s: Seq<char>, i: int)
    requires
        0 <= i < s.len(),
    ensures
        byte_offset(s, i + 1) == byte_offset(s, i) + encode_scalar(s[i] as u32).len(),
{
    assert(s.take(i + 1) =~= s.take(i) + seq![s[i]]);
    lemma_encode_concat(s.take(i), seq![s[i]]);
    assert(encode_utf8(seq![s[i]]) =~= encode_scalar(s[i] as u32) + encode_utf8(
        seq![s[i]].drop_first(),
    ));
    assert(seq![s[i]].drop_first() =~= Seq::<char>::empty());
}

/// Byte offsets never pass the length of the whole encoding.
pub proof fn lemma_byte_offset_bound(s: Seq<char>, i: int)
    requires
        0 <= i <= s.len(),
    ensures
        byte_offset(s, i) <= encode_utf8(s).len(),
{
    assert(s =~= s.take(i) + s.skip(i));
    lemma_encode_concat(s.take(i), s.skip(i));
}

/// How many bytes the UTF-8 encoding of `c` takes.
fn utf8_width(c: char) -> (w: usize)
    ensures
        w == encode_scalar(c as u32).len(),
{
    proof {
        char_is_scalar(c);
    }
    let x = c as u32;
    if x < 0x80 {
        1
    } else if x < 0x800 {
        2
    } else if x < 0x10000 {
        3
    } else {
        4
    }
}

/// Map one of the six operator or parenthesis characters to its kind.
fn single_char_kind(ch: char) -> (res: Option<TokenKind>)
    ensures
        res == spec_single_char_kind(ch),
{
    match ch {
        '+' => Some(TokenKind::Plus),
        '-' => Some(TokenKind::Minus),
        '*' => Some(TokenKind::Star),
        '/' => Some(TokenKind::Slash),
        '(' => Some(TokenKind::LParen),
        ')' => Some(TokenKind::RParen),
        _ => None,
    }
}

/// The characters of a text, in order.
fn chars_of(text: &str) -> (res: Vec<char>)
    ensures
        res@ == text@,
{
    let mut out: Vec<char> = Vec::new();
    for c in it: text.chars()
        invariant
            out@ == it.seq().take(it.index()),
            it.seq() == text@,
    {
        out.push(c);
    }
    out
}

/// Split expression text into tokens.
///
/// Whitespace separates tokens and means nothing on its own. A maximal run
/// of decimal digits becomes one [`TokenKind::Number`], and each of the six
/// operator and parenthesis characters maps to its own kind. Empty or
/// whitespace-only input yields an empty vector. Returns a [`LexError`]
/// naming the byte offset and the character when the input holds anything
/// that can't begin a token.
pub fn tokenize(text: &str) -> (res: Result<Vec<Token>, LexError>)
    ensures
        match res {
            Ok(run) => lex(text@) == Ok::<Seq<TokenView>, LexError>(token_views(run@)),
            Err(err) => lex(text@) == Err::<Seq<TokenView>, LexError>(err),
        },
{
    let bytes = text.as_bytes();
    let total = bytes.len();
    let chars = chars_of(text);
    let ghost s = text@;
    let n = chars.len();
    let mut tokens: Vec<Token> = Vec::new();
    let mut i: usize = 0;
    let mut offset: usize = 0;
    proof {
        assert(s.take(0) =~= Seq::<char>::empty());
        assert(token_views(tokens@) =~= Seq::<TokenView>::empty());
        assert(prepend(Seq::empty(), lex_from(s, 0)) == lex_from(s, 0)) by {
            match lex_from(s, 0) {
                Ok(t) => {
                    assert(Seq::<TokenView>::empty() + t =~= t);
                },
                Err(_) => {},
            }
        }
    }
    while i < n
        invariant
            s == text@,
            chars@ == s,
            n == s.len(),
            total == encode_utf8(s).len(),
            i <= n,
            offset == byte_offset(s, i as int),
            lex(s) == prepend(token_views(tokens@), lex_from(s, i as int)),
        decreases n - i,
    {
        let ch = chars[i];
        proof {
            lemma_byte_offset_step(s, i as int);
            lemma_byte_offset_bound(s, i as int + 1);
        }
        let start = i;
        let start_offset = offset;
        if '0' <= ch && ch <= '9' {
            let mut lexeme = String::new();
            push_char(&mut lexeme, ch);
            i = i + 1;
            offset = offset + utf8_width(ch);
            proof {
                lemma_digit_run_end(s, start as int + 1);
            }
            while i < n && '0' <= chars[i] && chars[i] <= '9'
                invariant
                    chars@ == s,
                    n == s.len(),
                    total == encode_utf8(s).len(),
                    start < i <= n,
                    i <= digit_run_end(s, start as int + 1),
                    digit_run_end(s, start as int + 1) == digit_run_end(s, i as int),
                    offset == byte_offset(s, i as int),
                    lexeme@ == s.subrange(start as int, i as int),
                decreases n - i,
            {
                let d = chars[i];
                proof {
                    lemma_byte_offset_step(s, i as int);
                    lemma_byte_offset_bound(s, i as int + 1);
                    lemma_digit_run_end(s, i as int + 1);
                    assert(s.subrange(start as int, i as int + 1) =~= s.subrange(
                        start as int,
                        i as int,
                    ).push(d));
                }
                push_char(&mut lexeme, d);
                i = i + 1;
                offset = offset + utf8_width(d);
            }
            let ghost before = token_views(tokens@);
            tokens.push(Token { kind: TokenKind::Number, lexeme, offset: start_offset });
            proof {
                assert(i == digit_run_end(s, start as int + 1));
                let t = (TokenKind::Number, s.subrange(start as int, i as int), start_offset);
                assert(token_views(tokens@) =~= before.push(t));
                match lex_from(s, i as int) {
                    Ok(tail) => {
                        assert(before + (seq![t] + tail) =~= before.push(t) + tail);
                    },
                    Err(_) => {},
                }
            }
        } else {
            match single_char_kind(ch) {
                Some(kind) => {
                    let mut lexeme = String::new();
                    push_char(&mut lexeme, ch);
                    let ghost before = token_views(tokens@);
                    tokens.push(Token { kind, lexeme, offset: start_offset });
                    i = i + 1;
                    offset = offset + utf8_width(ch);
                    proof {
                        let t = (kind, seq![ch], start_offset);
                        assert(lexeme@ =~= seq![ch]);
                        assert(token_views(tokens@) =~= before.push(t));
                        match lex_from(s, i as int) {
                            Ok(tail) => {
                                assert(before + (seq![t] + tail) =~= before.push(t) + tail);
                            },
                            Err(_) => {},
                        }
                    }
                },
                None => {
                    if is_whitespace(ch) {
                        i = i + 1;
                        offset = offset + utf8_width(ch);
                    } else {
                        let err = LexError { offset: start_offset, character: ch };
                        proof {
                            assert(lex_from(s, i as int) == Err::<Seq<TokenView>, LexError>(err));
                        }
                        return Err(err);
                    }
                },
            }
        }
    }
    proof {
        match lex_from(s, i as int) {
            Ok(tail) => {
                assert(tail =~= Seq::<TokenView>::empty());
                assert(token_views(tokens@) + tail =~= token_views(tokens@));
            },
            Err(_) => {},
        }
    }
    Ok(tokens)
}

} // verus!
