//! The scanner: turns the bytes of a program into tokens.
//!
//! The lexical rules are given as spec functions over the input bytes and a
//! position (`lex_token`); the executable `Scanner` is proved to follow them.
use vstd::prelude::*;

use crate::structs::{SSpanned, SToken, SpannedToken, Token};
use crate::text::push_char;
#[allow(unused_imports)]
use vstd::string::StringSliceAdditionalSpecFns;

verus! {

// ---------------------------------------------------------------------------
// The lexical rules
// ---------------------------------------------------------------------------

/// Where the scanner stands: a byte offset and the line and column there.
pub struct LexState {
    pub pos: int,
    pub line: int,
    pub col: int,
}

/// The byte at `p`, if there is one.
pub open spec fn peek_at(s: Seq<u8>, p: int) -> Option<u8> {
    if 0 <= p < s.len() {
        Some(s[p])
    } else {
        None
    }
}

/// Moves past one byte; a line feed starts a new line at column 1.
pub open spec fn adv(s: Seq<u8>, st: LexState) -> LexState {
    if 0 <= st.pos < s.len() {
        if s[st.pos] == 10 {
            LexState { pos: st.pos + 1, line: st.line + 1, col: 1 }
        } else {
            LexState { pos: st.pos + 1, line: st.line, col: st.col + 1 }
        }
    } else {
        st
    }
}

/// Blanks: space, tab, line feed and carriage return.
pub open spec fn is_space(b: u8) -> bool {
    b == 32 || b == 9 || b == 13 || b == 10
}

/// A decimal digit.
pub open spec fn is_digit(b: u8) -> bool {
    48 <= b <= 57
}

/// An ASCII letter.
pub open spec fn is_alpha(b: u8) -> bool {
    (65 <= b <= 90) || (97 <= b <= 122)
}

/// A byte that can begin an identifier: a letter, `_` or `$`.
pub open spec fn is_ident_start(b: u8) -> bool {
    is_alpha(b) || b == 95 || b == 36
}

/// A byte that can continue an identifier: a letter, a digit, `_` or `$`.
pub open spec fn is_ident_char(b: u8) -> bool {
    is_alpha(b) || is_digit(b) || b == 95 || b == 36
}

/// What the scanner is in the middle of while it skips blanks and comments.
pub enum SkipMode {
    Normal,
    LineComment,
    BlockComment,
}

/// Skips blanks, `// ...` comments (through the line feed) and `/* ... */`
/// comments (an unclosed one runs to the end of the input).
pub closed spec fn skip(s: Seq<u8>, st: LexState, mode: SkipMode) -> LexState
    decreases s.len() - st.pos,
{
    match mode {
        SkipMode::Normal => match peek_at(s, st.pos) {
            Some(b) => if is_space(b) {
                skip(s, adv(s, st), SkipMode::Normal)
            } else if b == 47 && peek_at(s, st.pos + 1) == Some(47u8) {
                skip(s, adv(s, st), SkipMode::LineComment)
            } else if b == 47 && peek_at(s, st.pos + 1) == Some(42u8) {
                skip(s, adv(s, adv(s, st)), SkipMode::BlockComment)
            } else {
                st
            },
            None => st,
        },
        SkipMode::LineComment => match peek_at(s, st.pos) {
            Some(b) => if b == 10 {
                skip(s, adv(s, st), SkipMode::Normal)
            } else {
                skip(s, adv(s, st), SkipMode::LineComment)
            },
            None => st,
        },
        SkipMode::BlockComment => if peek_at(s, st.pos) == Some(42u8) && peek_at(s, st.pos + 1)
            == Some(47u8) {
            skip(s, adv(s, adv(s, st)), SkipMode::Normal)
        } else {
            match peek_at(s, st.pos) {
                Some(_) => skip(s, adv(s, st), SkipMode::BlockComment),
                None => st,
            }
        },
    }
}

/// The end of the run of digits (or of identifier characters) that starts at `p`.
pub open spec fn run_end(s: Seq<u8>, p: int, ident: bool) -> int
    decreases s.len() - p,
{
    if 0 <= p < s.len() && (if ident {
        is_ident_char(s[p])
    } else {
        is_digit(s[p])
    }) {
        run_end(s, p + 1, ident)
    } else {
        p
    }
}

/// The value of the decimal digits `s[a..b]`.
pub open spec fn digits_value(s: Seq<u8>, a: int, b: int) -> int
    decreases b - a,
{
    if b <= a {
        0
    } else {
        digits_value(s, a, b - 1) * 10 + (s[b - 1] - 48)
    }
}

/// The bytes `s[a..b]` read as characters.
pub open spec fn chars_of(s: Seq<u8>, a: int, b: int) -> Seq<char> {
    Seq::new((b - a) as nat, |i: int| s[a + i] as char)
}

/// A keyword, or else an identifier.
pub open spec fn keyword_or_ident(w: Seq<char>) -> SToken {
    if w == "var"@ {
        SToken::Var
    } else if w == "fn"@ {
        SToken::Fn
    } else if w == "if"@ {
        SToken::If
    } else if w == "elseif"@ {
        SToken::ElseIf
    } else if w == "else"@ {
        SToken::Else
    } else if w == "while"@ {
        SToken::While
    } else if w == "return"@ {
        SToken::Return
    } else {
        SToken::Ident(w)
    }
}

/// The token for a one-byte symbol, if `b` is one.
pub open spec fn symbol_token(b: u8) -> Option<SToken> {
    if b == 61 {
        Some(SToken::Assign)
    } else if b == 35 {
        Some(SToken::Neq)
    } else if b == 43 {
        Some(SToken::Plus)
    } else if b == 45 {
        Some(SToken::Minus)
    } else if b == 42 {
        Some(SToken::Star)
    } else if b == 47 {
        Some(SToken::Slash)
    } else if b == 37 {
        Some(SToken::Percent)
    } else if b == 40 {
        Some(SToken::LParen)
    } else if b == 41 {
        Some(SToken::RParen)
    } else if b == 123 {
        Some(SToken::LBrace)
    } else if b == 125 {
        Some(SToken::RBrace)
    } else if b == 58 {
        Some(SToken::Colon)
    } else if b == 59 {
        Some(SToken::Semicolon)
    } else if b == 44 {
        Some(SToken::Comma)
    } else {
        None
    }
}

/// The character an escape `\x` stands for: `\b`, `\t`, `\n`, `\f`, `\r`,
/// `\"`, `\'` and `\\` as in C (`?` for any other escape).
pub open spec fn escape_char(b: Option<u8>) -> char {
    match b {
        Some(x) => if x == 98 {
            '\u{8}'
        } else if x == 102 {
            '\u{c}'
        } else if x == 110 {
            '\n'
        } else if x == 116 {
            '\t'
        } else if x == 114 {
            '\r'
        } else if x == 92 {
            '\\'
        } else if x == 39 {
            '\''
        } else if x == 34 {
            '"'
        } else {
            '?'
        },
        None => '?',
    }
}

/// One scanned token: the token, the line and column where the scan began, and
/// where the scanner stands afterwards.
pub struct Lexed {
    pub token: SToken,
    pub line: int,
    pub col: int,
    pub next: LexState,
}

/// A character literal that starts (after its opening quote) at `a`.
pub open spec fn lex_char(s: Seq<u8>, a: LexState) -> (char, LexState) {
    match peek_at(s, a.pos) {
        None => ('?', a),
        Some(b) => if b == 92 {
            let a2 = adv(s, a);
            (escape_char(peek_at(s, a2.pos)), adv(s, a2))
        } else {
            (b as char, adv(s, a))
        },
    }
}

/// The next token from `st`. Blanks and comments before it are skipped; a byte
/// that starts no token is skipped as well, and the token after it is taken
/// (with the position where that later scan began).
pub closed spec fn lex_token(s: Seq<u8>, st: LexState) -> Lexed
    decreases s.len() - st.pos,
    via lex_token_decreases
{
    let st1 = skip(s, st, SkipMode::Normal);
    let p = st1.pos;
    match peek_at(s, p) {
        None => Lexed { token: SToken::EOF, line: st.line, col: st.col, next: st1 },
        Some(b) => if is_digit(b) {
            let e = run_end(s, p, false);
            Lexed {
                token: SToken::Number(digits_value(s, p, e)),
                line: st.line,
                col: st.col,
                next: LexState { pos: e, line: st1.line, col: st1.col + (e - p) },
            }
        } else if is_ident_start(b) {
            let e = run_end(s, p, true);
            Lexed {
                token: keyword_or_ident(chars_of(s, p, e)),
                line: st.line,
                col: st.col,
                next: LexState { pos: e, line: st1.line, col: st1.col + (e - p) },
            }
        } else if b == 39 {
            let (c, b2) = lex_char(s, adv(s, st1));
            Lexed { token: SToken::Char(c), line: st.line, col: st.col, next: adv(s, b2) }
        } else if b == 60 || b == 62 {
            let a = adv(s, st1);
            let t = if peek_at(s, a.pos) == Some(61u8) {
                if b == 60 {
                    SToken::Le
                } else {
                    SToken::Ge
                }
            } else if b == 60 {
                SToken::Lt
            } else {
                SToken::Gt
            };
            let next = if peek_at(s, a.pos) == Some(61u8) {
                LexState { pos: a.pos + 1, ..a }
            } else {
                a
            };
            Lexed { token: t, line: st.line, col: st.col, next }
        } else if symbol_token(b) is Some {
            Lexed {
                token: symbol_token(b).unwrap(),
                line: st.line,
                col: st.col,
                next: adv(s, st1),
            }
        } else {
            lex_token(s, adv(s, st1))
        },
    }
}

#[via_fn]
proof fn lex_token_decreases(s: Seq<u8>, st: LexState) {
    lemma_skip_mono(s, st, SkipMode::Normal);
}

/// Skipping never moves backwards, and stays within the input.
pub proof fn lemma_skip_mono(s: Seq<u8>, st: LexState, mode: SkipMode)
    ensures
        skip(s, st, mode).pos >= st.pos,
        st.pos <= s.len() ==> skip(s, st, mode).pos <= s.len(),
        st.pos < 0 ==> skip(s, st, mode) == st,
    decreases s.len() - st.pos,
{
    match mode {
        SkipMode::Normal => match peek_at(s, st.pos) {
            Some(b) => if is_space(b) {
                lemma_skip_mono(s, adv(s, st), SkipMode::Normal);
            } else if b == 47 && peek_at(s, st.pos + 1) == Some(47u8) {
                lemma_skip_mono(s, adv(s, st), SkipMode::LineComment);
            } else if b == 47 && peek_at(s, st.pos + 1) == Some(42u8) {
                lemma_skip_mono(s, adv(s, adv(s, st)), SkipMode::BlockComment);
            },
            None => {},
        },
        SkipMode::LineComment => match peek_at(s, st.pos) {
            Some(b) => if b == 10 {
                lemma_skip_mono(s, adv(s, st), SkipMode::Normal);
            } else {
                lemma_skip_mono(s, adv(s, st), SkipMode::LineComment);
            },
            None => {},
        },
        SkipMode::BlockComment => if peek_at(s, st.pos) == Some(42u8) && peek_at(s, st.pos + 1)
            == Some(47u8) {
            lemma_skip_mono(s, adv(s, adv(s, st)), SkipMode::Normal);
        } else {
            match peek_at(s, st.pos) {
                Some(_) => lemma_skip_mono(s, adv(s, st), SkipMode::BlockComment),
                None => {},
            }
        },
    }
}

/// After skipping in normal mode the scanner stands on a byte that starts a token, or at the end.
pub proof fn lemma_skip_stops(s: Seq<u8>, st: LexState, mode: SkipMode)
    ensures
        ({
            let r = skip(s, st, mode);
            &&& peek_at(s, r.pos) is None ==> skip(s, r, SkipMode::Normal) == r
        }),
    decreases s.len() - st.pos,
{
    match mode {
        SkipMode::Normal => match peek_at(s, st.pos) {
            Some(b) => if is_space(b) {
                lemma_skip_stops(s, adv(s, st), SkipMode::Normal);
            } else if b == 47 && peek_at(s, st.pos + 1) == Some(47u8) {
                lemma_skip_stops(s, adv(s, st), SkipMode::LineComment);
            } else if b == 47 && peek_at(s, st.pos + 1) == Some(42u8) {
                lemma_skip_stops(s, adv(s, adv(s, st)), SkipMode::BlockComment);
            },
            None => {},
        },
        SkipMode::LineComment => match peek_at(s, st.pos) {
            Some(b) => if b == 10 {
                lemma_skip_stops(s, adv(s, st), SkipMode::Normal);
            } else {
                lemma_skip_stops(s, adv(s, st), SkipMode::LineComment);
            },
            None => {},
        },
        SkipMode::BlockComment => if peek_at(s, st.pos) == Some(42u8) && peek_at(s, st.pos + 1)
            == Some(47u8) {
            lemma_skip_stops(s, adv(s, adv(s, st)), SkipMode::Normal);
        } else {
            match peek_at(s, st.pos) {
                Some(_) => lemma_skip_stops(s, adv(s, st), SkipMode::BlockComment),
                None => {},
            }
        },
    }
}

/// A run of identifier bytes or digits ends no earlier than it starts and within the input.
pub proof fn lemma_run_end(s: Seq<u8>, p: int, ident: bool)
    requires
        0 <= p <= s.len(),
    ensures
        p <= run_end(s, p, ident) <= s.len(),
    decreases s.len() - p,
{
    if 0 <= p < s.len() && (if ident {
        is_ident_char(s[p])
    } else {
        is_digit(s[p])
    }) {
        lemma_run_end(s, p + 1, ident);
    }
}

/// Scanning a token never moves backwards and stays within the input; every
/// token but the end marker takes at least one byte; at the end the scanner
/// keeps returning the end marker without moving.
pub proof fn lemma_lex_progress(s: Seq<u8>, st: LexState)
    ensures
        ({
            let l = lex_token(s, st);
            &&& l.next.pos >= st.pos
            &&& st.pos <= s.len() ==> l.next.pos <= s.len()
            &&& l.token !is EOF ==> l.next.pos > st.pos && 0 <= st.pos && l.next.pos <= s.len()
            &&& l.token is EOF ==> lex_token(s, l.next).token is EOF && lex_token(s, l.next).next
                == l.next
            &&& !(0 <= st.pos <= s.len()) ==> l.token is EOF && l.next == st
        }),
    decreases s.len() - st.pos,
{
    let st1 = skip(s, st, SkipMode::Normal);
    lemma_skip_mono(s, st, SkipMode::Normal);
    lemma_skip_stops(s, st, SkipMode::Normal);
    let p = st1.pos;
    match peek_at(s, p) {
        None => {
            lemma_skip_mono(s, st1, SkipMode::Normal);
        },
        Some(b) => {
            if is_digit(b) {
                lemma_run_end(s, p + 1, false);
            } else if is_ident_start(b) {
                lemma_run_end(s, p + 1, true);
            } else if b == 39 {
            } else if b == 60 || b == 62 {
            } else if symbol_token(b) is Some {
            } else {
                lemma_lex_progress(s, adv(s, st1));
            }
        },
    }
}

/// Where the scanner stands after `k` more tokens.
pub open spec fn state_after(s: Seq<u8>, st: LexState, k: nat) -> LexState
    decreases k,
{
    if k == 0 {
        st
    } else {
        state_after(s, lex_token(s, st).next, (k - 1) as nat)
    }
}

/// The scanner reaches the end: from any place in the input, one of the
/// next tokens, no more of them than bytes are left plus one, is the end
/// marker.
pub proof fn lemma_reaches_eof(s: Seq<u8>, st: LexState)
    requires
        0 <= st.pos <= s.len(),
    ensures
        exists|k: nat|
            k <= s.len() - st.pos && (#[trigger] lex_token(s, state_after(s, st, k))).token is EOF,
    decreases s.len() - st.pos,
{
    lemma_lex_progress(s, st);
    let l = lex_token(s, st);
    if l.token is EOF {
        assert(state_after(s, st, 0) == st);
        assert(lex_token(s, state_after(s, st, 0)).token is EOF);
    } else {
        lemma_reaches_eof(s, l.next);
        let k = choose|k: nat|
            k <= s.len() - l.next.pos && (#[trigger] lex_token(s, state_after(s, l.next, k))).token is EOF;
        assert(state_after(s, st, k + 1) == state_after(s, l.next, k));
        assert(lex_token(s, state_after(s, st, k + 1)).token is EOF);
    }
}

/// A token whose number (if it is one) fits in an `i64`.
pub open spec fn token_fits(t: SToken) -> bool {
    match t {
        SToken::Number(v) => v <= i64::MAX,
        _ => true,
    }
}

/// Every number token from `st` to the end of the input fits in an `i64`.
pub closed spec fn fits_from(s: Seq<u8>, st: LexState) -> bool
    decreases s.len() - st.pos,
    via fits_from_decreases
{
    let l = lex_token(s, st);
    if l.token is EOF {
        true
    } else {
        token_fits(l.token) && fits_from(s, l.next)
    }
}

#[via_fn]
proof fn fits_from_decreases(s: Seq<u8>, st: LexState) {
    lemma_lex_progress(s, st);
}

/// The scanner's state moves on to the next token.
pub proof fn lemma_fits_step(s: Seq<u8>, st: LexState)
    requires
        fits_from(s, st),
    ensures
        token_fits(lex_token(s, st).token),
        fits_from(s, lex_token(s, st).next),
{
    lemma_lex_progress(s, st);
    let l = lex_token(s, st);
    if l.token is EOF {
        lemma_lex_progress(s, l.next);
        assert(fits_from(s, l.next));
    }
}

/// The byte starts a token (otherwise the scanner skips it).
pub open spec fn starts_token(b: u8) -> bool {
    is_digit(b) || is_ident_start(b) || b == 39 || b == 60 || b == 62 || symbol_token(b) is Some
}

/// How many bytes that start no token the scan of the next token skips.
pub closed spec fn lex_skipped(s: Seq<u8>, st: LexState) -> nat
    decreases s.len() - st.pos,
    via lex_skipped_decreases
{
    let st1 = skip(s, st, SkipMode::Normal);
    match peek_at(s, st1.pos) {
        None => 0,
        Some(b) => if starts_token(b) {
            0
        } else {
            1 + lex_skipped(s, adv(s, st1))
        },
    }
}

#[via_fn]
proof fn lex_skipped_decreases(s: Seq<u8>, st: LexState) {
    lemma_skip_mono(s, st, SkipMode::Normal);
}

/// How many bytes that start no token the scanner skips from `st` to the
/// end of the input.
pub closed spec fn unknown_from(s: Seq<u8>, st: LexState) -> nat
    decreases s.len() - st.pos,
    via unknown_from_decreases
{
    let l = lex_token(s, st);
    if l.token is EOF {
        lex_skipped(s, st)
    } else {
        lex_skipped(s, st) + unknown_from(s, l.next)
    }
}

#[via_fn]
proof fn unknown_from_decreases(s: Seq<u8>, st: LexState) {
    lemma_lex_progress(s, st);
}

/// Each skipped byte is one that the scan of the token moves past.
proof fn lemma_skipped_bound(s: Seq<u8>, st: LexState)
    requires
        0 <= st.pos <= s.len(),
    ensures
        st.pos + lex_skipped(s, st) <= lex_token(s, st).next.pos,
    decreases s.len() - st.pos,
{
    lemma_skip_mono(s, st, SkipMode::Normal);
    lemma_lex_progress(s, st);
    let st1 = skip(s, st, SkipMode::Normal);
    match peek_at(s, st1.pos) {
        None => {},
        Some(b) => if !starts_token(b) {
            lemma_skipped_bound(s, adv(s, st1));
        },
    }
}

/// The scanner skips no more bytes than are left.
pub proof fn lemma_unknown_bound(s: Seq<u8>, st: LexState)
    requires
        0 <= st.pos <= s.len(),
    ensures
        unknown_from(s, st) <= s.len() - st.pos,
    decreases s.len() - st.pos,
{
    lemma_skipped_bound(s, st);
    lemma_lex_progress(s, st);
    let l = lex_token(s, st);
    if !(l.token is EOF) {
        lemma_unknown_bound(s, l.next);
    }
}

/// `skip` by its definition, for use outside this module.
pub proof fn lemma_skip_unfold(s: Seq<u8>, st: LexState, mode: SkipMode)
    ensures
        skip(s, st, mode) == ({
            match mode {
                SkipMode::Normal => match peek_at(s, st.pos) {
                    Some(b) => if is_space(b) {
                        skip(s, adv(s, st), SkipMode::Normal)
                    } else if b == 47 && peek_at(s, st.pos + 1) == Some(47u8) {
                        skip(s, adv(s, st), SkipMode::LineComment)
                    } else if b == 47 && peek_at(s, st.pos + 1) == Some(42u8) {
                        skip(s, adv(s, adv(s, st)), SkipMode::BlockComment)
                    } else {
                        st
                    },
                    None => st,
                },
                SkipMode::LineComment => match peek_at(s, st.pos) {
                    Some(b) => if b == 10 {
                        skip(s, adv(s, st), SkipMode::Normal)
                    } else {
                        skip(s, adv(s, st), SkipMode::LineComment)
                    },
                    None => st,
                },
                SkipMode::BlockComment => if peek_at(s, st.pos) == Some(42u8) && peek_at(s, st.pos + 1)
                    == Some(47u8) {
                    skip(s, adv(s, adv(s, st)), SkipMode::Normal)
                } else {
                    match peek_at(s, st.pos) {
                        Some(_) => skip(s, adv(s, st), SkipMode::BlockComment),
                        None => st,
                    }
                },
            }
        }),
{
}

/// `lex_token` by its definition, for use outside this module.
pub proof fn lemma_lex_token_unfold(s: Seq<u8>, st: LexState)
    ensures
        lex_token(s, st) == ({
            let st1 = skip(s, st, SkipMode::Normal);
            let p = st1.pos;
            match peek_at(s, p) {
                None => Lexed { token: SToken::EOF, line: st.line, col: st.col, next: st1 },
                Some(b) => if is_digit(b) {
                    let e = run_end(s, p, false);
                    Lexed {
                        token: SToken::Number(digits_value(s, p, e)),
                        line: st.line,
                        col: st.col,
                        next: LexState { pos: e, line: st1.line, col: st1.col + (e - p) },
                    }
                } else if is_ident_start(b) {
                    let e = run_end(s, p, true);
                    Lexed {
                        token: keyword_or_ident(chars_of(s, p, e)),
                        line: st.line,
                        col: st.col,
                        next: LexState { pos: e, line: st1.line, col: st1.col + (e - p) },
                    }
                } else if b == 39 {
                    let (c, b2) = lex_char(s, adv(s, st1));
                    Lexed { token: SToken::Char(c), line: st.line, col: st.col, next: adv(s, b2) }
                } else if b == 60 || b == 62 {
                    let a = adv(s, st1);
                    let t = if peek_at(s, a.pos) == Some(61u8) {
                        if b == 60 {
                            SToken::Le
                        } else {
                            SToken::Ge
                        }
                    } else if b == 60 {
                        SToken::Lt
                    } else {
                        SToken::Gt
                    };
                    let next = if peek_at(s, a.pos) == Some(61u8) {
                        LexState { pos: a.pos + 1, ..a }
                    } else {
                        a
                    };
                    Lexed { token: t, line: st.line, col: st.col, next }
                } else if symbol_token(b) is Some {
                    Lexed {
                        token: symbol_token(b).unwrap(),
                        line: st.line,
                        col: st.col,
                        next: adv(s, st1),
                    }
                } else {
                    lex_token(s, adv(s, st1))
                },
            }
        }),
{
}

proof fn lemma_run_reaches(s: Seq<u8>, q: int, e: int)
    requires
        0 <= q <= e <= s.len(),
        forall|i: int|
            q <= i < e ==> (#[trigger] s[i] == 95 || s[i] == 36 || 65 <= s[i] <= 90 || 97 <= s[i] <= 122
                || 48 <= s[i] <= 57),
        e == s.len() || !(s[e] == 95 || s[e] == 36 || 65 <= s[e] <= 90 || 97 <= s[e] <= 122 || 48
            <= s[e] <= 57),
    ensures
        run_end(s, q, true) == e,
    decreases e - q,
{
    if q < e {
        lemma_run_reaches(s, q + 1, e);
    }
}

/// Identifiers: where the next token (after blanks and comments) begins
/// with a letter, `_` or `$`, it is the keyword or identifier made of the
/// whole run of letters, digits, `_` and `$` from there, and the scan goes
/// on after that run.
pub proof fn lemma_identifier_token(s: Seq<u8>, st: LexState, e: int)
    requires
        ({
            let p = skip(s, st, SkipMode::Normal).pos;
            &&& 0 <= p < e <= s.len()
            &&& (s[p] == 95 || s[p] == 36 || 65 <= s[p] <= 90 || 97 <= s[p] <= 122)
            &&& forall|i: int|
                p <= i < e ==> (#[trigger] s[i] == 95 || s[i] == 36 || 65 <= s[i] <= 90 || 97 <= s[i]
                    <= 122 || 48 <= s[i] <= 57)
            &&& (e == s.len() || !(s[e] == 95 || s[e] == 36 || 65 <= s[e] <= 90 || 97 <= s[e] <= 122
                || 48 <= s[e] <= 57))
        }),
    ensures
        lex_token(s, st).token == keyword_or_ident(chars_of(s, skip(s, st, SkipMode::Normal).pos, e)),
        lex_token(s, st).next.pos == e,
{
    let p = skip(s, st, SkipMode::Normal).pos;
    lemma_run_reaches(s, p, e);
    lemma_lex_token_unfold(s, st);
}

/// `fits_from` by its definition, for use outside this module.
pub proof fn lemma_fits_from_unfold(s: Seq<u8>, st: LexState)
    ensures
        fits_from(s, st) == ({
            let l = lex_token(s, st);
            if l.token is EOF {
                true
            } else {
                token_fits(l.token) && fits_from(s, l.next)
            }
        }),
{
}

/// `lex_skipped` by its definition, for use outside this module.
pub proof fn lemma_lex_skipped_unfold(s: Seq<u8>, st: LexState)
    ensures
        lex_skipped(s, st) == ({
            let st1 = skip(s, st, SkipMode::Normal);
            match peek_at(s, st1.pos) {
                None => 0,
                Some(b) => if starts_token(b) {
                    0
                } else {
                    1 + lex_skipped(s, adv(s, st1))
                },
            }
        }),
{
}

/// `unknown_from` by its definition, for use outside this module.
pub proof fn lemma_unknown_from_unfold(s: Seq<u8>, st: LexState)
    ensures
        unknown_from(s, st) == ({
            let l = lex_token(s, st);
            if l.token is EOF {
                lex_skipped(s, st)
            } else {
                lex_skipped(s, st) + unknown_from(s, l.next)
            }
        }),
{
}

/// The value of a run of digits is not negative and grows as digits come.
pub proof fn lemma_digits_value_mono(s: Seq<u8>, a: int, b: int)
    requires
        a <= b,
        forall|i: int| a <= i < b ==> #[trigger] is_digit(s[i]),
    ensures
        digits_value(s, a, b) >= 0,
        digits_value(s, a, b + 1) >= digits_value(s, a, b) || !is_digit(s[b]),
    decreases b - a,
{
    if b > a {
        lemma_digits_value_mono(s, a, b - 1);
    }
}

// ---------------------------------------------------------------------------
// The scanner
// ---------------------------------------------------------------------------

fn ident_byte(b: u8) -> (r: bool)
    ensures
        r == is_ident_char(b),
{
    (65 <= b && b <= 90) || (97 <= b && b <= 122) || (48 <= b && b <= 57) || b == 95 || b == 36
}

/// Reads the tokens of a program, one at a time.
#[derive(Clone, Copy)]
pub struct Scanner<'a> {
    input: &'a [u8],
    pos: usize,
    line: usize,
    col: usize,
}

impl<'a> Scanner<'a> {
    /// The bytes being scanned.
    pub closed spec fn text(&self) -> Seq<u8> {
        self.input@
    }

    /// Where the scanner stands.
    pub closed spec fn state(&self) -> LexState {
        LexState { pos: self.pos as int, line: self.line as int, col: self.col as int }
    }

    /// The position stays within the input, and line and column can be counted without overflow.
    pub closed spec fn wf(&self) -> bool {
        &&& self.pos <= self.input@.len()
        &&& self.line <= self.pos + 1
        &&& self.col <= self.pos + 1
        &&& self.input@.len() < usize::MAX
    }

    /// A scanner at the start of `input`, line 1, column 1.
    pub fn new(input: &'a str) -> (r: Self)
        requires
            input.spec_bytes().len() < usize::MAX,
        ensures
            r.wf(),
            r.text() == input.spec_bytes(),
            r.state() == (LexState { pos: 0, line: 1, col: 1 }),
    {
        Self { input: input.as_bytes(), pos: 0, line: 1, col: 1 }
    }

    fn peek(&self) -> (r: Option<u8>)
        ensures
            r == peek_at(self.text(), self.state().pos),
    {
        if self.pos < self.input.len() {
            Some(self.input[self.pos])
        } else {
            None
        }
    }

    fn peek_second(&self) -> (r: Option<u8>)
        ensures
            r == peek_at(self.text(), self.state().pos + 1),
    {
        if self.pos < self.input.len() && self.pos + 1 < self.input.len() {
            Some(self.input[self.pos + 1])
        } else {
            None
        }
    }

    fn advance(&mut self) -> (r: Option<u8>)
        requires
            old(self).wf(),
        ensures
            final(self).wf(),
            final(self).text() == old(self).text(),
            final(self).state() == adv(old(self).text(), old(self).state()),
            r == peek_at(old(self).text(), old(self).state().pos),
    {
        let ch = self.peek();
        if let Some(c) = ch {
            self.pos = self.pos + 1;
            if c == 10 {
                self.line = self.line + 1;
                self.col = 1;
            } else {
                self.col = self.col + 1;
            }
        }
        ch
    }

    fn match_next(&mut self, expected: u8) -> (r: bool)
        requires
            old(self).wf(),
        ensures
            final(self).wf(),
            final(self).text() == old(self).text(),
            r == (peek_at(old(self).text(), old(self).state().pos) == Some(expected)),
            final(self).state() == (if r {
                LexState { pos: old(self).state().pos + 1, ..old(self).state() }
            } else {
                old(self).state()
            }),
    {
        if self.peek() == Some(expected) {
            self.pos = self.pos + 1;
            true
        } else {
            false
        }
    }

    fn skip_whitespace(&mut self)
        requires
            old(self).wf(),
        ensures
            final(self).wf(),
            final(self).text() == old(self).text(),
            final(self).state() == skip(old(self).text(), old(self).state(), SkipMode::Normal),
    {
        let ghost s = self.text();
        let ghost target = skip(s, self.state(), SkipMode::Normal);
        loop
            invariant
                self.wf(),
                self.text() == s,
                skip(s, self.state(), SkipMode::Normal) == target,
            ensures
                self.wf(),
                self.text() == s,
                self.state() == target,
            decreases s.len() - self.state().pos,
        {
            let ghost p0 = self.state().pos;
            match self.peek() {
                Some(b) => {
                    if b == 32 || b == 9 || b == 13 || b == 10 {
                        self.advance();
                    } else if b == 47 {
                        let second = self.peek_second();
                        if second == Some(47u8) {
                            // line comment
                            loop
                                invariant_except_break
                                    skip(s, self.state(), SkipMode::LineComment) == target,
                                invariant
                                    self.wf(),
                                    self.text() == s,
                                    self.state().pos > p0 || peek_at(s, self.state().pos) is Some,
                                    self.state().pos >= p0,
                                ensures
                                    self.wf(),
                                    self.text() == s,
                                    self.state().pos > p0,
                                    skip(s, self.state(), SkipMode::Normal) == target,
                                decreases s.len() - self.state().pos,
                            {
                                match self.peek() {
                                    Some(c) => {
                                        self.advance();
                                        if c == 10 {
                                            break;
                                        }
                                    },
                                    None => break,
                                }
                            }
                        } else if second == Some(42u8) {
                            // block comment
                            self.advance();
                            self.advance();
                            loop
                                invariant_except_break
                                    skip(s, self.state(), SkipMode::BlockComment) == target,
                                invariant
                                    self.wf(),
                                    self.text() == s,
                                    self.state().pos > p0,
                                ensures
                                    self.wf(),
                                    self.text() == s,
                                    self.state().pos > p0,
                                    skip(s, self.state(), SkipMode::Normal) == target,
                                decreases s.len() - self.state().pos,
                            {
                                let at_end = self.peek() == Some(42u8) && self.peek_second()
                                    == Some(47u8);
                                if at_end {
                                    self.advance();
                                    self.advance();
                                    break;
                                }
                                if self.advance().is_none() {
                                    break;
                                }
                            }
                        } else {
                            break;
                        }
                    } else {
                        break;
                    }
                },
                None => break,
            }
        }
    }

    /// Scans the next token; `None` when it is a number too large for an `i64`
    /// (the scanner has then moved past it all the same).
    fn scan(&mut self) -> (r: Option<SpannedToken>)
        requires
            old(self).wf(),
        ensures
            final(self).wf(),
            final(self).text() == old(self).text(),
            ({
                let l = lex_token(old(self).text(), old(self).state());
                &&& final(self).state() == l.next
                &&& match r {
                    Some(t) => token_fits(l.token) && t@ == (SSpanned {
                        token: l.token,
                        line: l.line,
                        col: l.col,
                    }),
                    None => !token_fits(l.token),
                }
            }),
        decreases old(self).text().len() - old(self).state().pos,
    {
        let ghost s = self.text();
        let ghost st0 = self.state();
        let line = self.line;
        let col = self.col;
        self.skip_whitespace();
        proof {
            lemma_skip_mono(s, st0, SkipMode::Normal);
        }
        let ghost st1 = self.state();
        let token: Token = match self.peek() {
            None => Token::EOF,
            Some(c) => {
                if 48 <= c && c <= 57 {
                    let start = self.pos;
                    let mut value: i64 = 0;
                    let mut overflow = false;
                    proof {
                        lemma_run_end(s, start as int, false);
                    }
                    while self.pos < self.input.len() && 48 <= self.input[self.pos]
                        && self.input[self.pos] <= 57
                        invariant
                            self.wf(),
                            self.text() == s,
                            start <= self.pos <= run_end(s, start as int, false),
                            run_end(s, self.pos as int, false) == run_end(s, start as int, false),
                            self.state() == (LexState {
                                pos: self.pos as int,
                                line: st1.line,
                                col: st1.col + (self.pos - start),
                            }),
                            forall|i: int| start <= i < self.pos ==> #[trigger] is_digit(s[i]),
                            !overflow ==> value == digits_value(s, start as int, self.pos as int),
                            overflow ==> digits_value(s, start as int, self.pos as int) > i64::MAX,
                        decreases s.len() - self.pos,
                    {
                        let d = self.input[self.pos] - 48;
                        proof {
                            lemma_digits_value_mono(s, start as int, self.pos as int);
                            lemma_run_end(s, self.pos + 1, false);
                        }
                        if !overflow {
                            let w: i128 = value as i128 * 10 + d as i128;
                            if w > i64::MAX as i128 {
                                overflow = true;
                            } else {
                                value = w as i64;
                            }
                        }
                        self.advance();
                    }
                    if overflow {
                        return None;
                    }
                    Token::Number(value)
                } else if (65 <= c && c <= 90) || (97 <= c && c <= 122) || c == 95 || c == 36 {
                    let start = self.pos;
                    let mut name = String::new();
                    proof {
                        lemma_run_end(s, start as int, true);
                    }
                    while self.pos < self.input.len() && ident_byte(self.input[self.pos])
                        invariant
                            self.wf(),
                            self.text() == s,
                            start <= self.pos <= run_end(s, start as int, true),
                            run_end(s, self.pos as int, true) == run_end(s, start as int, true),
                            self.state() == (LexState {
                                pos: self.pos as int,
                                line: st1.line,
                                col: st1.col + (self.pos - start),
                            }),
                            name@ == chars_of(s, start as int, self.pos as int),
                        decreases s.len() - self.pos,
                    {
                        let ch = self.input[self.pos];
                        proof {
                            lemma_run_end(s, self.pos + 1, true);
                        }
                        push_char(&mut name, ch as char);
                        assert(name@ =~= chars_of(s, start as int, self.pos + 1));
                        self.advance();
                    }
                    if name == crate::text::text_of("var") {
                        Token::Var
                    } else if name == crate::text::text_of("fn") {
                        Token::Fn
                    } else if name == crate::text::text_of("if") {
                        Token::If
                    } else if name == crate::text::text_of("elseif") {
                        Token::ElseIf
                    } else if name == crate::text::text_of("else") {
                        Token::Else
                    } else if name == crate::text::text_of("while") {
                        Token::While
                    } else if name == crate::text::text_of("return") {
                        Token::Return
                    } else {
                        Token::Ident(name)
                    }
                } else if c == 39 {
                    self.advance();
                    let ch = match self.advance() {
                        Some(92u8) => match self.advance() {
                            Some(98u8) => '\u{8}',
                            Some(102u8) => '\u{c}',
                            Some(110u8) => '\n',
                            Some(116u8) => '\t',
                            Some(114u8) => '\r',
                            Some(92u8) => '\\',
                            Some(39u8) => '\'',
                            Some(34u8) => '"',
                            _ => '?',
                        },
                        Some(b) => b as char,
                        None => '?',
                    };
                    self.advance();
                    Token::Char(ch)
                } else if c == 60 {
                    self.advance();
                    if self.match_next(61) {
                        Token::Le
                    } else {
                        Token::Lt
                    }
                } else if c == 62 {
                    self.advance();
                    if self.match_next(61) {
                        Token::Ge
                    } else {
                        Token::Gt
                    }
                } else {
                    let t = if c == 61 {
                        Token::Assign
                    } else if c == 35 {
                        Token::Neq
                    } else if c == 43 {
                        Token::Plus
                    } else if c == 45 {
                        Token::Minus
                    } else if c == 42 {
                        Token::Star
                    } else if c == 47 {
                        Token::Slash
                    } else if c == 37 {
                        Token::Percent
                    } else if c == 40 {
                        Token::LParen
                    } else if c == 41 {
                        Token::RParen
                    } else if c == 123 {
                        Token::LBrace
                    } else if c == 125 {
                        Token::RBrace
                    } else if c == 58 {
                        Token::Colon
                    } else if c == 59 {
                        Token::Semicolon
                    } else if c == 44 {
                        Token::Comma
                    } else {
                        // a byte that starts no token is skipped
                        self.advance();
                        return self.scan();
                    };
                    self.advance();
                    t
                }
            },
        };
        Some(SpannedToken { token, line, col })
    }

    /// The next token. Its line and column are where the scan began, before any
    /// blanks or comments were skipped.
    pub fn next_token(&mut self) -> (r: SpannedToken)
        requires
            old(self).wf(),
            token_fits(lex_token(old(self).text(), old(self).state()).token),
        ensures
            final(self).wf(),
            final(self).text() == old(self).text(),
            ({
                let l = lex_token(old(self).text(), old(self).state());
                &&& final(self).state() == l.next
                &&& r@ == (SSpanned { token: l.token, line: l.line, col: l.col })
            }),
    {
        match self.scan() {
            Some(t) => t,
            None => {
                proof {
                    assert(false);
                }
                SpannedToken { token: Token::EOF, line: 0, col: 0 }
            },
        }
    }

    /// Whether every number from here to the end of the input fits in an
    /// `i64` (the scanner cannot represent the others).
    pub fn numbers_fit(&self) -> (r: bool)
        requires
            self.wf(),
        ensures
            r == fits_from(self.text(), self.state()),
    {
        let ghost s = self.text();
        let mut probe = *self;
        loop
            invariant
                probe.wf(),
                probe.text() == s,
                self.text() == s,
                fits_from(s, probe.state()) == fits_from(s, self.state()),
            decreases s.len() - probe.state().pos,
        {
            let ghost before = probe.state();
            proof {
                lemma_lex_progress(s, before);
            }
            let ghost l = lex_token(s, before);
            assert(fits_from(s, before) == (l.token is EOF || (token_fits(l.token) && fits_from(
                s,
                l.next,
            ))));
            match probe.scan() {
                None => {
                    return false;
                },
                Some(t) => {
                    if let Token::EOF = t.token {
                        return true;
                    }
                },
            }
        }
    }

    /// How many bytes that start no token the scan of the next token skips.
    fn skipped_here(&self) -> (n: usize)
        requires
            self.wf(),
        ensures
            n == lex_skipped(self.text(), self.state()),
    {
        let ghost s = self.text();
        let mut probe = *self;
        let mut n: usize = 0;
        loop
            invariant
                probe.wf(),
                probe.text() == s,
                self.text() == s,
                n <= probe.state().pos,
                n + lex_skipped(s, probe.state()) == lex_skipped(s, self.state()),
            decreases s.len() - probe.state().pos,
        {
            let ghost before = probe.state();
            probe.skip_whitespace();
            proof {
                lemma_skip_mono(s, before, SkipMode::Normal);
            }
            match probe.peek() {
                None => {
                    return n;
                },
                Some(b) => {
                    let starts = (48 <= b && b <= 57) || (65 <= b && b <= 90) || (97 <= b && b
                        <= 122) || b == 95 || b == 36 || b == 39 || b == 60 || b == 62 || b == 61
                        || b == 35 || b == 43 || b == 45 || b == 42 || b == 47 || b == 37 || b == 40
                        || b == 41 || b == 123 || b == 125 || b == 58 || b == 59 || b == 44;
                    assert(starts == starts_token(b));
                    if starts {
                        return n;
                    }
                    probe.advance();
                    n = n + 1;
                },
            }
        }
    }

    /// How many bytes that start no token the scanner skips from here to the
    /// end of the input (it reports each of them).
    pub fn unknown_tokens(&self) -> (n: usize)
        requires
            self.wf(),
            fits_from(self.text(), self.state()),
        ensures
            n == unknown_from(self.text(), self.state()),
    {
        let ghost s = self.text();
        proof {
            lemma_unknown_bound(s, self.state());
        }
        let mut probe = *self;
        let mut count: usize = 0;
        loop
            invariant
                probe.wf(),
                probe.text() == s,
                self.text() == s,
                self.wf(),
                fits_from(s, probe.state()),
                count + unknown_from(s, probe.state()) == unknown_from(s, self.state()),
                unknown_from(s, self.state()) <= s.len() - self.state().pos,
            decreases s.len() - probe.state().pos,
        {
            let ghost before = probe.state();
            proof {
                lemma_lex_progress(s, before);
                lemma_fits_step(s, before);
            }
            let k = probe.skipped_here();
            let t = probe.next_token();
            count = count + k;
            if let Token::EOF = t.token {
                return count;
            }
        }
    }
}

} // verus!
