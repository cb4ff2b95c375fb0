//! The meaning of scanning, stated over the input's characters.
use vstd::prelude::*;
use crate::token::{TokenType, TokenView, LexerError, LexerStatus};
use crate::keywords::keywords;

verus! {

/// Characters skipped between tokens.
pub open spec fn is_blank(c: char) -> bool {
    c == ' ' || c == '\t' || c == '\r' || c == '\n'
}

/// Characters that each form an operator token on their own.
pub open spec fn is_operator(c: char) -> bool {
    c == '+' || c == '-' || c == '*' || c == '/' || c == '='
}

/// Characters of identifiers and keywords.
pub open spec fn is_word_char(c: char) -> bool {
    ('a' <= c && c <= 'z') || ('A' <= c && c <= 'Z') || c == '_'
}

pub open spec fn is_digit(c: char) -> bool {
    '0' <= c && c <= '9'
}

/// Characters that belong to some class of the language.
pub open spec fn is_allowed(c: char) -> bool {
    is_blank(c) || c == '{' || c == '}' || is_operator(c) || c == ';' || c == '"' || is_word_char(c)
        || is_digit(c)
}

/// Zero-based (line, column) of the character at index `i` of `s`.
pub open spec fn pos_of(s: Seq<char>, i: int) -> (nat, nat)
    decreases i,
{
    if i <= 0 {
        (0, 0)
    } else {
        let (line, col) = pos_of(s, i - 1);
        if s[i - 1] == '\n' {
            (line + 1, 0)
        } else {
            (line, col + 1)
        }
    }
}

/// The token of kind `kind` that spans `[a, e)` of `s`.
pub open spec fn token_at(s: Seq<char>, kind: TokenType, a: int, e: int) -> TokenView {
    TokenView { kind, text: s.subrange(a, e), line: pos_of(s, a).0, col: pos_of(s, a).1 }
}

/// The first index at or after `p` that holds no blank.
pub open spec fn skip_blank(s: Seq<char>, p: int) -> int
    decreases s.len() - p,
{
    if 0 <= p < s.len() && is_blank(s[p]) {
        skip_blank(s, p + 1)
    } else {
        p
    }
}

/// The end of the run of identifier characters that starts at `p`.
pub open spec fn word_end(s: Seq<char>, p: int) -> int
    decreases s.len() - p,
{
    if 0 <= p < s.len() && is_word_char(s[p]) {
        word_end(s, p + 1)
    } else {
        p
    }
}

/// The end of the run of digits that starts at `p`.
pub open spec fn digits_end(s: Seq<char>, p: int) -> int
    decreases s.len() - p,
{
    if 0 <= p < s.len() && is_digit(s[p]) {
        digits_end(s, p + 1)
    } else {
        p
    }
}

/// How the body of a string literal ends.
pub enum StrEnd {
    /// Closed by the quote just before this index.
    Closed(int),
    /// A backslash followed by the character at this index, which is no quote.
    BadEscape(int),
    /// The input ends inside the literal.
    Unterminated,
}

/// Scans the body of a string literal from index `i`; `escaped` says whether
/// the character before was a backslash.
pub open spec fn string_end(s: Seq<char>, i: int, escaped: bool) -> StrEnd
    decreases s.len() - i,
{
    if i < 0 || i >= s.len() {
        StrEnd::Unterminated
    } else if s[i] == '\\' {
        if i + 1 < s.len() && s[i + 1] != '"' {
            StrEnd::BadEscape(i + 1)
        } else {
            string_end(s, i + 1, true)
        }
    } else if s[i] == '"' && !escaped {
        StrEnd::Closed(i + 1)
    } else {
        string_end(s, i + 1, false)
    }
}

/// The outcome of one request for a token.
pub enum Step {
    /// A token of this kind spanning `[start, end)`.
    Emit(TokenType, int, int),
    /// The input is used up (also inside an unterminated string literal).
    Finished,
    /// The character at this index starts no token.
    Unrecognized(int),
    /// The character at this index follows a backslash in a string literal.
    BadEscape(int),
}

/// What a request for a token yields when scanning resumes at index `p`.
pub open spec fn step(s: Seq<char>, p: int) -> Step {
    let q = skip_blank(s, p);
    if q < 0 || q >= s.len() {
        Step::Finished
    } else {
        let c = s[q];
        if c == '{' {
            Step::Emit(TokenType::LParen, q, q + 1)
        } else if c == '}' {
            Step::Emit(TokenType::RParen, q, q + 1)
        } else if is_operator(c) {
            Step::Emit(TokenType::Operator, q, q + 1)
        } else if c == ';' {
            Step::Emit(TokenType::Semicolon, q, q + 1)
        } else if c == '"' {
            match string_end(s, q + 1, false) {
                StrEnd::Closed(e) => Step::Emit(TokenType::StringLiteral, q, e),
                StrEnd::BadEscape(i) => Step::BadEscape(i),
                StrEnd::Unterminated => Step::Finished,
            }
        } else if is_word_char(c) {
            let e = word_end(s, q + 1);
            if keywords().contains(s.subrange(q, e)) {
                Step::Emit(TokenType::Keyword, q, e)
            } else {
                Step::Emit(TokenType::Identifier, q, e)
            }
        } else if is_digit(c) {
            Step::Emit(TokenType::NumericLiteral, q, digits_end(s, q + 1))
        } else {
            Step::Unrecognized(q)
        }
    }
}

/// The status that a step which yields no token leaves behind.
pub open spec fn status_after(s: Seq<char>, st: Step) -> LexerStatus {
    match st {
        Step::Emit(..) => LexerStatus::Okay,
        Step::Finished => LexerStatus::EndOfStream,
        Step::Unrecognized(i) => LexerStatus::Error(
            LexerError::UnrecognizedStart {
                character: s[i],
                line: pos_of(s, i).0 as usize,
                col: pos_of(s, i).1 as usize,
            },
        ),
        Step::BadEscape(i) => LexerStatus::Error(
            LexerError::InvalidEscape {
                character: s[i],
                line: pos_of(s, i).0 as usize,
                col: pos_of(s, i).1 as usize,
            },
        ),
    }
}

/// The abstract state of a scanner: its input, the index of the first
/// character not yet part of a token or skipped, and its status.
pub struct LexerView {
    pub input: Seq<char>,
    pub cursor: nat,
    pub status: LexerStatus,
}

/// One request for a token: the token it yields, if any, and the scanner's
/// state afterwards. A scanner that has stopped stays as it is.
pub open spec fn advance(v: LexerView) -> (Option<TokenView>, LexerView) {
    if v.status is Okay {
        match step(v.input, v.cursor as int) {
            Step::Emit(kind, a, e) => (
                Some(token_at(v.input, kind, a, e)),
                LexerView { input: v.input, cursor: e as nat, status: LexerStatus::Okay },
            ),
            other => (
                None,
                LexerView {
                    input: v.input,
                    cursor: skip_blank(v.input, v.cursor as int) as nat,
                    status: status_after(v.input, other),
                },
            ),
        }
    } else {
        (None, v)
    }
}

/// The scanner's state after `n` requests for a token.
pub open spec fn after_calls(v: LexerView, n: nat) -> LexerView
    decreases n,
{
    if n == 0 {
        v
    } else {
        after_calls(advance(v).1, (n - 1) as nat)
    }
}

/// From index `p` on, every character outside string literals belongs to
/// some class of the language, and inside each literal every backslash is
/// followed by a quote. The body of a literal may hold any other character,
/// and a literal may run to the end of the input.
pub open spec fn lexically_valid(s: Seq<char>, p: int) -> bool
    decreases s.len() - p,
    via lexically_valid_decreases
{
    if p < 0 || p >= s.len() {
        true
    } else if s[p] == '"' {
        match string_end(s, p + 1, false) {
            StrEnd::Closed(e) => lexically_valid(s, e),
            StrEnd::BadEscape(_) => false,
            StrEnd::Unterminated => true,
        }
    } else {
        is_allowed(s[p]) && lexically_valid(s, p + 1)
    }
}

#[via_fn]
proof fn lexically_valid_decreases(s: Seq<char>, p: int) {
    if 0 <= p < s.len() {
        lemma_string_end(s, p + 1, false);
    }
}

/// A fresh scanner over `s`.
pub open spec fn initial_view(s: Seq<char>) -> LexerView {
    LexerView { input: s, cursor: 0, status: LexerStatus::Okay }
}

/// The tokens, as (kind, start, end), that scanning from index `p` yields
/// until it stops, and the step that stops it.
pub open spec fn scan_from(s: Seq<char>, p: int) -> (Seq<(TokenType, int, int)>, Step)
    decreases s.len() - p,
    via scan_from_decreases
{
    if 0 <= p <= s.len() {
        match step(s, p) {
            Step::Emit(k, a, e) => {
                let (rest, stop) = scan_from(s, e);
                (seq![(k, a, e)] + rest, stop)
            },
            other => (Seq::empty(), other),
        }
    } else {
        (Seq::empty(), Step::Finished)
    }
}

#[via_fn]
proof fn scan_from_decreases(s: Seq<char>, p: int) {
    if 0 <= p <= s.len() {
        lemma_step_advances(s, p);
    }
}

/// Both coordinates of a position are at most its index.
pub proof fn lemma_pos_bounded(s: Seq<char>, i: int)
    requires
        0 <= i,
    ensures
        pos_of(s, i).0 <= i,
        pos_of(s, i).1 <= i,
    decreases i,
{
    if i > 0 {
        lemma_pos_bounded(s, i - 1);
    }
}

/// Across a stretch without line breaks only the column moves, by the
/// stretch's length.
pub proof fn lemma_pos_same_line(s: Seq<char>, a: int, b: int)
    requires
        0 <= a <= b <= s.len(),
        forall|i: int| a <= i < b ==> #[trigger] s[i] != '\n',
    ensures
        pos_of(s, b) == (pos_of(s, a).0, (pos_of(s, a).1 + (b - a)) as nat),
    decreases b - a,
{
    if a < b {
        lemma_pos_same_line(s, a, b - 1);
    }
}

proof fn lemma_skip_blank(s: Seq<char>, p: int)
    requires
        0 <= p <= s.len(),
    ensures
        p <= skip_blank(s, p) <= s.len(),
        forall|i: int| p <= i < skip_blank(s, p) ==> is_blank(#[trigger] s[i]),
        skip_blank(s, p) < s.len() ==> !is_blank(s[skip_blank(s, p)]),
    decreases s.len() - p,
{
    if p < s.len() && is_blank(s[p]) {
        lemma_skip_blank(s, p + 1);
    }
}

proof fn lemma_word_end(s: Seq<char>, p: int)
    requires
        0 <= p <= s.len(),
    ensures
        p <= word_end(s, p) <= s.len(),
        forall|i: int| p <= i < word_end(s, p) ==> is_word_char(#[trigger] s[i]),
        word_end(s, p) < s.len() ==> !is_word_char(s[word_end(s, p)]),
    decreases s.len() - p,
{
    if p < s.len() && is_word_char(s[p]) {
        lemma_word_end(s, p + 1);
    }
}

proof fn lemma_digits_end(s: Seq<char>, p: int)
    requires
        0 <= p <= s.len(),
    ensures
        p <= digits_end(s, p) <= s.len(),
        forall|i: int| p <= i < digits_end(s, p) ==> is_digit(#[trigger] s[i]),
    decreases s.len() - p,
{
    if p < s.len() && is_digit(s[p]) {
        lemma_digits_end(s, p + 1);
    }
}

proof fn lemma_string_end(s: Seq<char>, i: int, escaped: bool)
    requires
        0 <= i,
    ensures
        string_end(s, i, escaped) matches StrEnd::Closed(e) ==> i < e <= s.len() && s[e - 1] == '"',
        string_end(s, i, escaped) matches StrEnd::BadEscape(j) ==> i < j < s.len() && s[j - 1] == '\\',
    decreases s.len() - i,
{
    if i < s.len() {
        lemma_string_end(s, i + 1, true);
        lemma_string_end(s, i + 1, false);
    }
}

/// Each token that a step yields is non-empty and lies past `p`, within the input.
pub proof fn lemma_step_advances(s: Seq<char>, p: int)
    requires
        0 <= p <= s.len(),
    ensures
        step(s, p) matches Step::Emit(_, a, e) ==> p <= a < e <= s.len(),
        step(s, p) matches Step::Unrecognized(i) ==> p <= i < s.len(),
        step(s, p) matches Step::BadEscape(i) ==> p < i < s.len(),
{
    lemma_skip_blank(s, p);
    let q = skip_blank(s, p);
    if q < s.len() {
        lemma_string_end(s, q + 1, false);
        lemma_word_end(s, q + 1);
        lemma_digits_end(s, q + 1);
    }
}

proof fn lemma_no_backslash_no_bad_escape(s: Seq<char>, i: int, escaped: bool)
    requires
        0 <= i,
        forall|j: int| 0 <= j < s.len() ==> #[trigger] s[j] != '\\',
    ensures
        !(string_end(s, i, escaped) is BadEscape),
    decreases s.len() - i,
{
    if i < s.len() {
        lemma_no_backslash_no_bad_escape(s, i + 1, false);
        lemma_no_backslash_no_bad_escape(s, i + 1, true);
    }
}

/// Every token that scanning from `p` yields is non-empty, lies within the
/// input past `p`, and starts at or after the end of the one before it.
pub proof fn lemma_tokens_in_order(s: Seq<char>, p: int)
    requires
        0 <= p <= s.len(),
    ensures
        forall|i: int|
            0 <= i < scan_from(s, p).0.len() ==> p <= (#[trigger] scan_from(s, p).0[i]).1
                < scan_from(s, p).0[i].2 <= s.len(),
        forall|i: int|
            0 <= i < scan_from(s, p).0.len() - 1 ==> (#[trigger] scan_from(s, p).0[i]).2
                <= scan_from(s, p).0[i + 1].1,
    decreases s.len() - p,
{
    lemma_step_advances(s, p);
    if let Step::Emit(k, a, e) = step(s, p) {
        lemma_tokens_in_order(s, e);
        let rest = scan_from(s, e).0;
        let all = scan_from(s, p).0;
        assert(all == seq![(k, a, e)] + rest);
        assert forall|i: int| 0 <= i < all.len() implies p <= (#[trigger] all[i]).1 < all[i].2
            <= s.len() by {
            if i > 0 {
                assert(all[i] == rest[i - 1]);
            }
        }
        assert forall|i: int| 0 <= i < all.len() - 1 implies (#[trigger] all[i]).2 <= all[i
            + 1].1 by {
            assert(all[i + 1] == rest[i]);
            if i > 0 {
                assert(all[i] == rest[i - 1]);
            }
        }
    }
}

/// A word token is the whole run of letters and underscores that starts it,
/// and it is a keyword exactly when that run is one of the reserved words;
/// any other run is an identifier.
pub proof fn lemma_word_token(s: Seq<char>, p: int, kind: TokenType, a: int, e: int)
    requires
        0 <= p <= s.len(),
        step(s, p) == Step::Emit(kind, a, e),
        kind == TokenType::Keyword || kind == TokenType::Identifier,
    ensures
        kind == TokenType::Keyword <==> keywords().contains(s.subrange(a, e)),
        forall|i: int| a <= i < e ==> is_word_char(#[trigger] s[i]),
        e == s.len() || !is_word_char(s[e]),
{
    lemma_skip_blank(s, p);
    let q = skip_blank(s, p);
    lemma_word_end(s, q + 1);
    lemma_string_end(s, q + 1, false);
}

/// The whole-run form of determinism: two scans of equal inputs yield the
/// same tokens and stop in the same way.
pub proof fn lemma_scan_deterministic(a: Seq<char>, b: Seq<char>)
    requires
        a == b,
    ensures
        scan_from(a, 0) == scan_from(b, 0),
{
}

/// Validity carries across a stretch without quotes, whose characters are
/// then all allowed.
proof fn lemma_valid_across(s: Seq<char>, p: int, r: int)
    requires
        0 <= p <= r <= s.len(),
        lexically_valid(s, p),
        forall|i: int| p <= i < r ==> #[trigger] s[i] != '"',
    ensures
        lexically_valid(s, r),
        forall|i: int| p <= i < r ==> is_allowed(#[trigger] s[i]),
    decreases r - p,
{
    if p < r {
        lemma_valid_across(s, p + 1, r);
    }
}

/// On valid input a request for a token yields a token after which the input
/// is still valid, or finds the input used up.
proof fn lemma_valid_step(s: Seq<char>, p: int)
    requires
        0 <= p <= s.len(),
        lexically_valid(s, p),
    ensures
        step(s, p) is Emit || step(s, p) is Finished,
        step(s, p) matches Step::Emit(_, a, e) ==> p <= a < e <= s.len() && lexically_valid(s, e),
{
    lemma_step_advances(s, p);
    lemma_skip_blank(s, p);
    let q = skip_blank(s, p);
    lemma_valid_across(s, p, q);
    if q < s.len() {
        let c = s[q];
        lemma_word_end(s, q + 1);
        lemma_digits_end(s, q + 1);
        if c != '"' {
            assert(is_allowed(c) && lexically_valid(s, q + 1));
        }
        if is_word_char(c) {
            lemma_valid_across(s, q + 1, word_end(s, q + 1));
        } else if is_digit(c) {
            lemma_valid_across(s, q + 1, digits_end(s, q + 1));
        }
    }
}

/// Valid input never fails to scan: from any point, scanning ends with the
/// input used up.
pub proof fn lemma_valid_input_never_fails(s: Seq<char>, p: int)
    requires
        0 <= p <= s.len(),
        lexically_valid(s, p),
    ensures
        scan_from(s, p).1 == Step::Finished,
    decreases s.len() - p,
{
    lemma_valid_step(s, p);
    if let Step::Emit(_, _, e) = step(s, p) {
        lemma_valid_input_never_fails(s, e);
    }
}

/// After `k` requests on valid input `s`, a scanner is still going with its
/// cursor at `k` or later on a valid suffix, or has reached the end.
pub open spec fn settled(s: Seq<char>, v: LexerView, k: nat) -> bool {
    &&& v.input == s
    &&& (v.status is Okay && k <= v.cursor <= s.len() && lexically_valid(s, v.cursor as int))
        || v.status is EndOfStream
}

proof fn lemma_settled_calls(s: Seq<char>, v: LexerView, k: nat, n: nat)
    requires
        settled(s, v, k),
    ensures
        settled(s, after_calls(v, n), k + n),
    decreases n,
{
    if n > 0 {
        let w = advance(v).1;
        if v.status is Okay {
            lemma_valid_step(s, v.cursor as int);
        }
        assert(settled(s, w, k + 1));
        lemma_settled_calls(s, w, k + 1, (n - 1) as nat);
    }
}

/// On valid input, however many tokens are requested from a fresh scanner,
/// it never reaches an error; after one request more than the input has
/// characters it has reached the end of the input.
pub proof fn lemma_valid_input_calls(s: Seq<char>, n: nat)
    requires
        lexically_valid(s, 0),
    ensures
        !(after_calls(initial_view(s), n).status is Error),
        n > s.len() ==> after_calls(initial_view(s), n).status is EndOfStream,
{
    lemma_settled_calls(s, initial_view(s), 0, n);
}

/// Scanning depends on the input alone: two fresh scanners over equal
/// inputs, after the same number of requests, are in the same state and
/// answer the next request alike.
pub proof fn lemma_same_input_same_calls(a: Seq<char>, b: Seq<char>, n: nat)
    requires
        a == b,
    ensures
        after_calls(initial_view(a), n) == after_calls(initial_view(b), n),
        advance(after_calls(initial_view(a), n)) == advance(after_calls(initial_view(b), n)),
{
}

} // verus!
