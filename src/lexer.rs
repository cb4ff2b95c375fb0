//! The scanning engine: reads the input one character at a time through a
//! small lookahead buffer and produces one token per request.
use vstd::prelude::*;
use std::collections::VecDeque;
use crate::token::{Token, TokenType, TokenView, LexerError, LexerStatus};
use crate::keywords::is_keyword;
use crate::model::{
    LexerView, advance, pos_of, token_at, step, status_after, scan_from, Step, StrEnd, string_end, skip_blank, word_end,
    digits_end, is_word_char, is_digit, lemma_pos_bounded, lemma_pos_same_line,
};

verus! {

/// A scanner over one input text. Tokens borrow their text from that input.
pub struct Lexer<'input> {
    status: LexerStatus,
    text: &'input str,
    /// The number of characters of `text`.
    len: usize,
    /// The index in `text` of the first character not yet read or buffered.
    next: usize,
    /// Characters read ahead of the scan, handed out before `text` again.
    buf: VecDeque<char>,
    offset: usize,
    line: usize,
    col: usize,
}

impl<'input> View for Lexer<'input> {
    type V = LexerView;

    closed spec fn view(&self) -> LexerView {
        LexerView { input: self.text@, cursor: self.offset as nat, status: self.status }
    }
}

impl<'input> Lexer<'input> {
    /// The characters still to be read: the buffer, then the source.
    spec fn stream(&self) -> Seq<char> {
        self.buf@ + self.source_left()
    }

    /// The characters of the input not yet moved into the buffer or read.
    spec fn source_left(&self) -> Seq<char> {
        self.text@.subrange(self.next as int, self.text@.len() as int)
    }

    /// The characters read ahead and held for the next reads.
    pub closed spec fn lookahead(&self) -> Seq<char> {
        self.buf@
    }

    /// The input and the cursor are as in `other`, and the read position lies
    /// within the input.
    spec fn same_place(&self, other: &Self) -> bool {
        &&& self.text == other.text
        &&& self.len == other.len
        &&& self.len == self.text@.len()
        &&& self.offset == other.offset
        &&& self.line == other.line
        &&& self.col == other.col
        &&& self.next <= self.len
    }

    /// The source holds the input, and `line`/`col` give the cursor's position.
    spec fn anchored(&self) -> bool {
        &&& self.len == self.text@.len()
        &&& self.next <= self.len
        &&& self.offset <= self.text@.len() <= usize::MAX
        &&& pos_of(self.text@, self.offset as int) == (self.line as nat, self.col as nat)
    }

    /// Scanning goes on and the character at the cursor has just been read.
    spec fn started(&self) -> bool {
        &&& self.anchored()
        &&& self.status is Okay
        &&& self.offset < self.text@.len()
        &&& self.stream() == self.text@.subrange(self.offset + 1, self.text@.len() as int)
    }

    /// The cursor lies within the input and `line`/`col` give its position;
    /// while scanning goes on, what is left to read is the input past the cursor.
    pub closed spec fn wf(&self) -> bool {
        &&& self.anchored()
        &&& self.status is Okay ==> self.stream() == self.text@.subrange(
            self.offset as int,
            self.text@.len() as int,
        )
    }

    /// Creates a scanner at the start of `text`.
    pub fn new(text: &'input str) -> (r: Self)
        requires
            text@.len() <= usize::MAX,
        ensures
            r.wf(),
            r@ == (LexerView { input: text@, cursor: 0, status: LexerStatus::Okay }),
            r.lookahead().len() == 0,
    {
        let r = Lexer {
            status: LexerStatus::Okay,
            text,
            len: text.unicode_len(),
            next: 0,
            buf: VecDeque::new(),
            offset: 0,
            line: 0,
            col: 0,
        };
        assert(r.stream() =~= text@.subrange(0, text@.len() as int));
        r
    }

    /// The status: `Okay` while tokens may still come, else why they stopped.
    pub fn status(&self) -> (r: &LexerStatus)
        ensures
            *r == self@.status,
    {
        &self.status
    }

    /// Takes the next character from the source, past the buffer.
    fn read_source(&mut self) -> (r: Option<char>)
        requires
            old(self).next <= old(self).len,
            old(self).len == old(self).text@.len(),
        ensures
            final(self).same_place(old(self)),
            final(self).status == old(self).status,
            final(self).buf == old(self).buf,
            old(self).source_left().len() > 0 ==> r == Some(old(self).source_left()[0])
                && final(self).source_left() == old(self).source_left().drop_first(),
            old(self).source_left().len() == 0 ==> r is None && final(self).source_left()
                == old(self).source_left(),
    {
        if self.next < self.len {
            let c = self.text.get_char(self.next);
            self.next = self.next + 1;
            assert(self.source_left() =~= old(self).source_left().drop_first());
            Some(c)
        } else {
            None
        }
    }

    /// Takes the next character from the buffer or else from the source.
    /// Once scanning has stopped it yields `None` and changes nothing; when
    /// both are exhausted it yields `None` and the status becomes `EndOfStream`.
    fn next_char(&mut self) -> (r: Option<char>)
        requires
            old(self).next <= old(self).len,
            old(self).len == old(self).text@.len(),
        ensures
            final(self).same_place(old(self)),
            !(old(self).status is Okay) ==> {
                &&& r is None
                &&& final(self).status == old(self).status
                &&& final(self).buf == old(self).buf
                &&& final(self).next == old(self).next
            },
            old(self).status is Okay && old(self).stream().len() > 0 ==> {
                &&& r == Some(old(self).stream()[0])
                &&& final(self).stream() == old(self).stream().drop_first()
                &&& final(self).status is Okay
            },
            old(self).status is Okay && old(self).stream().len() == 0 ==> {
                &&& r is None
                &&& final(self).stream() == old(self).stream()
                &&& final(self).status is EndOfStream
            },
    {
        match self.status {
            LexerStatus::Okay => {},
            _ => {
                return None;
            },
        }
        if self.buf.len() > 0 {
            let r = self.buf.pop_front();
            assert(self.stream() =~= old(self).stream().drop_first());
            r
        } else {
            assert(old(self).stream() =~= old(self).source_left());
            let r = self.read_source();
            if r.is_none() {
                self.status = LexerStatus::EndOfStream;
            }
            r
        }
    }

    /// The character `ahead` places down the stream (1 is the next one),
    /// without consuming anything.
    fn look_ahead(&mut self, ahead: usize) -> (r: Option<char>)
        requires
            old(self).next <= old(self).len,
            old(self).len == old(self).text@.len(),
        ensures
            final(self).same_place(old(self)),
            final(self).status == old(self).status,
            final(self).stream() == old(self).stream(),
            final(self).buf@.len() == (if old(self).buf@.len() >= ahead {
                old(self).buf@.len()
            } else if ahead <= old(self).stream().len() {
                ahead as nat
            } else {
                old(self).stream().len()
            }),
            r == (if 0 < ahead <= old(self).stream().len() {
                Some(old(self).stream()[ahead - 1])
            } else {
                None
            }),
    {
        let mut end = false;
        while !end && self.buf.len() < ahead
            invariant
                self.same_place(old(self)),
                self.status == old(self).status,
                self.stream() == old(self).stream(),
                self.buf@.len() >= old(self).buf@.len(),
                self.buf@.len() > old(self).buf@.len() ==> self.buf@.len() <= ahead,
                end ==> self.source_left().len() == 0 && self.buf@.len() < ahead,
            decreases ahead - self.buf@.len() + (if end { 0int } else { 1int }),
        {
            let ghost before = self.stream();
            match self.read_source() {
                Some(ch) => {
                    self.buf.push_back(ch);
                    assert(self.stream() =~= before);
                },
                None => {
                    end = true;
                },
            }
        }
        if !end && ahead > 0 {
            Some(self.buf[ahead - 1])
        } else {
            None
        }
    }

    /// Makes the token of kind `kind` that spans `len` characters from the
    /// cursor, and moves the cursor past it, to (`line`, `col`).
    fn emit(&mut self, kind: TokenType, len: usize, line: usize, col: usize) -> (r: Token<'input>)
        requires
            old(self).anchored(),
            old(self).offset + len <= old(self).text@.len(),
        ensures
            r@ == token_at(
                old(self).text@,
                kind,
                old(self).offset as int,
                old(self).offset + len,
            ),
            final(self).text == old(self).text,
            final(self).len == old(self).len,
            final(self).next == old(self).next,
            final(self).buf == old(self).buf,
            final(self).status == old(self).status,
            final(self).offset == old(self).offset + len,
            final(self).line == line,
            final(self).col == col,
    {
        let text = self.text.substring_char(self.offset, self.offset + len);
        let t = Token::new(kind, text, self.line, self.col);
        self.offset = self.offset + len;
        self.line = line;
        self.col = col;
        t
    }

    /// After the first character of an identifier (or, with `digits`, of a
    /// number) has been read: reads the rest of the run, looking one character
    /// ahead so that the one that ends it stays unread, and returns the run's
    /// length. The cursor and the status stay.
    fn scan_run(&mut self, digits: bool) -> (len: usize)
        requires
            old(self).started(),
            in_class(old(self).text@[old(self).offset as int], digits),
        ensures
            final(self).anchored(),
            final(self).same_place(old(self)),
            final(self).status is Okay,
            old(self).offset < old(self).offset + len <= old(self).text@.len(),
            old(self).offset + len == run_end(old(self).text@, old(self).offset + 1, digits),
            final(self).stream() == old(self).text@.subrange(
                old(self).offset + len,
                old(self).text@.len() as int,
            ),
            forall|i: int|
                old(self).offset <= i < old(self).offset + len ==> #[trigger] old(self).text@[i]
                    != '\n',
    {
        let ghost s = self.text@;
        let ghost start = self.offset as int;
        let mut len: usize = 1;
        loop
            invariant
                self.same_place(old(self)),
                self.anchored(),
                self.status is Okay,
                1 <= len,
                start + len <= s.len(),
                s == self.text@,
                start == self.offset,
                self.stream() == s.subrange(start + len, s.len() as int),
                run_end(s, start + 1, digits) == run_end(s, start + len, digits),
                forall|i: int| start <= i < start + len ==> #[trigger] s[i] != '\n',
            decreases s.len() - (start + len),
        {
            match self.look_ahead(1) {
                Some(c) => {
                    if char_in_class(c, digits) {
                        let _ = self.next_char();
                        len = len + 1;
                    } else {
                        return len;
                    }
                },
                None => {
                    return len;
                },
            }
        }
    }

    /// After the opening quote of a string literal has been read: reads the
    /// literal through its closing quote and makes its token, or stops at a
    /// bad escape or at the end of the input.
    fn scan_string(&mut self) -> (r: Option<Token<'input>>)
        requires
            old(self).started(),
            old(self).text@[old(self).offset as int] == '"',
        ensures
            final(self).wf(),
            final(self).text == old(self).text,
            match string_end(old(self).text@, old(self).offset + 1, false) {
                StrEnd::Closed(e) => {
                    &&& r matches Some(t) && t@ == token_at(
                        old(self).text@,
                        TokenType::StringLiteral,
                        old(self).offset as int,
                        e,
                    )
                    &&& final(self).offset == e
                    &&& final(self).status is Okay
                },
                StrEnd::BadEscape(i) => {
                    &&& r is None
                    &&& final(self).status == status_after(old(self).text@, Step::BadEscape(i))
                    &&& final(self).offset == old(self).offset
                },
                StrEnd::Unterminated => {
                    &&& r is None
                    &&& final(self).status is EndOfStream
                    &&& final(self).offset == old(self).offset
                },
            },
    {
        let ghost s = self.text@;
        let ghost start = self.offset as int;
        let mut len: usize = 1;
        let mut escaped = false;
        proof {
            lemma_pos_bounded(s, start + 1);
        }
        let mut line = self.line;
        let mut col = self.col + 1;
        loop
            invariant
                self.same_place(old(self)),
                self.anchored(),
                self.status is Okay,
                1 <= len,
                start + len <= s.len(),
                s == self.text@,
                start == self.offset,
                self.stream() == s.subrange(start + len, s.len() as int),
                string_end(s, start + 1, false) == string_end(s, start + len, escaped),
                pos_of(s, start + len) == (line as nat, col as nat),
            decreases s.len() - (start + len),
        {
            let c = match self.next_char() {
                Some(c) => c,
                None => {
                    return None;
                },
            };
            proof {
                lemma_pos_bounded(s, start + len + 1);
            }
            if c == '\\' {
                match self.look_ahead(1) {
                    Some(la) => {
                        if la != '"' {
                            self.status = LexerStatus::Error(
                                LexerError::InvalidEscape { character: la, line, col: col + 1 },
                            );
                            return None;
                        }
                    },
                    None => {},
                }
                escaped = true;
            } else if c == '"' && !escaped {
                let t = self.emit(TokenType::StringLiteral, len + 1, line, col + 1);
                assert(self.stream() =~= s.subrange(self.offset as int, s.len() as int));
                return Some(t);
            } else {
                escaped = false;
            }
            len = len + 1;
            if c == '\n' {
                line = line + 1;
                col = 0;
            } else {
                col = col + 1;
            }
        }
    }

    /// Produces every token left, in order, until scanning stops; `status`
    /// then says why it stopped.
    pub fn collect_tokens(&mut self) -> (r: Vec<Token<'input>>)
        requires
            old(self).wf(),
        ensures
            final(self).wf(),
            final(self)@.input == old(self)@.input,
            !(old(self)@.status is Okay) ==> r@.len() == 0 && final(self)@ == old(self)@,
            old(self)@.status is Okay ==> tokens_are(
                r@,
                old(self)@.input,
                scan_from(old(self)@.input, old(self)@.cursor as int).0,
            ) && final(self)@.status == status_after(
                old(self)@.input,
                scan_from(old(self)@.input, old(self)@.cursor as int).1,
            ),
    {
        let ghost s = self@.input;
        let ghost p = self@.cursor as int;
        let ghost mut done: Seq<(TokenType, int, int)> = Seq::empty();
        let mut out: Vec<Token<'input>> = Vec::new();
        loop
            invariant
                self.wf(),
                self@.input == s,
                s == old(self)@.input,
                p == old(self)@.cursor,
                !(old(self)@.status is Okay) ==> out@.len() == 0 && self@ == old(self)@,
                old(self)@.status is Okay ==> {
                    &&& self@.status is Okay
                    &&& tokens_are(out@, s, done)
                    &&& scan_from(s, p).0 == done + scan_from(s, self@.cursor as int).0
                    &&& scan_from(s, p).1 == scan_from(s, self@.cursor as int).1
                },
            decreases s.len() - self@.cursor,
        {
            let ghost at = self@.cursor as int;
            proof {
                crate::model::lemma_step_advances(s, at);
            }
            match self.next_token() {
                Some(t) => {
                    proof {
                        if let Step::Emit(kind, a, e) = step(s, at) {
                            let triple = (kind, a, e);
                            assert(scan_from(s, at).0 == seq![triple] + scan_from(s, e).0);
                            assert(done.push(triple) + scan_from(s, e).0 =~= done + scan_from(
                                s,
                                at,
                            ).0);
                            done = done.push(triple);
                        }
                    }
                    out.push(t);
                },
                None => {
                    return out;
                },
            }
        }
    }

    /// Produces the next token, or `None` once the input is used up or a
    /// lexical error is found; `status` then says which. After that every
    /// call returns `None` and changes nothing.
    pub fn next_token(&mut self) -> (r: Option<Token<'input>>)
        requires
            old(self).wf(),
        ensures
            final(self).wf(),
            final(self)@.input == old(self)@.input,
            (token_view(r), final(self)@) == advance(old(self)@),
    {
        match self.status {
            LexerStatus::Okay => {},
            _ => {
                return None;
            },
        }
        let ghost s = self.text@;
        let ghost begin = self.offset as int;
        loop
            invariant
                self.wf(),
                self.status is Okay,
                old(self).status is Okay,
                s == self.text@,
                self.text == old(self).text,
                begin == old(self).offset,
                begin <= self.offset,
                skip_blank(s, self.offset as int) == skip_blank(s, begin),
            decreases s.len() - self.offset,
        {
            let ghost at = self.offset as int;
            let ch = match self.next_char() {
                Some(c) => c,
                None => {
                    return None;
                },
            };
            assert(ch == s[at]);
            assert(self.stream() =~= s.subrange(at + 1, s.len() as int));
            proof {
                lemma_pos_bounded(s, at + 1);
            }
            if ch == '\n' {
                self.offset = self.offset + 1;
                self.line = self.line + 1;
                self.col = 0;
            } else if ch == ' ' || ch == '\t' || ch == '\r' {
                self.offset = self.offset + 1;
                self.col = self.col + 1;
            } else if ch == '{' {
                return Some(self.emit(TokenType::LParen, 1, self.line, self.col + 1));
            } else if ch == '}' {
                return Some(self.emit(TokenType::RParen, 1, self.line, self.col + 1));
            } else if ch == '+' || ch == '-' || ch == '*' || ch == '/' || ch == '=' {
                return Some(self.emit(TokenType::Operator, 1, self.line, self.col + 1));
            } else if ch == ';' {
                return Some(self.emit(TokenType::Semicolon, 1, self.line, self.col + 1));
            } else if ch == '"' {
                return self.scan_string();
            } else if char_in_class(ch, false) || char_in_class(ch, true) {
                let digits = char_in_class(ch, true);
                let len = self.scan_run(digits);
                proof {
                    lemma_pos_same_line(s, at, at + len);
                    lemma_pos_bounded(s, at + len);
                }
                let kind = if digits {
                    TokenType::NumericLiteral
                } else if is_keyword(self.text.substring_char(self.offset, self.offset + len)) {
                    TokenType::Keyword
                } else {
                    TokenType::Identifier
                };
                let (line, col) = (self.line, self.col + len);
                return Some(self.emit(kind, len, line, col));
            } else {
                self.status = LexerStatus::Error(
                    LexerError::UnrecognizedStart { character: ch, line: self.line, col: self.col },
                );
                return None;
            }
            assert(self.stream() =~= s.subrange(self.offset as int, s.len() as int));
        }
    }

}

/// The view of a token that may be absent.
pub open spec fn token_view(r: Option<Token>) -> Option<TokenView> {
    match r {
        Some(t) => Some(t@),
        None => None,
    }
}

/// `toks` are, one for one, the tokens that the triples `ts` describe in `s`.
pub open spec fn tokens_are(toks: Seq<Token>, s: Seq<char>, ts: Seq<(TokenType, int, int)>) -> bool {
    &&& toks.len() == ts.len()
    &&& forall|i: int| 0 <= i < ts.len() ==> (#[trigger] toks[i])@ == token_at(s, ts[i].0, ts[i].1, ts[i].2)
}

/// Whether `c` belongs to a run of digits (`digits`) or of identifier characters.
spec fn in_class(c: char, digits: bool) -> bool {
    if digits {
        is_digit(c)
    } else {
        is_word_char(c)
    }
}

/// Where the run of the class that starts at `p` ends.
spec fn run_end(s: Seq<char>, p: int, digits: bool) -> int {
    if digits {
        digits_end(s, p)
    } else {
        word_end(s, p)
    }
}

fn char_in_class(c: char, digits: bool) -> (r: bool)
    ensures
        r == in_class(c, digits),
{
    if digits {
        '0' <= c && c <= '9'
    } else {
        ('a' <= c && c <= 'z') || ('A' <= c && c <= 'Z') || c == '_'
    }
}

} // verus!
