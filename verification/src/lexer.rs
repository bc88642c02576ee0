use vstd::prelude::*;
use vstd::utf8::{char_is_scalar, encode_scalar, encode_utf8};

use crate::text::push_char;

verus! {

// ---------------------------------------------------------------------------
// Character classes
// ---------------------------------------------------------------------------

/// What `char::is_whitespace` returns: whether the character has the Unicode
/// `White_Space` property.
pub uninterp spec fn char_is_whitespace(c: char) -> bool;

/// What `char::is_alphabetic` returns: whether the character has the Unicode
/// `Alphabetic` property.
pub uninterp spec fn char_is_alphabetic(c: char) -> bool;

/// What `char::is_alphanumeric` returns: whether the character is alphabetic
/// or numeric in the sense of Unicode.
pub uninterp spec fn char_is_alphanumeric(c: char) -> bool;

/// Calls `char::is_whitespace`; claims only that the result is the value of
/// [`char_is_whitespace`] at `c`.
#[verifier::external_body]
fn is_whitespace(c: char) -> (res: bool)
    ensures
        res == char_is_whitespace(c),
{
    c.is_whitespace()
}

/// Calls `char::is_alphabetic`; claims only that the result is the value of
/// [`char_is_alphabetic`] at `c`.
#[verifier::external_body]
fn is_alphabetic(c: char) -> (res: bool)
    ensures
        res == char_is_alphabetic(c),
{
    c.is_alphabetic()
}

/// Calls `char::is_alphanumeric`; claims only that the result is the value of
/// [`char_is_alphanumeric`] at `c`.
#[verifier::external_body]
fn is_alphanumeric(c: char) -> (res: bool)
    ensures
        res == char_is_alphanumeric(c),
{
    c.is_alphanumeric()
}

/// A character that can begin an identifier.
pub open spec fn ident_start(c: char) -> bool {
    char_is_alphabetic(c) || c == '_'
}

/// A character that can continue an identifier.
pub open spec fn ident_continue(c: char) -> bool {
    char_is_alphanumeric(c) || c == '_'
}

// ---------------------------------------------------------------------------
// Byte offsets
// ---------------------------------------------------------------------------

/// The number of bytes of the UTF-8 encoding of `c`.
pub open spec fn utf8_width(c: char) -> nat {
    let v = c as u32;
    if v <= 0x7F {
        1
    } else if v <= 0x7FF {
        2
    } else if v <= 0xFFFF {
        3
    } else {
        4
    }
}

/// The byte index, in the UTF-8 encoding of `cs`, of the character at index `k`.
pub open spec fn byte_offset(cs: Seq<char>, k: int) -> int {
    encode_utf8(cs.take(k)).len() as int
}

/// The number of UTF-8 bytes of `c`, as `char::len_utf8` gives it.
pub fn len_utf8(c: char) -> (res: usize)
    ensures
        res == utf8_width(c),
{
    let v = c as u32;
    if v <= 0x7F {
        1
    } else if v <= 0x7FF {
        2
    } else if v <= 0xFFFF {
        3
    } else {
        4
    }
}

/// The encoding of a concatenation is the concatenation of the encodings.
pub proof fn lemma_encode_concat(a: Seq<char>, b: Seq<char>)
    ensures
        encode_utf8(a + b) == encode_utf8(a) + encode_utf8(b),
    decreases a.len(),
{
    if a.len() == 0 {
        assert(a + b =~= b);
        assert(encode_utf8(a) =~= Seq::<u8>::empty());
        assert(encode_utf8(a) + encode_utf8(b) =~= encode_utf8(b));
    } else {
        assert((a + b).drop_first() =~= a.drop_first() + b);
        assert((a + b)[0] == a[0]);
        lemma_encode_concat(a.drop_first(), b);
        assert(encode_utf8(a + b) =~= encode_utf8(a) + encode_utf8(b));
    }
}

/// The encoding of one character has [`utf8_width`] bytes.
pub proof fn lemma_width(c: char)
    ensures
        encode_utf8(seq![c]).len() == utf8_width(c),
        1 <= utf8_width(c) <= 4,
{
    char_is_scalar(c);
    assert(seq![c].drop_first() =~= Seq::<char>::empty());
    assert(encode_utf8(seq![c].drop_first()) =~= Seq::<u8>::empty());
    assert(encode_utf8(seq![c]) =~= encode_scalar(c as u32));
}

/// The byte offset of the next character adds the width of this one.
pub proof fn lemma_byte_offset_step(cs: Seq<char>, k: int)
    requires
        0 <= k < cs.len(),
    ensures
        byte_offset(cs, k + 1) == byte_offset(cs, k) + utf8_width(cs[k]),
{
    assert(cs.take(k + 1) =~= cs.take(k) + seq![cs[k]]);
    lemma_encode_concat(cs.take(k), seq![cs[k]]);
    lemma_width(cs[k]);
}

/// The byte offset of the first character is zero.
pub proof fn lemma_byte_offset_zero(cs: Seq<char>)
    ensures
        byte_offset(cs, 0) == 0,
{
    assert(cs.take(0) =~= Seq::<char>::empty());
}

/// Byte offsets grow strictly with the character index.
pub proof fn lemma_byte_offset_mono(cs: Seq<char>, i: int, j: int)
    requires
        0 <= i <= j <= cs.len(),
    ensures
        byte_offset(cs, i) <= byte_offset(cs, j),
        i < j ==> byte_offset(cs, i) < byte_offset(cs, j),
    decreases j - i,
{
    if i < j {
        lemma_byte_offset_mono(cs, i, j - 1);
        lemma_byte_offset_step(cs, j - 1);
        lemma_width(cs[j - 1]);
    }
}

/// The byte offset past the last character is the length of the encoding.
pub proof fn lemma_byte_offset_end(cs: Seq<char>)
    ensures
        byte_offset(cs, cs.len() as int) == encode_utf8(cs).len(),
{
    assert(cs.take(cs.len() as int) =~= cs);
}

// ---------------------------------------------------------------------------
// Tokens
// ---------------------------------------------------------------------------

/// A range of byte indices into the input.
#[derive(Debug, Clone, Copy, PartialEq, Eq, Structural)]
pub struct Span {
    pub start: usize,
    pub end: usize,
}

impl Span {
    pub fn new(start: usize, end: usize) -> (res: Self)
        ensures
            res.start == start,
            res.end == end,
    {
        Self { start, end }
    }
}

#[derive(Debug, Clone, Copy, PartialEq, Eq, Structural)]
pub enum TokenKind {
    Ident,
    Lambda,
    Dot,
    LParen,
    RParen,
    Eof,
    Error,
}

/// A token: its kind and the bytes of the input that it covers.
#[derive(Debug, Clone)]
pub struct Token {
    kind: TokenKind,
    span: Span,
}

impl Token {
    /// The kind of the token.
    pub closed spec fn kind_of(&self) -> TokenKind {
        self.kind
    }

    /// The bytes that the token covers.
    pub closed spec fn span_of(&self) -> Span {
        self.span
    }

    pub fn new(kind: TokenKind, span: Span) -> (res: Self)
        ensures
            res.kind_of() == kind,
            res.span_of() == span,
    {
        Self { kind, span }
    }

    pub fn kind(&self) -> (res: TokenKind)
        ensures
            res == self.kind_of(),
    {
        self.kind
    }

    pub fn span(&self) -> (res: Span)
        ensures
            res == self.span_of(),
    {
        self.span
    }
}

// ---------------------------------------------------------------------------
// The token grammar
// ---------------------------------------------------------------------------

/// The first index at or after `k` that does not hold whitespace.
pub open spec fn skip_ws(cs: Seq<char>, k: int) -> int
    decreases cs.len() - k,
{
    if 0 <= k < cs.len() && char_is_whitespace(cs[k]) {
        skip_ws(cs, k + 1)
    } else {
        k
    }
}

/// The first index at or after `k` that does not continue an identifier.
pub open spec fn ident_end(cs: Seq<char>, k: int) -> int
    decreases cs.len() - k,
{
    if 0 <= k < cs.len() && ident_continue(cs[k]) {
        ident_end(cs, k + 1)
    } else {
        k
    }
}

/// A token found in a sequence of characters: its kind and the range of
/// character indices that it covers.
pub struct Scan {
    pub kind: TokenKind,
    pub start: int,
    pub end: int,
}

/// The token that follows index `k`: whitespace is skipped, then `λ`, `.`,
/// `(` and `)` stand for themselves, an identifier runs as long as it can,
/// the end of the input gives `Eof`, and any other character is an `Error`
/// token of its own.
pub open spec fn scan(cs: Seq<char>, k: int) -> Scan {
    let s = skip_ws(cs, k);
    if s >= cs.len() {
        Scan { kind: TokenKind::Eof, start: s, end: s }
    } else {
        let c = cs[s];
        if c == 'λ' {
            Scan { kind: TokenKind::Lambda, start: s, end: s + 1 }
        } else if c == '.' {
            Scan { kind: TokenKind::Dot, start: s, end: s + 1 }
        } else if c == '(' {
            Scan { kind: TokenKind::LParen, start: s, end: s + 1 }
        } else if c == ')' {
            Scan { kind: TokenKind::RParen, start: s, end: s + 1 }
        } else if ident_start(c) {
            Scan { kind: TokenKind::Ident, start: s, end: ident_end(cs, s + 1) }
        } else {
            Scan { kind: TokenKind::Error, start: s, end: s + 1 }
        }
    }
}

/// The bytes that a scanned token covers.
pub open spec fn scan_span(cs: Seq<char>, k: int) -> (int, int) {
    (byte_offset(cs, scan(cs, k).start), byte_offset(cs, scan(cs, k).end))
}

/// `span` runs between two character boundaries of `cs`.
pub open spec fn on_boundaries(cs: Seq<char>, span: Span) -> bool {
    exists|i: int, j: int|
        0 <= i <= j <= cs.len() && byte_offset(cs, i) == span.start && byte_offset(cs, j)
            == span.end
}

pub proof fn lemma_skip_ws(cs: Seq<char>, k: int)
    requires
        0 <= k <= cs.len(),
    ensures
        k <= skip_ws(cs, k) <= cs.len(),
        skip_ws(cs, k) < cs.len() ==> !char_is_whitespace(cs[skip_ws(cs, k)]),
    decreases cs.len() - k,
{
    if k < cs.len() && char_is_whitespace(cs[k]) {
        lemma_skip_ws(cs, k + 1);
    }
}

pub proof fn lemma_ident_end(cs: Seq<char>, k: int)
    requires
        0 <= k <= cs.len(),
    ensures
        k <= ident_end(cs, k) <= cs.len(),
    decreases cs.len() - k,
{
    if k < cs.len() && ident_continue(cs[k]) {
        lemma_ident_end(cs, k + 1);
    }
}

/// A scanned token lies after `k` and within the input; only `Eof` is empty,
/// and it comes only at the end.
pub proof fn lemma_scan(cs: Seq<char>, k: int)
    requires
        0 <= k <= cs.len(),
    ensures
        k <= scan(cs, k).start <= scan(cs, k).end <= cs.len(),
        scan(cs, k).kind == TokenKind::Eof <==> scan(cs, k).start == cs.len(),
        scan(cs, k).kind == TokenKind::Eof ==> scan(cs, k).end == cs.len(),
        scan(cs, k).kind != TokenKind::Eof ==> scan(cs, k).start < scan(cs, k).end,
{
    lemma_skip_ws(cs, k);
    let s = skip_ws(cs, k);
    if s < cs.len() {
        lemma_ident_end(cs, s + 1);
    }
}

proof fn lemma_skip_ws_all(cs: Seq<char>, k: int)
    requires
        0 <= k <= cs.len(),
    ensures
        forall|i: int| k <= i < skip_ws(cs, k) ==> char_is_whitespace(#[trigger] cs[i]),
    decreases cs.len() - k,
{
    if k < cs.len() && char_is_whitespace(cs[k]) {
        lemma_skip_ws_all(cs, k + 1);
    }
}

proof fn lemma_ident_end_all(cs: Seq<char>, k: int)
    requires
        0 <= k <= cs.len(),
    ensures
        forall|i: int| k <= i < ident_end(cs, k) ==> ident_continue(#[trigger] cs[i]),
        ident_end(cs, k) < cs.len() ==> !ident_continue(cs[ident_end(cs, k)]),
    decreases cs.len() - k,
{
    if k < cs.len() && ident_continue(cs[k]) {
        lemma_ident_end_all(cs, k + 1);
    }
}

/// The tokens and the whitespace between them tile the input: the characters
/// from `k` to the token are whitespace, the punctuation tokens cover their
/// one character, an identifier starts with an identifier-start character
/// other than `λ` and runs over identifier characters as far as they go, and
/// an error token is one character that begins no token.
pub proof fn lemma_scan_tiles(cs: Seq<char>, k: int)
    requires
        0 <= k <= cs.len(),
    ensures
        forall|i: int| k <= i < scan(cs, k).start ==> char_is_whitespace(#[trigger] cs[i]),
        scan(cs, k).kind == TokenKind::Lambda ==> cs.subrange(scan(cs, k).start, scan(cs, k).end)
            == seq!['λ'],
        scan(cs, k).kind == TokenKind::Dot ==> cs.subrange(scan(cs, k).start, scan(cs, k).end)
            == seq!['.'],
        scan(cs, k).kind == TokenKind::LParen ==> cs.subrange(scan(cs, k).start, scan(cs, k).end)
            == seq!['('],
        scan(cs, k).kind == TokenKind::RParen ==> cs.subrange(scan(cs, k).start, scan(cs, k).end)
            == seq![')'],
        scan(cs, k).kind == TokenKind::Ident ==> {
            let sc = scan(cs, k);
            &&& ident_start(cs[sc.start])
            &&& cs[sc.start] != 'λ'
            &&& forall|i: int| sc.start < i < sc.end ==> ident_continue(#[trigger] cs[i])
            &&& sc.end < cs.len() ==> !ident_continue(cs[sc.end])
        },
        scan(cs, k).kind == TokenKind::Error ==> {
            let c = cs[scan(cs, k).start];
            &&& scan(cs, k).end == scan(cs, k).start + 1
            &&& !char_is_whitespace(c)
            &&& c != 'λ' && c != '.' && c != '(' && c != ')'
            &&& !ident_start(c)
        },
{
    lemma_skip_ws(cs, k);
    lemma_skip_ws_all(cs, k);
    let sc = scan(cs, k);
    if sc.kind == TokenKind::Ident {
        lemma_ident_end_all(cs, sc.start + 1);
    }
    if sc.kind == TokenKind::Lambda || sc.kind == TokenKind::Dot || sc.kind == TokenKind::LParen
        || sc.kind == TokenKind::RParen {
        assert(cs.subrange(sc.start, sc.end) =~= seq![cs[sc.start]]);
    }
}

/// An identifier starts at every character that is alphabetic or `_` (other
/// than the punctuation `λ . ( )`): the token that follows `k` is then an
/// identifier that begins there and takes at least that character.
pub proof fn lemma_scan_ident(cs: Seq<char>, k: int)
    requires
        0 <= k <= cs.len(),
        skip_ws(cs, k) < cs.len(),
        cs[skip_ws(cs, k)] == '_' || char_is_alphabetic(cs[skip_ws(cs, k)]),
        cs[skip_ws(cs, k)] != 'λ',
        cs[skip_ws(cs, k)] != '.',
        cs[skip_ws(cs, k)] != '(',
        cs[skip_ws(cs, k)] != ')',
    ensures
        scan(cs, k).kind == TokenKind::Ident,
        scan(cs, k).start == skip_ws(cs, k),
        scan(cs, k).end > scan(cs, k).start,
{
    lemma_skip_ws(cs, k);
    lemma_ident_end(cs, skip_ws(cs, k) + 1);
}

/// An identifier runs over every following character that is alphanumeric
/// or `_`, up to the first that is neither.
pub proof fn lemma_ident_runs(cs: Seq<char>, k: int, j: int)
    requires
        0 <= k < j <= cs.len(),
        forall|i: int| k <= i < j ==> cs[i] == '_' || char_is_alphanumeric(#[trigger] cs[i]),
        j < cs.len() ==> cs[j] != '_' && !char_is_alphanumeric(cs[j]),
    ensures
        ident_end(cs, k) == j,
    decreases j - k,
{
    assert(ident_continue(cs[k]));
    if k + 1 < j {
        lemma_ident_runs(cs, k + 1, j);
    } else {
        assert(ident_end(cs, j) == j);
    }
}

// ---------------------------------------------------------------------------
// The lexer
// ---------------------------------------------------------------------------

/// A lexer over a string: the characters of the input, where the current
/// token was looked for, and the current token.
#[derive(Debug, Clone)]
pub struct Lexer {
    chars: Vec<char>,
    from: usize,
    position: usize,
    pos: usize,
    current: Token,
}

impl Lexer {
    /// The characters of the input.
    pub closed spec fn input(&self) -> Seq<char> {
        self.chars@
    }

    /// The character index after which the current token was looked for.
    pub closed spec fn from(&self) -> int {
        self.from as int
    }

    /// The lexer's invariant: the current token is the one that follows
    /// [`Self::from`].
    pub closed spec fn wf(&self) -> bool {
        let cs = self.chars@;
        &&& 0 <= self.from <= cs.len()
        &&& byte_offset(cs, cs.len() as int) <= usize::MAX
        &&& self.pos == scan(cs, self.from as int).end
        &&& self.position == byte_offset(cs, self.pos as int)
        &&& self.current.kind_of() == scan(cs, self.from as int).kind
        &&& self.current.span_of().start == scan_span(cs, self.from as int).0
        &&& self.current.span_of().end == scan_span(cs, self.from as int).1
    }

    /// What [`Self::wf`] gives to callers.
    pub proof fn lemma_wf(&self)
        requires
            self.wf(),
        ensures
            0 <= self.from() <= self.input().len(),
            byte_offset(self.input(), self.input().len() as int) <= usize::MAX,
    {
    }

    pub fn new(input: &str) -> (res: Self)
        ensures
            res.wf(),
            res.input() == input@,
            res.from() == 0,
    {
        let mut chars: Vec<char> = Vec::new();
        for c in it: input.chars()
            invariant
                chars@ == it.seq().take(it.index() as int),
        {
            chars.push(c);
            proof {
                assert(chars@ =~= it.seq().take(it.index() + 1));
            }
        }
        let bytes = input.as_bytes();
        let n = bytes.len();
        proof {
            assert(chars@ =~= input@);
            lemma_byte_offset_end(chars@);
            lemma_byte_offset_zero(chars@);
            assert(n == bytes@.len());
        }
        let mut tmp = Self {
            chars,
            from: 0,
            position: 0,
            pos: 0,
            current: Token::new(TokenKind::Eof, Span::new(0, 0)),
        };
        tmp.step();
        tmp
    }

    /// The current token.
    pub fn peek(&self) -> (res: &Token)
        requires
            self.wf(),
        ensures
            res.kind_of() == scan(self.input(), self.from()).kind,
            res.span_of().start == scan_span(self.input(), self.from()).0,
            res.span_of().end == scan_span(self.input(), self.from()).1,
    {
        &self.current
    }

    /// Moves to the token that follows the current one.
    pub fn advance(&mut self)
        requires
            old(self).wf(),
        ensures
            final(self).wf(),
            final(self).input() == old(self).input(),
            final(self).from() == scan(old(self).input(), old(self).from()).end,
    {
        proof {
            lemma_scan(self.chars@, self.from as int);
        }
        self.step();
    }

    /// Where the lexer can look for the next token: after character `pos`,
    /// whose byte offset is `position`.
    closed spec fn ready(&self) -> bool {
        let cs = self.chars@;
        &&& self.pos <= cs.len()
        &&& byte_offset(cs, cs.len() as int) <= usize::MAX
        &&& self.position == byte_offset(cs, self.pos as int)
    }

    fn step(&mut self)
        requires
            old(self).ready(),
        ensures
            final(self).wf(),
            final(self).input() == old(self).input(),
            final(self).from() == old(self).pos,
    {
        self.from = self.pos;
        self.consume_whitespaces();
        let start = self.position;
        let n = self.chars.len();
        let kind = if self.pos >= n {
            TokenKind::Eof
        } else {
            let ch = self.chars[self.pos];
            if ch == 'λ' {
                self.consume_char();
                TokenKind::Lambda
            } else if ch == '.' {
                self.consume_char();
                TokenKind::Dot
            } else if ch == '(' {
                self.consume_char();
                TokenKind::LParen
            } else if ch == ')' {
                self.consume_char();
                TokenKind::RParen
            } else if Self::is_ident_start(ch) {
                self.consume_char();
                self.consume_ident();
                TokenKind::Ident
            } else {
                self.consume_char();
                TokenKind::Error
            }
        };
        self.current = Token::new(kind, Span::new(start, self.position));
    }

    fn is_ident_start(c: char) -> (res: bool)
        ensures
            res == ident_start(c),
    {
        is_alphabetic(c) || c == '_'
    }

    fn is_ident_continue(c: char) -> (res: bool)
        ensures
            res == ident_continue(c),
    {
        is_alphanumeric(c) || c == '_'
    }

    /// The lexer's bookkeeping while it scans: `pos` is a character index and
    /// `position` its byte offset.
    closed spec fn scanning(&self) -> bool {
        let cs = self.chars@;
        &&& 0 <= self.from <= self.pos <= cs.len()
        &&& byte_offset(cs, cs.len() as int) <= usize::MAX
        &&& self.position == byte_offset(cs, self.pos as int)
    }

    fn consume_whitespaces(&mut self)
        requires
            old(self).scanning(),
        ensures
            final(self).scanning(),
            final(self).chars@ == old(self).chars@,
            final(self).from == old(self).from,
            final(self).pos == skip_ws(old(self).chars@, old(self).pos as int),
    {
        let n = self.chars.len();
        while self.pos < n && is_whitespace(self.chars[self.pos])
            invariant
                self.scanning(),
                n == self.chars@.len(),
                self.chars@ == old(self).chars@,
                self.from == old(self).from,
                skip_ws(self.chars@, self.pos as int) == skip_ws(
                    old(self).chars@,
                    old(self).pos as int,
                ),
            decreases n - self.pos,
        {
            self.consume_char();
        }
    }

    fn consume_char(&mut self)
        requires
            old(self).scanning(),
        ensures
            final(self).scanning(),
            final(self).chars@ == old(self).chars@,
            final(self).from == old(self).from,
            final(self).pos == if old(self).pos < old(self).chars@.len() {
                old(self).pos + 1
            } else {
                old(self).pos as int
            },
    {
        if self.pos < self.chars.len() {
            let ch = self.chars[self.pos];
            proof {
                lemma_byte_offset_step(self.chars@, self.pos as int);
                lemma_byte_offset_mono(self.chars@, self.pos + 1, self.chars@.len() as int);
            }
            self.position = self.position + len_utf8(ch);
            self.pos = self.pos + 1;
        }
    }

    fn consume_ident(&mut self)
        requires
            old(self).scanning(),
        ensures
            final(self).scanning(),
            final(self).chars@ == old(self).chars@,
            final(self).from == old(self).from,
            final(self).pos == ident_end(old(self).chars@, old(self).pos as int),
    {
        let n = self.chars.len();
        while self.pos < n && Self::is_ident_continue(self.chars[self.pos])
            invariant
                self.scanning(),
                n == self.chars@.len(),
                self.chars@ == old(self).chars@,
                self.from == old(self).from,
                ident_end(self.chars@, self.pos as int) == ident_end(
                    old(self).chars@,
                    old(self).pos as int,
                ),
            decreases n - self.pos,
        {
            self.consume_char();
        }
    }

    /// The text that `span` covers.
    pub fn get_str_by_span(&self, span: Span) -> (res: String)
        requires
            self.wf(),
            on_boundaries(self.input(), span),
        ensures
            forall|i: int, j: int|
                0 <= i <= j <= self.input().len() && byte_offset(self.input(), i) == span.start
                    && byte_offset(self.input(), j) == span.end ==> res@ == self.input().subrange(
                    i,
                    j,
                ),
    {
        let ghost cs = self.chars@;
        let ghost (i, j) = choose|i: int, j: int|
            0 <= i <= j <= cs.len() && byte_offset(cs, i) == span.start && byte_offset(cs, j)
                == span.end;
        let mut res = String::new();
        let n = self.chars.len();
        let mut k: usize = 0;
        let mut b: usize = 0;
        proof {
            lemma_byte_offset_zero(cs);
        }
        while k < n
            invariant
                n == cs.len(),
                cs == self.chars@,
                0 <= i <= j <= cs.len(),
                byte_offset(cs, i) == span.start,
                byte_offset(cs, j) == span.end,
                byte_offset(cs, cs.len() as int) <= usize::MAX,
                k <= n,
                b == byte_offset(cs, k as int),
                res@ == cs.subrange(
                    i,
                    if k < i {
                        i
                    } else if k > j {
                        j
                    } else {
                        k as int
                    },
                ),
            decreases n - k,
        {
            let ch = self.chars[k];
            proof {
                lemma_byte_offset_step(cs, k as int);
                lemma_byte_offset_mono(cs, k + 1, cs.len() as int);
                if k < i {
                    lemma_byte_offset_mono(cs, k as int, i);
                }
                if k >= j {
                    lemma_byte_offset_mono(cs, j, k as int);
                }
                if i <= k < j {
                    lemma_byte_offset_mono(cs, i, k as int);
                    lemma_byte_offset_mono(cs, k as int, j);
                }
            }
            if span.start <= b && b < span.end {
                push_char(&mut res, ch);
            }
            proof {
                assert(res@ =~= cs.subrange(
                    i,
                    if k + 1 < i {
                        i
                    } else if k + 1 > j {
                        j
                    } else {
                        k + 1
                    },
                ));
            }
            b = b + len_utf8(ch);
            k = k + 1;
        }
        proof {
            assert forall|i2: int, j2: int|
                0 <= i2 <= j2 <= cs.len() && byte_offset(cs, i2) == span.start && byte_offset(
                    cs,
                    j2,
                ) == span.end implies res@ == cs.subrange(i2, j2) by {
                if i2 < i {
                    lemma_byte_offset_mono(cs, i2, i);
                }
                if i < i2 {
                    lemma_byte_offset_mono(cs, i, i2);
                }
                if j2 < j {
                    lemma_byte_offset_mono(cs, j2, j);
                }
                if j < j2 {
                    lemma_byte_offset_mono(cs, j, j2);
                }
            }
        }
        res
    }
}

} // verus!
