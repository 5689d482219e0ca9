//! Streaming JSON tokenizer and prettifier.
//!
//! Walks the input once and produces the three indexes the renderer
//! needs: line starts, the path index and the style spans.
//!
//! Lenient: on a parse error the partial indexes are still returned, so
//! a viewer can display broken files up to the point they go wrong.

use vstd::prelude::*;
use vstd::slice::slice_subrange;
use vstd::utf8::encode_scalar;

use crate::ascii::{
    BACKSLASH, BS, COLON, COMMA, CR, DOT, FF, LBRACE, LBRACKET, LF, LOWER_A, LOWER_B, LOWER_E, LOWER_F, LOWER_L,
    LOWER_N, LOWER_R, LOWER_S, LOWER_T, LOWER_U, MINUS, NINE, PLUS, QUOTE, RBRACE, RBRACKET, SLASH, SPACE, TAB,
    UPPER_A, UPPER_E, UPPER_F, ZERO,
};
use crate::bytes::{
    is_digit, is_digit_byte, is_ws, is_ws_byte, lemma_line_starts, lemma_skip_ws_bounds, line_starts_in, push_bytes,
    skip_digits_from, skip_ws_at, skip_ws_from, trim_bytes, trimmed,
};
use crate::format::json_laws::law_json_indexes;
use crate::format::nesting::segment_named;
use crate::format::cursor::{byte_at, byte_or_zero, Cursor};
use crate::format::{
    entry_text, intern_id, moved, slice_of_entry, NameInterner, ParseError, ParseErrorKind, ParseOutput, PathEntry,
    PathIndex, PathSegment, ProgressSink, ScanState, Step, StyleKind, StyleSpan, ROOT_PARENT,
};
use crate::text::{decimal, hex_digits, push_decimal, push_hex, push_scalar, push_text, text_or_replacement, utf8_str};

verus! {

// --- grammar --------------------------------------------------------

/// Position of the quote that closes a string whose contents start at
/// `i`, or `None` when the input ends first.
pub open spec fn string_close(s: Seq<u8>, i: int) -> Option<int>
    decreases (if i < s.len() { s.len() - i } else { 0 }),
{
    if i < 0 || i >= s.len() {
        None
    } else if s[i] == QUOTE {
        Some(i)
    } else if s[i] == BACKSLASH {
        if i + 1 < s.len() && s[i + 1] == LOWER_U {
            string_close(s, i + 6)
        } else {
            string_close(s, i + 2)
        }
    } else {
        string_close(s, i + 1)
    }
}

/// End of the sign at `i`, if there is one.
pub open spec fn number_sign_end(s: Seq<u8>, i: int) -> int {
    if byte_at(s, i) == Some(MINUS) {
        i + 1
    } else {
        i
    }
}

pub open spec fn number_fraction_end(s: Seq<u8>, i: int) -> int {
    if byte_at(s, i) == Some(DOT) {
        skip_digits_from(s, i + 1)
    } else {
        i
    }
}

pub open spec fn number_exponent_end(s: Seq<u8>, i: int) -> int {
    if byte_at(s, i) == Some(LOWER_E) || byte_at(s, i) == Some(UPPER_E) {
        if byte_at(s, i + 1) == Some(PLUS) || byte_at(s, i + 1) == Some(MINUS) {
            skip_digits_from(s, i + 2)
        } else {
            skip_digits_from(s, i + 1)
        }
    } else {
        i
    }
}

/// End of the number that starts at `i`; `None` when no digit follows
/// the sign.
pub open spec fn number_end(s: Seq<u8>, i: int) -> Option<int> {
    let first = number_sign_end(s, i);
    let whole = skip_digits_from(s, first);
    if whole == first {
        None
    } else {
        Some(number_exponent_end(s, number_fraction_end(s, whole)))
    }
}

/// Number of leading bytes of `word`, counting from `k`, that the input
/// repeats from `i`.
pub open spec fn literal_match(s: Seq<u8>, i: int, word: Seq<u8>, k: int) -> int
    decreases word.len() - k,
{
    if 0 <= k < word.len() && byte_at(s, i + k) == Some(word[k]) {
        literal_match(s, i, word, k + 1)
    } else {
        k
    }
}

pub open spec fn hex_value(b: u8) -> Option<u32> {
    if ZERO <= b <= NINE {
        Some((b - ZERO) as u32)
    } else if LOWER_A <= b <= LOWER_F {
        Some((b - LOWER_A + 10) as u32)
    } else if UPPER_A <= b <= UPPER_F {
        Some((b - UPPER_A + 10) as u32)
    } else {
        None
    }
}

/// Value of the hexadecimal digits `s`, or `None` when a byte is not one.
pub open spec fn hex_number(s: Seq<u8>) -> Option<int>
    decreases s.len(),
{
    if s.len() == 0 {
        Some(0)
    } else {
        match (hex_number(s.drop_last()), hex_value(s.last())) {
            (Some(n), Some(d)) => Some(n * 16 + d),
            _ => None,
        }
    }
}

/// The four hexadecimal digits at `i`.
pub open spec fn hex4_at(s: Seq<u8>, i: int) -> Option<int> {
    if 0 <= i && i + 4 <= s.len() {
        hex_number(s.subrange(i, i + 4))
    } else {
        None
    }
}

pub open spec fn is_high_surrogate(n: int) -> bool {
    0xD800 <= n <= 0xDBFF
}

pub open spec fn is_low_surrogate(n: int) -> bool {
    0xDC00 <= n <= 0xDFFF
}

/// The byte a one-letter escape stands for.
pub open spec fn simple_escape(e: u8) -> Option<u8> {
    if e == QUOTE || e == BACKSLASH || e == SLASH {
        Some(e)
    } else if e == LOWER_B {
        Some(BS)
    } else if e == LOWER_F {
        Some(FF)
    } else if e == LOWER_N {
        Some(LF)
    } else if e == LOWER_R {
        Some(CR)
    } else if e == LOWER_T {
        Some(TAB)
    } else {
        None
    }
}

/// The low surrogate of a `\uXXXX` escape at `i`.
pub open spec fn low_surrogate_at(s: Seq<u8>, i: int) -> Option<int> {
    if byte_at(s, i) == Some(BACKSLASH) && byte_at(s, i + 1) == Some(LOWER_U) {
        match hex4_at(s, i + 2) {
            Some(n) => if is_low_surrogate(n) {
                Some(n)
            } else {
                None
            },
            None => None,
        }
    } else {
        None
    }
}

/// One item of a string's contents at `i`: the bytes it decodes to and
/// its width, or the position at which it turns out to be malformed.
/// Surrogates that do not pair up decode to U+FFFD.
pub open spec fn decode_item(s: Seq<u8>, i: int) -> Result<(Seq<u8>, int), int> {
    if s[i] != BACKSLASH {
        Ok((seq![s[i]], 1))
    } else if i + 1 >= s.len() {
        Err(i + 1)
    } else if s[i + 1] != LOWER_U {
        match simple_escape(s[i + 1]) {
            Some(b) => Ok((seq![b], 2)),
            None => Err(i + 2),
        }
    } else {
        match hex4_at(s, i + 2) {
            None => Err(i + 2),
            Some(n) => if is_high_surrogate(n) {
                match low_surrogate_at(s, i + 6) {
                    Some(m) => Ok(
                        (encode_scalar((0x10000 + (n - 0xD800) * 0x400 + (m - 0xDC00)) as u32), 12),
                    ),
                    None => Ok((encode_scalar(0xFFFD), 6)),
                }
            } else if is_low_surrogate(n) {
                Ok((encode_scalar(0xFFFD), 6))
            } else {
                Ok((encode_scalar(n as u32), 6))
            },
        }
    }
}

/// Decoded contents of the string text `s` from `i` on, or the position
/// of the first malformed escape.
pub open spec fn decode_escapes(s: Seq<u8>, i: int) -> Result<Seq<u8>, int>
    decreases s.len() - i,
{
    if i < 0 || i >= s.len() {
        Ok(Seq::empty())
    } else {
        match decode_item(s, i) {
            Err(at) => Err(at),
            Ok((bytes, width)) => match decode_escapes(s, i + width) {
                Err(at) => Err(at),
                Ok(rest) => Ok(bytes + rest),
            },
        }
    }
}

/// What the items of the string text `s` from `i` on decode to, up to
/// the first malformed escape.
pub open spec fn decoded_before_error(s: Seq<u8>, i: int) -> Seq<u8>
    decreases s.len() - i,
{
    if i < 0 || i >= s.len() {
        Seq::empty()
    } else {
        match decode_item(s, i) {
            Err(at) => Seq::empty(),
            Ok((bytes, width)) => bytes + decoded_before_error(s, i + width),
        }
    }
}

pub open spec fn word_true() -> Seq<u8> {
    seq![LOWER_T, LOWER_R, LOWER_U, LOWER_E]
}

pub open spec fn word_false() -> Seq<u8> {
    seq![LOWER_F, LOWER_A, LOWER_L, LOWER_S, LOWER_E]
}

pub open spec fn word_null() -> Seq<u8> {
    seq![LOWER_N, LOWER_U, LOWER_L, LOWER_L]
}

pub open spec fn json_literal(s: Seq<u8>, st: ScanState, word: Seq<u8>, kind: StyleKind) -> Step {
    let k = literal_match(s, st.pos, word, 0);
    let end = st.pos + k;
    if k == word.len() {
        st.styled(st.pos, end, kind).at(end).done()
    } else if end >= s.len() {
        st.at(end).failed(ParseErrorKind::UnexpectedEof)
    } else {
        st.at(end).failed(ParseErrorKind::UnexpectedByte(s[end]))
    }
}

pub open spec fn json_number(s: Seq<u8>, st: ScanState) -> Step {
    match number_end(s, st.pos) {
        Some(end) => st.styled(st.pos, end, StyleKind::Number).at(end).done(),
        None => st.at(number_sign_end(s, st.pos)).failed(ParseErrorKind::InvalidNumber),
    }
}

pub open spec fn json_string(s: Seq<u8>, st: ScanState) -> Step {
    match string_close(s, st.pos + 1) {
        Some(q) => st.styled(st.pos, q + 1, StyleKind::String).at(q + 1).done(),
        None => st.at(s.len() as int).failed(ParseErrorKind::UnexpectedEof),
    }
}

/// A value at `st.pos`, after optional whitespace, whose members get
/// `this` as their parent.
pub open spec fn json_value(s: Seq<u8>, st: ScanState, this: u32) -> Step
    decreases s.len() - st.pos, 1int,
{
    proof {
        if 0 <= st.pos <= s.len() {
            lemma_skip_ws_bounds(s, st.pos);
        }
    }
    let p = skip_ws_from(s, st.pos);
    let st1 = st.at(p);
    if st.pos < 0 || p >= s.len() {
        st1.failed(ParseErrorKind::UnexpectedEof)
    } else if s[p] == LBRACE {
        json_object(s, st1, this)
    } else if s[p] == LBRACKET {
        json_array(s, st1, this)
    } else if s[p] == QUOTE {
        json_string(s, st1)
    } else if s[p] == LOWER_T {
        json_literal(s, st1, word_true(), StyleKind::Bool)
    } else if s[p] == LOWER_F {
        json_literal(s, st1, word_false(), StyleKind::Bool)
    } else if s[p] == LOWER_N {
        json_literal(s, st1, word_null(), StyleKind::Null)
    } else if s[p] == MINUS || is_digit(s[p]) {
        json_number(s, st1)
    } else {
        st1.failed(ParseErrorKind::UnexpectedByte(s[p]))
    }
}

/// An object whose opening brace stands at `st.pos`.
pub open spec fn json_object(s: Seq<u8>, st: ScanState, this: u32) -> Step
    decreases s.len() - st.pos, 0int,
{
    proof {
        if 0 <= st.pos < s.len() {
            lemma_skip_ws_bounds(s, st.pos + 1);
        }
    }
    let p = skip_ws_from(s, st.pos + 1);
    if st.pos < 0 || st.pos >= s.len() {
        st.failed(ParseErrorKind::UnexpectedEof)
    } else if byte_at(s, p) == Some(RBRACE) {
        st.at(p + 1).done()
    } else {
        json_fields(s, st.at(p), this)
    }
}

/// One or more fields from `st.pos` up to and including the closing
/// brace.
pub open spec fn json_fields(s: Seq<u8>, st: ScanState, this: u32) -> Step
    decreases s.len() - st.pos, 2int,
{
    proof {
        lemma_json_fields_positions(s, st.pos);
    }
    let p = skip_ws_from(s, st.pos);
    if st.pos < 0 || byte_at(s, p) != Some(QUOTE) {
        st.at(p).failed(ParseErrorKind::UnexpectedByte(byte_or_zero(s, p)))
    } else {
        match string_close(s, p + 1) {
            None => st.at(s.len() as int).failed(ParseErrorKind::UnexpectedEof),
            Some(q) => {
                let keyed = st.styled(p, q + 1, StyleKind::Key).at(q + 1);
                match decode_escapes(s.subrange(p + 1, q), 0) {
                    Err(i) => keyed.failed_at(p + 1 + i, ParseErrorKind::InvalidEscape),
                    Ok(name) => {
                        let index = st.paths.len() as int;
                        let c = skip_ws_from(s, q + 1);
                        let opened = keyed.with_name(name).opened(
                            p,
                            this,
                            PathSegment::Key(intern_id(st.names, name) as u32),
                        ).at(c);
                        if byte_at(s, c) != Some(COLON) {
                            opened.failed(ParseErrorKind::UnexpectedByte(byte_or_zero(s, c)))
                        } else {
                            let v = json_value(s, opened.at(c + 1), index as u32);
                            if !moved(s, c, v) {
                                v
                            } else {
                                json_after_field(s, v.st.closed_at(index, v.st.pos), this)
                            }
                        }
                    },
                }
            },
        }
    }
}

/// What follows a field: a comma and more fields, or the closing brace.
pub open spec fn json_after_field(s: Seq<u8>, st: ScanState, this: u32) -> Step
    decreases s.len() - st.pos, 0int,
{
    proof {
        if 0 <= st.pos <= s.len() {
            lemma_skip_ws_bounds(s, st.pos);
        }
    }
    let p = skip_ws_from(s, st.pos);
    if st.pos < 0 || p >= s.len() {
        st.at(p).failed(ParseErrorKind::UnexpectedEof)
    } else if s[p] == COMMA {
        json_fields(s, st.at(p + 1), this)
    } else if s[p] == RBRACE {
        st.at(p + 1).done()
    } else {
        st.at(p).failed(ParseErrorKind::UnexpectedByte(s[p]))
    }
}

/// An array whose opening bracket stands at `st.pos`.
pub open spec fn json_array(s: Seq<u8>, st: ScanState, this: u32) -> Step
    decreases s.len() - st.pos, 0int,
{
    proof {
        if 0 <= st.pos < s.len() {
            lemma_skip_ws_bounds(s, st.pos + 1);
        }
    }
    let p = skip_ws_from(s, st.pos + 1);
    if st.pos < 0 || st.pos >= s.len() {
        st.failed(ParseErrorKind::UnexpectedEof)
    } else if byte_at(s, p) == Some(RBRACKET) {
        st.at(p + 1).done()
    } else {
        json_elements(s, st.at(p), this, 0)
    }
}

/// One or more elements, numbered from `index`, up to and including the
/// closing bracket.
pub open spec fn json_elements(s: Seq<u8>, st: ScanState, this: u32, index: int) -> Step
    decreases s.len() - st.pos, 2int,
{
    proof {
        if 0 <= st.pos <= s.len() {
            lemma_skip_ws_bounds(s, st.pos);
        }
    }
    let p = skip_ws_from(s, st.pos);
    let entry = st.paths.len() as int;
    let opened = st.at(p).opened(p, this, PathSegment::Index(index as u32));
    if st.pos < 0 || st.pos > s.len() {
        opened.failed(ParseErrorKind::UnexpectedEof)
    } else {
        let v = json_value(s, opened, entry as u32);
        if !moved(s, p, v) {
            v
        } else {
            json_after_element(s, v.st.closed_at(entry, v.st.pos), this, index)
        }
    }
}

/// What follows element `index`: a comma and more elements, or the
/// closing bracket.
pub open spec fn json_after_element(s: Seq<u8>, st: ScanState, this: u32, index: int) -> Step
    decreases s.len() - st.pos, 0int,
{
    proof {
        if 0 <= st.pos <= s.len() {
            lemma_skip_ws_bounds(s, st.pos);
        }
    }
    let p = skip_ws_from(s, st.pos);
    if st.pos < 0 || p >= s.len() {
        st.at(p).failed(ParseErrorKind::UnexpectedEof)
    } else if s[p] == COMMA {
        json_elements(s, st.at(p + 1), this, index + 1)
    } else if s[p] == RBRACKET {
        st.at(p + 1).done()
    } else {
        st.at(p).failed(ParseErrorKind::UnexpectedByte(s[p]))
    }
}

/// The whole document: a root entry spanning the input and one value.
/// Whatever follows the value is ignored.
pub open spec fn json_document(s: Seq<u8>) -> Step {
    let rooted = ScanState::empty().opened(0, ROOT_PARENT, PathSegment::Root);
    let v = json_value(s, rooted, 0);
    if v.err is Some {
        v
    } else {
        v.st.closed_at(0, s.len() as int).at(s.len() as int).done()
    }
}

pub proof fn lemma_string_close(s: Seq<u8>, i: int)
    requires
        0 <= i,
    ensures
        string_close(s, i) matches Some(q) ==> i <= q < s.len() && s[q] == QUOTE,
    decreases (if i < s.len() { s.len() - i } else { 0 }),
{
    if i < s.len() && s[i] != QUOTE {
        if s[i] == BACKSLASH {
            if i + 1 < s.len() && s[i + 1] == LOWER_U {
                lemma_string_close(s, i + 6);
            } else {
                lemma_string_close(s, i + 2);
            }
        } else {
            lemma_string_close(s, i + 1);
        }
    }
}

pub proof fn lemma_json_fields_positions(s: Seq<u8>, pos: int)
    ensures
        0 <= pos <= s.len() ==> {
            let p = skip_ws_from(s, pos);
            &&& pos <= p <= s.len()
            &&& string_close(s, p + 1) matches Some(q) ==> p < q < s.len() && q + 1 <= skip_ws_from(s, q + 1)
                <= s.len()
        },
        pos > s.len() ==> skip_ws_from(s, pos) == pos,
{
    if 0 <= pos <= s.len() {
        lemma_skip_ws_bounds(s, pos);
        let p = skip_ws_from(s, pos);
        lemma_string_close(s, p + 1);
        if let Some(q) = string_close(s, p + 1) {
            lemma_skip_ws_bounds(s, q + 1);
        }
    }
}

// --- parser ---------------------------------------------------------

struct Parser<'a> {
    cur: Cursor<'a>,
    paths: Vec<PathEntry>,
    styles: Vec<StyleSpan>,
    names: NameInterner,
    scratch: Vec<u8>,
}

impl<'a> View for Parser<'a> {
    type V = ScanState;

    closed spec fn view(&self) -> ScanState {
        ScanState {
            pos: self.cur.pos as int,
            paths: self.paths@,
            styles: self.styles@,
            names: self.names@,
        }
    }
}

/// Error of a result, if it is one.
pub open spec fn error_of(r: Result<(), ParseError>) -> Option<ParseError> {
    match r {
        Ok(_) => None,
        Err(e) => Some(e),
    }
}

impl<'a> Parser<'a> {
    spec fn wf(&self) -> bool {
        &&& self.cur.wf()
        &&& self.names.wf()
        &&& self.names@.len() <= self.paths@.len()
    }

    /// The relation between the state before and after a parsing call.
    spec fn follows(&self, before: &Self, res: Result<(), ParseError>) -> bool {
        &&& self.wf()
        &&& self.cur.input@ == before.cur.input@
        &&& self.paths@.len() >= before.paths@.len()
        &&& res is Ok ==> self.paths@.len() <= self.cur.pos && before.cur.pos < self.cur.pos
    }

    fn new(input: &'a [u8], progress: Option<&'a ProgressSink>) -> (r: Self)
        requires
            input@.len() < u32::MAX,
        ensures
            r.wf(),
            r.cur.input@ == input@,
            r@ == ScanState::empty(),
    {
        Parser {
            cur: Cursor::new(input, progress),
            paths: Vec::new(),
            styles: Vec::new(),
            names: NameInterner::new(),
            scratch: Vec::new(),
        }
    }

    fn push_style(&mut self, start: usize, kind: StyleKind)
        requires
            old(self).wf(),
            start <= old(self).cur.pos,
        ensures
            final(self).wf(),
            final(self).cur.input@ == old(self).cur.input@,
            final(self)@ == old(self)@.styled(start as int, old(self)@.pos, kind),
    {
        self.styles.push(StyleSpan { start: start as u32, end: self.cur.pos as u32, kind });
    }

    fn parse_document(&mut self) -> (res: Result<(), ParseError>)
        requires
            old(self).wf(),
            old(self)@ == ScanState::empty(),
        ensures
            final(self).wf(),
            final(self).cur.input@ == old(self).cur.input@,
            (Step { st: final(self)@, err: error_of(res) }) == json_document(old(self).cur.input@),
    {
        // Root spans the whole input so a click on leading/trailing
        // whitespace still resolves to path `.`.
        self.paths.push(PathEntry { start: 0, end: 0, parent: ROOT_PARENT, segment: PathSegment::Root });
        let res = self.parse_value_body(0);
        if res.is_err() {
            return res;
        }
        let mut root = self.paths[0];
        root.end = self.cur.input.len() as u32;
        self.paths[0] = root;
        // Trailing garbage is ignored, but for its line starts: this is a
        // viewer, not a validator.
        let end = self.cur.input.len();
        self.cur.advance_to(end);
        Ok(())
    }

    fn parse_value_body(&mut self, this: u32) -> (res: Result<(), ParseError>)
        requires
            old(self).wf(),
            old(self).paths@.len() <= old(self).cur.pos + 1,
        ensures
            final(self).follows(old(self), res),
            (Step { st: final(self)@, err: error_of(res) }) == json_value(old(self).cur.input@, old(self)@, this),
        decreases old(self).cur.input@.len() - old(self).cur.pos, 1int,
    {
        self.cur.skip_ws();
        let b = match self.cur.peek() {
            Some(b) => b,
            None => {
                return Err(self.cur.err(ParseErrorKind::UnexpectedEof));
            },
        };
        match b {
            LBRACE => self.parse_object(this),
            LBRACKET => self.parse_array(this),
            QUOTE => self.parse_string_value(),
            LOWER_T => self.parse_literal(&[LOWER_T, LOWER_R, LOWER_U, LOWER_E], StyleKind::Bool),
            LOWER_F => self.parse_literal(&[LOWER_F, LOWER_A, LOWER_L, LOWER_S, LOWER_E], StyleKind::Bool),
            LOWER_N => self.parse_literal(&[LOWER_N, LOWER_U, LOWER_L, LOWER_L], StyleKind::Null),
            MINUS | ZERO..=NINE => self.parse_number(),
            _ => Err(self.cur.err(ParseErrorKind::UnexpectedByte(b))),
        }
    }

    fn parse_object(&mut self, this: u32) -> (res: Result<(), ParseError>)
        requires
            old(self).wf(),
            old(self).paths@.len() <= old(self).cur.pos + 1,
            old(self).cur.pos < old(self).cur.input@.len(),
        ensures
            final(self).follows(old(self), res),
            (Step { st: final(self)@, err: error_of(res) }) == json_object(old(self).cur.input@, old(self)@, this),
        decreases old(self).cur.input@.len() - old(self).cur.pos, 0int,
    {
        self.cur.advance();
        self.cur.skip_ws();
        if self.cur.peek() == Some(RBRACE) {
            self.cur.advance();
            return Ok(());
        }
        let ghost input = self.cur.input@;
        let ghost goal = json_fields(input, self@, this);
        let ghost start = *self;
        loop
            invariant
                self.wf(),
                input == old(self).cur.input@,
                self.cur.input@ == input,
                self.paths@.len() >= old(self).paths@.len(),
                self.paths@.len() <= self.cur.pos,
                old(self).cur.pos < self.cur.pos,
                goal == json_object(input, old(self)@, this),
                goal == json_fields(input, self@, this),
            decreases input.len() - self.cur.pos,
        {
            let ghost at = *self;
            proof {
                lemma_json_fields_positions(input, at@.pos);
            }
            self.cur.skip_ws();
            let field_start: usize = self.cur.pos;
            if self.cur.peek() != Some(QUOTE) {
                return Err(self.cur.err(ParseErrorKind::UnexpectedByte(self.cur.peek_or_zero())));
            }
            let content = match self.parse_string_raw() {
                Ok(c) => c,
                Err(e) => {
                    return Err(e);
                },
            };
            self.push_style(field_start, StyleKind::Key);
            match decode_escapes_into(self.cur.input, content, &mut self.scratch) {
                Ok(()) => {},
                Err(e) => {
                    return Err(e);
                },
            }
            let key_id = self.names.intern(self.scratch.as_slice());
            let field_idx: usize = self.paths.len();
            self.paths.push(
                PathEntry { start: field_start as u32, end: 0, parent: this, segment: PathSegment::Key(key_id) },
            );
            self.cur.skip_ws();
            if self.cur.peek() != Some(COLON) {
                return Err(self.cur.err(ParseErrorKind::UnexpectedByte(self.cur.peek_or_zero())));
            }
            self.cur.advance();
            let res = self.parse_value_body(field_idx as u32);
            if res.is_err() {
                return res;
            }
            let mut entry = self.paths[field_idx];
            entry.end = self.cur.pos as u32;
            self.paths[field_idx] = entry;
            let ghost closed = self@;
            proof {
                assert(goal == json_after_field(input, closed, this));
            }
            self.cur.skip_ws();
            match self.cur.peek() {
                Some(b) => {
                    if b == COMMA {
                        self.cur.advance();
                    } else if b == RBRACE {
                        self.cur.advance();
                        return Ok(());
                    } else {
                        return Err(self.cur.err(ParseErrorKind::UnexpectedByte(b)));
                    }
                },
                None => {
                    return Err(self.cur.err(ParseErrorKind::UnexpectedEof));
                },
            }
        }
    }

    fn parse_array(&mut self, this: u32) -> (res: Result<(), ParseError>)
        requires
            old(self).wf(),
            old(self).paths@.len() <= old(self).cur.pos + 1,
            old(self).cur.pos < old(self).cur.input@.len(),
        ensures
            final(self).follows(old(self), res),
            (Step { st: final(self)@, err: error_of(res) }) == json_array(old(self).cur.input@, old(self)@, this),
        decreases old(self).cur.input@.len() - old(self).cur.pos, 0int,
    {
        self.cur.advance();
        self.cur.skip_ws();
        if self.cur.peek() == Some(RBRACKET) {
            self.cur.advance();
            return Ok(());
        }
        let mut index: u32 = 0;
        let ghost input = self.cur.input@;
        let ghost goal = json_elements(input, self@, this, 0);
        loop
            invariant
                self.wf(),
                input == old(self).cur.input@,
                self.cur.input@ == input,
                self.paths@.len() >= old(self).paths@.len(),
                self.paths@.len() <= self.cur.pos,
                old(self).cur.pos < self.cur.pos,
                index < self.cur.pos,
                goal == json_array(input, old(self)@, this),
                goal == json_elements(input, self@, this, index as int),
            decreases input.len() - self.cur.pos,
        {
            self.cur.skip_ws();
            let elem_start: usize = self.cur.pos;
            let elem_idx: usize = self.paths.len();
            self.paths.push(
                PathEntry {
                    start: elem_start as u32,
                    end: 0,
                    parent: this,
                    segment: PathSegment::Index(index),
                },
            );
            let res = self.parse_value_body(elem_idx as u32);
            if res.is_err() {
                return res;
            }
            let mut entry = self.paths[elem_idx];
            entry.end = self.cur.pos as u32;
            self.paths[elem_idx] = entry;
            let ghost closed = self@;
            proof {
                assert(goal == json_after_element(input, closed, this, index as int));
            }
            self.cur.skip_ws();
            match self.cur.peek() {
                Some(b) => {
                    if b == COMMA {
                        index += 1;
                        self.cur.advance();
                    } else if b == RBRACKET {
                        self.cur.advance();
                        return Ok(());
                    } else {
                        return Err(self.cur.err(ParseErrorKind::UnexpectedByte(b)));
                    }
                },
                None => {
                    return Err(self.cur.err(ParseErrorKind::UnexpectedEof));
                },
            }
        }
    }

    fn parse_string_value(&mut self) -> (res: Result<(), ParseError>)
        requires
            old(self).wf(),
            old(self).paths@.len() <= old(self).cur.pos + 1,
            byte_at(old(self).cur.input@, old(self).cur.pos as int) == Some(QUOTE),
        ensures
            final(self).follows(old(self), res),
            (Step { st: final(self)@, err: error_of(res) }) == json_string(old(self).cur.input@, old(self)@),
    {
        let start: usize = self.cur.pos;
        match self.parse_string_raw() {
            Ok(_) => {
                self.push_style(start, StyleKind::String);
                Ok(())
            },
            Err(e) => Err(e),
        }
    }

    /// Consume opening `"` through matching `"`. Returns the byte range
    /// of the raw (still-escaped) contents, exclusive of quotes.
    fn parse_string_raw(&mut self) -> (res: Result<(usize, usize), ParseError>)
        requires
            old(self).wf(),
            byte_at(old(self).cur.input@, old(self).cur.pos as int) == Some(QUOTE),
        ensures
            final(self).wf(),
            final(self).cur.input@ == old(self).cur.input@,
            match string_close(old(self).cur.input@, old(self).cur.pos + 1) {
                Some(q) => res == Ok::<(usize, usize), ParseError>(((old(self).cur.pos + 1) as usize, q as usize))
                    && old(self).cur.pos < q < old(self).cur.input@.len() && final(self)@ == old(self)@.at(q + 1),
                None => final(self)@ == old(self)@.at(old(self).cur.input@.len() as int) && res == Err::<
                    (usize, usize),
                    ParseError,
                >(
                    ParseError {
                        offset: old(self).cur.input@.len() as u32,
                        kind: ParseErrorKind::UnexpectedEof,
                    },
                ),
            },
    {
        self.cur.advance();
        let content_start: usize = self.cur.pos;
        let ghost input = self.cur.input@;
        loop
            invariant
                self.wf(),
                input == old(self).cur.input@,
                self.cur.input@ == input,
                self@ == old(self)@.at(self.cur.pos as int),
                content_start == old(self).cur.pos + 1,
                content_start <= self.cur.pos,
                string_close(input, content_start as int) == string_close(input, self.cur.pos as int),
            decreases input.len() - self.cur.pos,
        {
            match self.cur.peek() {
                None => {
                    return Err(self.cur.err(ParseErrorKind::UnexpectedEof));
                },
                Some(b) => {
                    if b == QUOTE {
                        let content_end: usize = self.cur.pos;
                        self.cur.advance();
                        return Ok((content_start, content_end));
                    }
                    self.cur.advance();
                    if b == BACKSLASH {
                        match self.cur.peek() {
                            None => {
                                proof {
                                    assert(string_close(input, self.cur.pos + 1) is None);
                                }
                                return Err(self.cur.err(ParseErrorKind::UnexpectedEof));
                            },
                            Some(esc) => {
                                self.cur.advance();
                                if esc == LOWER_U {
                                    let mut k: usize = 0;
                                    let ghost from = self.cur.pos;
                                    while k < 4
                                        invariant
                                            self.wf(),
                                            input == old(self).cur.input@,
                                            self.cur.input@ == input,
                                            self@ == old(self)@.at(self.cur.pos as int),
                                            self.cur.pos == from + k,
                                            k <= 4,
                                            string_close(input, old(self).cur.pos + 1) == string_close(
                                                input,
                                                from + 4,
                                            ),
                                        decreases 4 - k,
                                    {
                                        if self.cur.peek().is_none() {
                                            return Err(self.cur.err(ParseErrorKind::UnexpectedEof));
                                        }
                                        self.cur.advance();
                                        k += 1;
                                    }
                                }
                            },
                        }
                    }
                },
            }
        }
    }

    fn parse_literal(&mut self, word: &[u8], kind: StyleKind) -> (res: Result<(), ParseError>)
        requires
            old(self).wf(),
            old(self).paths@.len() <= old(self).cur.pos + 1,
            0 < word@.len(),
        ensures
            final(self).follows(old(self), res),
            (Step { st: final(self)@, err: error_of(res) }) == json_literal(
                old(self).cur.input@,
                old(self)@,
                word@,
                kind,
            ),
    {
        let start: usize = self.cur.pos;
        let mut k: usize = 0;
        while k < word.len()
            invariant
                self.wf(),
                self.cur.input@ == old(self).cur.input@,
                self@ == old(self)@.at(start + k),
                start == old(self).cur.pos,
                k <= word@.len(),
                literal_match(old(self).cur.input@, start as int, word@, 0) == literal_match(
                    old(self).cur.input@,
                    start as int,
                    word@,
                    k as int,
                ),
            decreases word@.len() - k,
        {
            match self.cur.peek() {
                None => {
                    return Err(self.cur.err(ParseErrorKind::UnexpectedEof));
                },
                Some(actual) => {
                    if actual != word[k] {
                        return Err(self.cur.err(ParseErrorKind::UnexpectedByte(actual)));
                    }
                },
            }
            self.cur.advance();
            k += 1;
        }
        self.push_style(start, kind);
        Ok(())
    }

    fn skip_digits(&mut self)
        requires
            old(self).wf(),
        ensures
            final(self).wf(),
            final(self).cur.input@ == old(self).cur.input@,
            final(self)@ == old(self)@.at(skip_digits_from(old(self).cur.input@, old(self)@.pos)),
            old(self)@.pos <= final(self)@.pos,
    {
        while self.cur.pos < self.cur.input.len() && is_digit_byte(self.cur.input[self.cur.pos])
            invariant
                self.wf(),
                self.cur.input@ == old(self).cur.input@,
                self@ == old(self)@.at(self.cur.pos as int),
                old(self)@.pos <= self@.pos,
                skip_digits_from(self.cur.input@, self.cur.pos as int) == skip_digits_from(
                    old(self).cur.input@,
                    old(self)@.pos,
                ),
            decreases self.cur.input@.len() - self.cur.pos,
        {
            self.cur.advance();
        }
    }

    fn parse_number(&mut self) -> (res: Result<(), ParseError>)
        requires
            old(self).wf(),
            old(self).paths@.len() <= old(self).cur.pos + 1,
        ensures
            final(self).follows(old(self), res),
            (Step { st: final(self)@, err: error_of(res) }) == json_number(old(self).cur.input@, old(self)@),
    {
        let start: usize = self.cur.pos;
        if self.cur.peek() == Some(MINUS) {
            self.cur.advance();
        }
        let first: usize = self.cur.pos;
        self.skip_digits();
        if self.cur.pos == first {
            return Err(self.cur.err(ParseErrorKind::InvalidNumber));
        }
        if self.cur.peek() == Some(DOT) {
            self.cur.advance();
            self.skip_digits();
        }
        if self.cur.peek() == Some(LOWER_E) || self.cur.peek() == Some(UPPER_E) {
            self.cur.advance();
            if self.cur.peek() == Some(PLUS) || self.cur.peek() == Some(MINUS) {
                self.cur.advance();
            }
            self.skip_digits();
        }
        self.push_style(start, StyleKind::Number);
        Ok(())
    }

    fn finish(self, error: Option<ParseError>) -> (r: ParseOutput)
        requires
            self.wf(),
        ensures
            r.reports(self.cur.input@, Step { st: self@, err: error }),
    {
        ParseOutput {
            line_starts: self.cur.line_starts,
            paths: PathIndex { entries: self.paths },
            styles: self.styles,
            names: self.names,
            error,
            bytes: self.cur.input.len(),
            csv: None,
        }
    }
}

fn hex_digit_value(b: u8) -> (r: Option<u32>)
    ensures
        r == hex_value(b),
{
    match b {
        ZERO..=NINE => Some((b - ZERO) as u32),
        LOWER_A..=LOWER_F => Some((b - LOWER_A + 10) as u32),
        UPPER_A..=UPPER_F => Some((b - UPPER_A + 10) as u32),
        _ => None,
    }
}

proof fn lemma_hex_number_bound(s: Seq<u8>)
    ensures
        s.len() <= 4 ==> (hex_number(s) matches Some(n) ==> 0 <= n && (s.len() == 0 ==> n < 1) && (s.len() == 1
            ==> n < 0x10) && (s.len() == 2 ==> n < 0x100) && (s.len() == 3 ==> n < 0x1000) && (s.len() == 4 ==> n
            < 0x10000)),
    decreases s.len(),
{
    if s.len() > 0 {
        lemma_hex_number_bound(s.drop_last());
    }
}

proof fn lemma_hex_number_prefix(s: Seq<u8>, n: int)
    requires
        0 <= n <= s.len(),
        hex_number(s.take(n)) is None,
    ensures
        hex_number(s) is None,
    decreases s.len() - n,
{
    if n < s.len() {
        assert(s.take(n + 1).drop_last() =~= s.take(n));
        lemma_hex_number_prefix(s, n + 1);
    } else {
        assert(s.take(n) =~= s);
    }
}

fn parse_hex4(bytes: &[u8]) -> (r: Option<u32>)
    requires
        bytes@.len() == 4,
    ensures
        match hex_number(bytes@) {
            Some(n) => r == Some(n as u32) && 0 <= n < 0x10000,
            None => r is None,
        },
{
    let mut n: u32 = 0;
    let mut i: usize = 0;
    while i < bytes.len()
        invariant
            i <= bytes@.len() == 4,
            hex_number(bytes@.take(i as int)) == Some(n as int),
        decreases 4 - i,
    {
        proof {
            assert(bytes@.take(i + 1).drop_last() =~= bytes@.take(i as int));
            lemma_hex_number_bound(bytes@.take(i as int));
        }
        match hex_digit_value(bytes[i]) {
            Some(d) => {
                n = n * 16 + d;
            },
            None => {
                proof {
                    lemma_hex_number_prefix(bytes@, i + 1);
                }
                return None;
            },
        }
        i += 1;
    }
    proof {
        assert(bytes@.take(4) =~= bytes@);
        lemma_hex_number_bound(bytes@);
    }
    Some(n)
}

proof fn lemma_decoded(s: Seq<u8>, i: int)
    ensures
        decode_escapes(s, i) matches Ok(bytes) ==> bytes == decoded_before_error(s, i),
    decreases s.len() - i,
{
    if 0 <= i < s.len() {
        if let Ok((bytes, width)) = decode_item(s, i) {
            lemma_decoded(s, i + width);
        }
    }
}

/// Decoding goes on behind an item that was decoded.
proof fn lemma_decode_step(s: Seq<u8>, i: int, before: Seq<u8>)
    requires
        0 <= i < s.len(),
        decode_item(s, i) is Ok,
    ensures
        ({
            let (bytes, width) = decode_item(s, i)->Ok_0;
            &&& before + decoded_before_error(s, i) == (before + bytes) + decoded_before_error(s, i + width)
            &&& decode_escapes(s, i) is Err == decode_escapes(s, i + width) is Err
            &&& decode_escapes(s, i) matches Err(at) ==> decode_escapes(s, i + width) == Err::<Seq<u8>, int>(at)
        }),
{
    let (bytes, width) = decode_item(s, i)->Ok_0;
    let ahead = decoded_before_error(s, i + width);
    assert(before + (bytes + ahead) =~= (before + bytes) + ahead);
}

/// Decodes the string text `input[range]` into `out`, replacing what it
/// held; on a malformed escape `out` holds what comes before it.
fn decode_escapes_into(input: &[u8], range: (usize, usize), out: &mut Vec<u8>) -> (res: Result<(), ParseError>)
    requires
        range.0 <= range.1 <= input@.len(),
        input@.len() < u32::MAX,
    ensures
        match decode_escapes(input@.subrange(range.0 as int, range.1 as int), 0) {
            Ok(bytes) => res is Ok && final(out)@ == bytes,
            Err(i) => res == Err::<(), ParseError>(
                ParseError { offset: (range.0 + i) as u32, kind: ParseErrorKind::InvalidEscape },
            ),
        },
        final(out)@ == decoded_before_error(input@.subrange(range.0 as int, range.1 as int), 0),
{
    out.clear();
    let (a, b) = range;
    let src = slice_subrange(input, a, b);
    let mut i: usize = 0;
    proof {
        lemma_decoded(src@, 0);
        assert(out@ + decoded_before_error(src@, 0) =~= decoded_before_error(src@, 0));
    }
    while i < src.len()
        invariant
            i <= src@.len(),
            src@ == input@.subrange(a as int, b as int),
            a <= b <= input@.len(),
            range == (a, b),
            input@.len() < u32::MAX,
            decode_escapes(src@, 0) is Err == decode_escapes(src@, i as int) is Err,
            decode_escapes(src@, 0) matches Err(at) ==> decode_escapes(src@, i as int) == Err::<Seq<u8>, int>(at),
            decoded_before_error(src@, 0) == out@ + decoded_before_error(src@, i as int),
        decreases src@.len() - i,
    {
        let ghost before = out@;
        let ghost from = i as int;
        proof {
            assert(before + Seq::<u8>::empty() =~= before);
        }
        let c = src[i];
        if c != BACKSLASH {
            out.push(c);
            i += 1;
            proof {
                lemma_decode_step(src@, from, before);
                assert(out@ =~= before + seq![c]);
            }
            continue;
        }
        i += 1;
        if i >= src.len() {
            return Err(ParseError { offset: (a + i) as u32, kind: ParseErrorKind::InvalidEscape });
        }
        let e = src[i];
        i += 1;
        match e {
            QUOTE => out.push(QUOTE),
            BACKSLASH => out.push(BACKSLASH),
            SLASH => out.push(SLASH),
            LOWER_B => out.push(BS),
            LOWER_F => out.push(FF),
            LOWER_N => out.push(LF),
            LOWER_R => out.push(CR),
            LOWER_T => out.push(TAB),
            LOWER_U => {
                if src.len() - i < 4 {
                    return Err(ParseError { offset: (a + i) as u32, kind: ParseErrorKind::InvalidEscape });
                }
                let n: u32 = match parse_hex4(slice_subrange(src, i, i + 4)) {
                    Some(n) => n,
                    None => {
                        return Err(ParseError { offset: (a + i) as u32, kind: ParseErrorKind::InvalidEscape });
                    },
                };
                i += 4;
                let mut cp: u32 = n;
                if 0xD800 <= n && n <= 0xDFFF {
                    cp = 0xFFFD;
                    if n <= 0xDBFF && src.len() - i >= 6 && src[i] == BACKSLASH && src[i + 1] == LOWER_U {
                        if let Some(n2) = parse_hex4(slice_subrange(src, i + 2, i + 6)) {
                            if 0xDC00 <= n2 && n2 <= 0xDFFF {
                                i += 6;
                                cp = 0x10000 + (n - 0xD800) * 0x400 + (n2 - 0xDC00);
                            }
                        }
                    }
                }
                push_scalar(out, cp);
            },
            _ => {
                return Err(ParseError { offset: (a + i) as u32, kind: ParseErrorKind::InvalidEscape });
            },
        }
        proof {
            let item = decode_item(src@, from);
            assert(item is Ok && item->Ok_0.1 == i - from);
            lemma_decode_step(src@, from, before);
            assert(out@ =~= before + item->Ok_0.0);
        }
    }
    proof {
        assert(out@ + Seq::<u8>::empty() =~= out@);
    }
    Ok(())
}

/// Parses a JSON document. The output reports exactly what the grammar
/// above says of `input`; on an error the indexes built up to it.
pub fn parse(input: &[u8], progress: Option<&ProgressSink>) -> (out: ParseOutput)
    requires
        input@.len() < u32::MAX,
    ensures
        out.reports(input@, json_document(input@)),
        out.wf(input@.len() as int),
        out.error is None ==> out.line_starts@ == line_starts_in(input@, input@.len() as int),
{
    proof {
        law_json_indexes(input@);
        lemma_line_starts(input@, json_document(input@).st.pos);
    }
    let mut p = Parser::new(input, progress);
    let err = match p.parse_document() {
        Ok(()) => None,
        Err(e) => Some(e),
    };
    if let Some(sink) = progress {
        sink.publish(input.len() as u64);
    }
    p.finish(err)
}

// --- path expression ------------------------------------------------

/// ASCII letter or underscore.
pub open spec fn is_ident_start(c: char) -> bool {
    'a' <= c <= 'z' || 'A' <= c <= 'Z' || c == '_'
}

pub open spec fn is_ident_char(c: char) -> bool {
    is_ident_start(c) || '0' <= c <= '9'
}

/// A key that jq accepts without quotes.
pub open spec fn is_ident(t: Seq<char>) -> bool {
    t.len() > 0 && is_ident_start(t[0]) && forall|i: int| 1 <= i < t.len() ==> is_ident_char(#[trigger] t[i])
}

/// A character as it appears inside a quoted key.
pub open spec fn jq_char(c: char) -> Seq<char> {
    if c == '"' {
        seq!['\\', '"']
    } else if c == '\\' {
        seq!['\\', '\\']
    } else if (c as u32) < 0x20 {
        seq!['\\', 'u'] + hex_digits((c as u32) as nat, 4)
    } else {
        seq![c]
    }
}

pub open spec fn jq_chars(t: Seq<char>) -> Seq<char>
    decreases t.len(),
{
    if t.len() == 0 {
        Seq::empty()
    } else {
        jq_chars(t.drop_last()) + jq_char(t.last())
    }
}

/// A key step: `.name` for identifiers, `.["..."]` for anything else.
pub open spec fn jq_key(t: Seq<char>) -> Seq<char> {
    if is_ident(t) {
        seq!['.'] + t
    } else {
        seq!['.', '[', '"'] + jq_chars(t) + seq!['"', ']']
    }
}

pub open spec fn jq_segment(segment: PathSegment, names: Seq<Seq<u8>>) -> Seq<char> {
    match segment {
        PathSegment::Key(id) => jq_key(text_or_replacement(names[id as int])),
        PathSegment::Index(i) => seq!['['] + decimal(i as nat) + seq![']'],
        _ => Seq::empty(),
    }
}

pub open spec fn jq_segments(segments: Seq<PathSegment>, names: Seq<Seq<u8>>) -> Seq<char>
    decreases segments.len(),
{
    if segments.len() == 0 {
        Seq::empty()
    } else {
        jq_segments(segments.drop_last(), names) + jq_segment(segments.last(), names)
    }
}

/// The jq expression of a path: `.` for the empty one; a path that would
/// start with `[` gets a leading dot.
pub open spec fn jq_path(segments: Seq<PathSegment>, names: Seq<Seq<u8>>) -> Seq<char> {
    let text = jq_segments(segments, names);
    if segments.len() == 0 {
        seq!['.']
    } else if text.len() > 0 && text[0] == '[' {
        seq!['.'] + text
    } else {
        text
    }
}

fn is_ident_start_char(c: char) -> (r: bool)
    ensures
        r == is_ident_start(c),
{
    ('a' <= c && c <= 'z') || ('A' <= c && c <= 'Z') || c == '_'
}

pub fn is_identifier(s: &str) -> (r: bool)
    ensures
        r == is_ident(s@),
{
    let mut first = true;
    for c in it: s.chars()
        invariant
            it.seq() == s@,
            first == (it.index() == 0),
            it.index() > 0 ==> is_ident_start(s@[0]),
            forall|i: int| 1 <= i < it.index() ==> is_ident_char(#[trigger] s@[i]),
    {
        if first {
            if !is_ident_start_char(c) {
                return false;
            }
            first = false;
        } else if !is_ident_start_char(c) && !('0' <= c && c <= '9') {
            proof {
                assert(!is_ident_char(s@[it.index() as int]));
            }
            return false;
        }
    }
    !first
}

fn push_jq_chars(out: &mut String, s: &str)
    ensures
        final(out)@ == old(out)@ + jq_chars(s@),
{
    proof {
        assert(old(out)@ + jq_chars(s@.take(0)) =~= old(out)@);
    }
    for c in it: s.chars()
        invariant
            it.seq() == s@,
            out@ == old(out)@ + jq_chars(s@.take(it.index() as int)),
    {
        let ghost before = out@;
        let ghost n = it.index() as int;
        if c == '"' {
            out.push('\\');
            out.push('"');
        } else if c == '\\' {
            out.push('\\');
            out.push('\\');
        } else if (c as u32) < 0x20 {
            out.push('\\');
            out.push('u');
            push_hex(out, c as u32, 4);
        } else {
            out.push(c);
        }
        proof {
            assert(s@.take(n + 1).drop_last() =~= s@.take(n));
            assert(out@ =~= before + jq_char(c));
            assert(out@ =~= old(out)@ + (jq_chars(s@.take(n)) + jq_char(c)));
        }
    }
    proof {
        assert(s@.take(s@.len() as int) =~= s@);
    }
}

/// Renders a JSON path as a jq expression. Non-identifier keys are
/// emitted as `["..."]`; array indices as `[N]`. Empty path gives ".".
pub fn path_expression(segments: &[PathSegment], names: &NameInterner) -> (r: String)
    requires
        names.wf(),
        forall|i: int| 0 <= i < segments@.len() ==> segment_named(#[trigger] segments@[i], names@.len()),
    ensures
        r@ == jq_path(segments@, names@),
{
    let mut out = String::new();
    if segments.len() == 0 {
        out.push('.');
        assert(out@ =~= seq!['.']);
        return out;
    }
    let mut starts_with_bracket = false;
    let mut k: usize = 0;
    proof {
        assert(jq_segments(segments@.take(0), names@) =~= Seq::<char>::empty());
    }
    while k < segments.len()
        invariant
            k <= segments@.len(),
            names.wf(),
            forall|i: int| 0 <= i < segments@.len() ==> segment_named(#[trigger] segments@[i], names@.len()),
            out@ == jq_segments(segments@.take(k as int), names@),
            starts_with_bracket == (out@.len() > 0 && out@[0] == '['),
        decreases segments@.len() - k,
    {
        let ghost before = out@;
        let empty = out.as_str().is_empty();
        let segment = segments[k];
        match segment {
            PathSegment::Key(id) => {
                let name = names.get(id);
                match utf8_str(name) {
                    Some(s) => push_jq_key(&mut out, s),
                    None => {
                        let replacement = "\u{FFFD}";
                        proof {
                            reveal_strlit("\u{FFFD}");
                            assert(replacement@ =~= seq!['\u{FFFD}']);
                        }
                        push_jq_key(&mut out, replacement);
                    },
                }
            },
            PathSegment::Index(i) => {
                if empty {
                    starts_with_bracket = true;
                }
                out.push('[');
                push_decimal(&mut out, i as u64);
                out.push(']');
                proof {
                    assert(out@ =~= before + (seq!['['] + decimal(i as nat) + seq![']']));
                }
            },
            _ => {
                proof {
                    assert(out@ =~= before + Seq::<char>::empty());
                }
            },
        }
        proof {
            assert(segments@.take(k + 1).drop_last() =~= segments@.take(k as int));
            assert(out@ == before + jq_segment(segment, names@));
        }
        k += 1;
    }
    proof {
        assert(segments@.take(segments@.len() as int) =~= segments@);
    }
    if starts_with_bracket {
        let mut dotted = String::new();
        dotted.push('.');
        push_text(&mut dotted, out.as_str());
        assert(dotted@ =~= seq!['.'] + out@);
        out = dotted;
    }
    out
}

fn push_jq_key(out: &mut String, s: &str)
    ensures
        final(out)@ == old(out)@ + jq_key(s@),
{
    out.push('.');
    if is_identifier(s) {
        push_text(out, s);
        assert(out@ =~= old(out)@ + (seq!['.'] + s@));
    } else {
        out.push('[');
        out.push('"');
        push_jq_chars(out, s);
        out.push('"');
        out.push(']');
        assert(out@ =~= old(out)@ + (seq!['.', '[', '"'] + jq_chars(s@) + seq!['"', ']']));
    }
}

// --- value extraction -----------------------------------------------

/// One past the quote that closes the string whose contents start at
/// `i`; a backslash hides the byte after it. The end of the input when
/// the string is not closed.
pub open spec fn string_stop(s: Seq<u8>, i: int) -> int
    decreases (if i < s.len() { s.len() - i } else { 0 }),
{
    if i < 0 || i >= s.len() {
        s.len() as int
    } else if s[i] == BACKSLASH && i + 1 < s.len() {
        string_stop(s, i + 2)
    } else if s[i] == QUOTE {
        i + 1
    } else {
        string_stop(s, i + 1)
    }
}

pub proof fn lemma_string_stop(s: Seq<u8>, i: int)
    requires
        0 <= i <= s.len(),
    ensures
        i <= string_stop(s, i) <= s.len(),
    decreases s.len() - i,
{
    if i < s.len() {
        if s[i] == BACKSLASH && i + 1 < s.len() {
            lemma_string_stop(s, i + 2);
        } else if s[i] != QUOTE {
            lemma_string_stop(s, i + 1);
        }
    }
}

pub fn find_string_stop(s: &[u8], i: usize) -> (r: usize)
    requires
        i <= s@.len(),
    ensures
        r == string_stop(s@, i as int),
        i <= r <= s@.len(),
{
    let mut j: usize = i;
    while j < s.len()
        invariant
            i <= j <= s@.len(),
            string_stop(s@, j as int) == string_stop(s@, i as int),
        decreases s@.len() - j,
    {
        if s[j] == BACKSLASH && j + 1 < s.len() {
            j += 2;
        } else if s[j] == QUOTE {
            return j + 1;
        } else {
            j += 1;
        }
    }
    j
}

/// Where the value of a field starts in its text `"key" : value`: after
/// the key, the whitespace behind it, and the colon with its whitespace
/// where there is one. Zero when the text does not start with a key.
pub open spec fn field_value_start(s: Seq<u8>) -> int {
    let k = skip_ws_from(s, 0);
    if byte_at(s, k) != Some(QUOTE) {
        0
    } else {
        let c = skip_ws_from(s, string_stop(s, k + 1));
        if byte_at(s, c) == Some(COLON) {
            skip_ws_from(s, c + 1)
        } else {
            c
        }
    }
}

fn skip_key_and_colon(slice: &[u8]) -> (r: &[u8])
    ensures
        r@ == slice@.subrange(field_value_start(slice@), slice@.len() as int),
        0 <= field_value_start(slice@) <= slice@.len(),
{
    let k = skip_ws_at(slice, 0);
    if k >= slice.len() || slice[k] != QUOTE {
        assert(slice@.subrange(0, slice@.len() as int) =~= slice@);
        return slice;
    }
    let stop = find_string_stop(slice, k + 1);
    let c: usize = skip_ws_at(slice, stop);
    let i: usize = if c < slice.len() && slice[c] == COLON {
        skip_ws_at(slice, c + 1)
    } else {
        c
    };
    slice_subrange(slice, i, slice.len())
}

/// Bytes of the JSON value covered by `entry`: fields without their key
/// and colon, the root without surrounding whitespace.
pub open spec fn json_value_bytes(bytes: Seq<u8>, entry: PathEntry) -> Seq<u8> {
    let text = entry_text(bytes, entry);
    match entry.segment {
        PathSegment::Root => trimmed(text),
        PathSegment::Key(_) => text.subrange(field_value_start(text), text.len() as int),
        _ => text,
    }
}

/// Bytes of the JSON *value* covered by `entry`. For object fields the
/// entry's raw range covers `"key": value`; this skips the key and colon
/// so the result is a standalone JSON value. For array elements and the
/// root the raw range is already a value, modulo surrounding whitespace.
pub fn value_bytes_for_entry<'a>(bytes: &'a [u8], entry: &PathEntry) -> (r: &'a [u8])
    ensures
        r@ == json_value_bytes(bytes@, *entry),
{
    let text = slice_of_entry(bytes, entry);
    match entry.segment {
        PathSegment::Root => trim_bytes(text),
        PathSegment::Key(_) => skip_key_and_colon(text),
        _ => text,
    }
}

// --- prettifier -----------------------------------------------------

/// Bytes that end a run of plain characters.
pub open spec fn is_structural(b: u8) -> bool {
    is_ws(b) || b == COMMA || b == RBRACE || b == RBRACKET || b == COLON || b == QUOTE || b == LBRACE || b == LBRACKET
}

pub open spec fn plain_end(s: Seq<u8>, i: int) -> int
    decreases s.len() - i,
{
    if 0 <= i < s.len() && !is_structural(s[i]) {
        plain_end(s, i + 1)
    } else {
        i
    }
}

pub proof fn lemma_plain_end(s: Seq<u8>, i: int)
    requires
        0 <= i <= s.len(),
    ensures
        i <= plain_end(s, i) <= s.len(),
        i < s.len() && !is_structural(s[i]) ==> i < plain_end(s, i),
    decreases s.len() - i,
{
    if i < s.len() && !is_structural(s[i]) {
        lemma_plain_end(s, i + 1);
    }
}

/// A line feed and two spaces per level.
pub open spec fn line_indent(depth: nat) -> Seq<u8> {
    seq![LF] + Seq::new(2 * depth, |i: int| SPACE)
}

pub open spec fn closer_of(open: u8) -> u8 {
    if open == LBRACE {
        RBRACE
    } else {
        RBRACKET
    }
}

/// The prettified text of `s` from `i` on, inside `depth` open brackets:
/// two-space indentation, a line break after each comma and opening
/// bracket and before each closing one, empty brackets kept together,
/// one space after a colon, strings and other runs as they are.
pub open spec fn json_pretty(s: Seq<u8>, i: int, depth: nat) -> Seq<u8>
    decreases s.len() - i,
{
    proof {
        if 0 <= i < s.len() {
            lemma_skip_ws_bounds(s, i + 1);
            lemma_string_stop(s, i + 1);
            lemma_plain_end(s, i);
        }
    }
    if i < 0 || i >= s.len() {
        Seq::empty()
    } else if is_ws(s[i]) {
        json_pretty(s, i + 1, depth)
    } else if s[i] == LBRACE || s[i] == LBRACKET {
        let j = skip_ws_from(s, i + 1);
        if byte_at(s, j) == Some(closer_of(s[i])) {
            seq![s[i], closer_of(s[i])] + json_pretty(s, j + 1, depth)
        } else {
            seq![s[i]] + line_indent(depth + 1) + json_pretty(s, i + 1, depth + 1)
        }
    } else if s[i] == RBRACE || s[i] == RBRACKET {
        let outer = if depth == 0 {
            0
        } else {
            (depth - 1) as nat
        };
        line_indent(outer) + seq![s[i]] + json_pretty(s, i + 1, outer)
    } else if s[i] == COMMA {
        seq![COMMA] + line_indent(depth) + json_pretty(s, i + 1, depth)
    } else if s[i] == COLON {
        seq![COLON, SPACE] + json_pretty(s, i + 1, depth)
    } else if s[i] == QUOTE {
        let e = string_stop(s, i + 1);
        s.subrange(i, e) + json_pretty(s, e, depth)
    } else {
        let e = plain_end(s, i);
        s.subrange(i, e) + json_pretty(s, e, depth)
    }
}

fn is_structural_byte(b: u8) -> (r: bool)
    ensures
        r == is_structural(b),
{
    is_ws_byte(b) || b == COMMA || b == RBRACE || b == RBRACKET || b == COLON || b == QUOTE || b == LBRACE || b
        == LBRACKET
}

fn find_plain_end(s: &[u8], i: usize) -> (r: usize)
    requires
        i <= s@.len(),
    ensures
        r == plain_end(s@, i as int),
        i <= r <= s@.len(),
        i < s@.len() && !is_structural(s@[i as int]) ==> i < r,
{
    proof {
        lemma_plain_end(s@, i as int);
    }
    let mut e: usize = i;
    while e < s.len() && !is_structural_byte(s[e])
        invariant
            i <= e <= s@.len(),
            plain_end(s@, e as int) == plain_end(s@, i as int),
        decreases s@.len() - e,
    {
        e += 1;
    }
    e
}

/// Appends a line feed and `depth` levels of indentation.
pub fn write_indent(out: &mut Vec<u8>, depth: usize)
    ensures
        final(out)@ == old(out)@ + line_indent(depth as nat),
{
    out.push(LF);
    let mut k: usize = 0;
    while k < depth
        invariant
            k <= depth,
            out@ == old(out)@ + line_indent(k as nat),
        decreases depth - k,
    {
        out.push(SPACE);
        out.push(SPACE);
        k += 1;
        assert(out@ =~= old(out)@ + line_indent(k as nat));
    }
}

/// Byte-level state machine: tokenises the input just enough to
/// recognise structural punctuation and string boundaries, and re-emits
/// with 2-space indentation and a newline after each comma.
pub fn prettify(input: &[u8]) -> (out: Vec<u8>)
    ensures
        out@ == json_pretty(input@, 0, 0),
{
    let mut out: Vec<u8> = Vec::new();
    let mut depth: usize = 0;
    let mut i: usize = 0;
    let n: usize = input.len();
    let ghost goal = json_pretty(input@, 0, 0);
    proof {
        assert(out@ + goal =~= goal);
    }
    while i < n
        invariant
            i <= n == input@.len(),
            depth <= i,
            goal == out@ + json_pretty(input@, i as int, depth as nat),
        decreases n - i,
    {
        let b = input[i];
        let ghost before = out@;
        let ghost mut chunk: Seq<u8> = Seq::empty();
        if is_ws_byte(b) {
            i += 1;
        } else if b == LBRACE || b == LBRACKET {
            let j = skip_ws_at(input, i + 1);
            let close = if b == LBRACE {
                RBRACE
            } else {
                RBRACKET
            };
            out.push(b);
            if j < n && input[j] == close {
                out.push(close);
                i = j + 1;
                proof {
                    chunk = seq![b, close];
                }
            } else {
                depth += 1;
                write_indent(&mut out, depth);
                i += 1;
                proof {
                    chunk = seq![b] + line_indent(depth as nat);
                }
            }
        } else if b == RBRACE || b == RBRACKET {
            if depth > 0 {
                depth -= 1;
            }
            write_indent(&mut out, depth);
            out.push(b);
            i += 1;
            proof {
                chunk = line_indent(depth as nat) + seq![b];
            }
        } else if b == COMMA {
            out.push(COMMA);
            write_indent(&mut out, depth);
            i += 1;
            proof {
                chunk = seq![COMMA] + line_indent(depth as nat);
            }
        } else if b == COLON {
            out.push(COLON);
            out.push(SPACE);
            i += 1;
            proof {
                chunk = seq![COLON, SPACE];
            }
        } else if b == QUOTE {
            let e = find_string_stop(input, i + 1);
            push_bytes(&mut out, slice_subrange(input, i, e));
            proof {
                chunk = input@.subrange(i as int, e as int);
            }
            i = e;
        } else {
            let e = find_plain_end(input, i);
            push_bytes(&mut out, slice_subrange(input, i, e));
            proof {
                chunk = input@.subrange(i as int, e as int);
            }
            i = e;
        }
        proof {
            let rest = json_pretty(input@, i as int, depth as nat);
            assert(out@ =~= before + chunk);
            assert(chunk.len() == 0 ==> chunk + rest =~= rest);
            assert(before + (chunk + rest) =~= (before + chunk) + rest);
        }
    }
    proof {
        assert(out@ + Seq::<u8>::empty() =~= out@);
    }
    out
}

} // verus!
