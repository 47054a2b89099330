//! The message tokenizer and the readers built from it.
//!
//! Five delimiter-driven state machines consume bytes from an input
//! sequence: space-delimited tokens, CRLF-delimited lines, colon-delimited
//! header keys, the comma-and-quote header-value grammar, and fixed-length
//! bodies.  Each machine has a specification-level reading (a recursive
//! `spec fn` over `Seq<u8>`) and an executable reader proved equal to it.

use crate::http::HTTPError;
use crate::http::HeaderEntry;
use crate::http::HeaderVal;
use crate::http::HeaderValModel;
use crate::http::Headers;
use crate::http::Request;
use crate::http::RequestModel;
use crate::http::RequestType;
use crate::http::Response;
use crate::http::ResponseModel;
use crate::http::Version;
use crate::http::insert_entry;
use crate::http::lookup;
use vstd::prelude::*;
use vstd::utf8::decode_utf8;
use vstd::utf8::valid_utf8;

verus! {

pub const CR: u8 = 13;

pub const LF: u8 = 10;

pub const SP: u8 = 32;

pub const COLON: u8 = 58;

pub const COMMA: u8 = 44;

pub const DQUOTE: u8 = 34;

/// Every token reader refuses tokens longer than this many bytes.
pub const MAX_TOKEN_LEN: usize = 4096;

/// Reading a space-delimited token from `s` at `pos` with `buf` already
/// accumulated: the bytes before the next space, or nothing if the input
/// ends first or the token would grow past `max` bytes.
pub open spec fn sp_read_at(s: Seq<u8>, pos: int, buf: Seq<u8>, max: int) -> Option<(Seq<u8>, int)>
    decreases s.len() - pos,
{
    if pos < 0 || pos >= s.len() {
        None
    } else if s[pos] == SP {
        Some((buf, pos + 1))
    } else if buf.len() >= max {
        None
    } else {
        sp_read_at(s, pos + 1, buf.push(s[pos]), max)
    }
}

/// The space-delimited token starting at `pos`.
pub open spec fn sp_read(s: Seq<u8>, pos: int) -> Option<(Seq<u8>, int)> {
    sp_read_at(s, pos, Seq::empty(), MAX_TOKEN_LEN as int)
}

/// Reading a line-delimited token: the bytes before the next CR + LF pair.
/// A CR not immediately followed by LF, a bare LF, the end of the input,
/// and a token past `max` bytes are all grammar violations.
pub open spec fn eol_read_at(s: Seq<u8>, pos: int, buf: Seq<u8>, max: int) -> Option<
    (Seq<u8>, int),
>
    decreases s.len() - pos,
{
    if pos < 0 || pos >= s.len() {
        None
    } else if s[pos] == CR {
        if pos + 1 < s.len() && s[pos + 1] == LF {
            Some((buf, pos + 2))
        } else {
            None
        }
    } else if s[pos] == LF {
        None
    } else if buf.len() >= max {
        None
    } else {
        eol_read_at(s, pos + 1, buf.push(s[pos]), max)
    }
}

/// The line-delimited token starting at `pos`.
pub open spec fn eol_read(s: Seq<u8>, pos: int) -> Option<(Seq<u8>, int)> {
    eol_read_at(s, pos, Seq::empty(), MAX_TOKEN_LEN as int)
}

/// Reading a header key: the bytes before the next colon.  A CR + LF pair
/// before any content yields the empty token, which signals the end of the
/// header block; a CR anywhere else is a grammar violation.
pub open spec fn key_read_at(s: Seq<u8>, pos: int, buf: Seq<u8>, max: int) -> Option<
    (Seq<u8>, int),
>
    decreases s.len() - pos,
{
    if pos < 0 || pos >= s.len() {
        None
    } else if s[pos] == COLON {
        Some((buf, pos + 1))
    } else if s[pos] == CR {
        if buf.len() == 0 && pos + 1 < s.len() && s[pos + 1] == LF {
            Some((buf, pos + 2))
        } else {
            None
        }
    } else if buf.len() >= max {
        None
    } else {
        key_read_at(s, pos + 1, buf.push(s[pos]), max)
    }
}

/// The header key starting at `pos`.
pub open spec fn key_read(s: Seq<u8>, pos: int) -> Option<(Seq<u8>, int)> {
    key_read_at(s, pos, Seq::empty(), MAX_TOKEN_LEN as int)
}

/// Reading a fixed-length body: exactly `n` bytes, no delimiter
/// interpretation; nothing if fewer than `n` bytes remain.
pub open spec fn body_read(s: Seq<u8>, pos: int, n: int) -> Option<(Seq<u8>, int)> {
    if 0 <= pos && 0 <= n && pos + n <= s.len() {
        Some((s.subrange(pos, pos + n), pos + n))
    } else {
        None
    }
}

/// The shared token-reader contract: consume bytes from `input` starting at
/// `pos` until the reader's grammar is satisfied, and return the
/// accumulated token together with the position just past what was
/// consumed.  The reader's own state is reset on entry, so the result
/// depends only on the input, the position, and the reader's configuration.
pub trait Parser {
    /// The specification-level reading this reader implements.
    spec fn spec_read(&self, s: Seq<u8>, pos: int) -> Option<(Seq<u8>, int)>;

    fn read_req_component(&mut self, input: &[u8], pos: usize) -> (r: Option<(Vec<u8>, usize)>)
        ensures
            match r {
                Some((tok, p)) => {
                    &&& old(self).spec_read(input@, pos as int) == Some((tok@, p as int))
                    &&& pos <= p <= input@.len()
                },
                None => old(self).spec_read(input@, pos as int) is None,
            },
            forall|s2: Seq<u8>, p2: int|
                (#[trigger] final(self).spec_read(s2, p2)) == old(self).spec_read(s2, p2),
    ;
}

/// A fresh copy of a byte buffer.
fn copy_bytes(v: &Vec<u8>) -> (r: Vec<u8>)
    ensures
        r@ == v@,
{
    let mut r: Vec<u8> = Vec::new();
    let mut i: usize = 0;
    while i < v.len()
        invariant
            i <= v.len(),
            r@ == v@.take(i as int),
        decreases v.len() - i,
    {
        r.push(v[i]);
        proof {
            assert(v@.take(i + 1) =~= v@.take(i as int).push(v@[i as int]));
        }
        i = i + 1;
    }
    proof {
        assert(v@.take(v@.len() as int) =~= v@);
    }
    r
}

/// Reads tokens delimited by a single space.
pub struct SPParser {
    pub buf: Vec<u8>,
    pub max_token_len: usize,
}

impl SPParser {
    pub fn new() -> (r: SPParser)
        ensures
            r.buf@ == Seq::<u8>::empty(),
            r.max_token_len == MAX_TOKEN_LEN,
    {
        SPParser { buf: Vec::new(), max_token_len: MAX_TOKEN_LEN }
    }
}

impl Parser for SPParser {
    open spec fn spec_read(&self, s: Seq<u8>, pos: int) -> Option<(Seq<u8>, int)> {
        sp_read_at(s, pos, Seq::empty(), self.max_token_len as int)
    }

    fn read_req_component(&mut self, input: &[u8], pos: usize) -> (r: Option<(Vec<u8>, usize)>) {
        self.buf.clear();
        if pos > input.len() {
            return None;
        }
        let ghost s = input@;
        let ghost max = self.max_token_len as int;
        let mut i: usize = pos;
        loop
            invariant
                pos <= i <= s.len(),
                s == input@,
                max == self.max_token_len as int,
                old(self).max_token_len == self.max_token_len,
                sp_read_at(s, pos as int, Seq::empty(), max) == sp_read_at(
                    s,
                    i as int,
                    self.buf@,
                    max,
                ),
            decreases s.len() - i,
        {
            if i >= input.len() {
                return None;
            }
            let b = input[i];
            if b == SP {
                let tok = copy_bytes(&self.buf);
                return Some((tok, i + 1));
            } else if self.buf.len() >= self.max_token_len {
                return None;
            } else {
                self.buf.push(b);
                i = i + 1;
            }
        }
    }
}

/// Reads tokens delimited by a CR + LF pair.
pub struct EOLParser {
    pub buf: Vec<u8>,
    pub max_token_len: usize,
}

impl EOLParser {
    pub fn new() -> (r: EOLParser)
        ensures
            r.buf@ == Seq::<u8>::empty(),
            r.max_token_len == MAX_TOKEN_LEN,
    {
        EOLParser { buf: Vec::new(), max_token_len: MAX_TOKEN_LEN }
    }
}

impl Parser for EOLParser {
    open spec fn spec_read(&self, s: Seq<u8>, pos: int) -> Option<(Seq<u8>, int)> {
        eol_read_at(s, pos, Seq::empty(), self.max_token_len as int)
    }

    fn read_req_component(&mut self, input: &[u8], pos: usize) -> (r: Option<(Vec<u8>, usize)>) {
        self.buf.clear();
        if pos > input.len() {
            return None;
        }
        let ghost s = input@;
        let ghost max = self.max_token_len as int;
        let mut i: usize = pos;
        loop
            invariant
                pos <= i <= s.len(),
                s == input@,
                max == self.max_token_len as int,
                old(self).max_token_len == self.max_token_len,
                eol_read_at(s, pos as int, Seq::empty(), max) == eol_read_at(
                    s,
                    i as int,
                    self.buf@,
                    max,
                ),
            decreases s.len() - i,
        {
            if i >= input.len() {
                return None;
            }
            let b = input[i];
            if b == CR {
                if i + 1 < input.len() && input[i + 1] == LF {
                    let tok = copy_bytes(&self.buf);
                    return Some((tok, i + 2));
                } else {
                    return None;
                }
            } else if b == LF {
                return None;
            } else if self.buf.len() >= self.max_token_len {
                return None;
            } else {
                self.buf.push(b);
                i = i + 1;
            }
        }
    }
}

/// Reads header keys delimited by a colon, and recognizes the blank line
/// that terminates the header block.
pub struct HeaderKeyParser {
    pub buf: Vec<u8>,
    pub max_token_len: usize,
}

impl HeaderKeyParser {
    pub fn new() -> (r: HeaderKeyParser)
        ensures
            r.buf@ == Seq::<u8>::empty(),
            r.max_token_len == MAX_TOKEN_LEN,
    {
        HeaderKeyParser { buf: Vec::new(), max_token_len: MAX_TOKEN_LEN }
    }
}

impl Parser for HeaderKeyParser {
    open spec fn spec_read(&self, s: Seq<u8>, pos: int) -> Option<(Seq<u8>, int)> {
        key_read_at(s, pos, Seq::empty(), self.max_token_len as int)
    }

    fn read_req_component(&mut self, input: &[u8], pos: usize) -> (r: Option<(Vec<u8>, usize)>) {
        self.buf.clear();
        if pos > input.len() {
            return None;
        }
        let ghost s = input@;
        let ghost max = self.max_token_len as int;
        let mut i: usize = pos;
        loop
            invariant
                pos <= i <= s.len(),
                s == input@,
                max == self.max_token_len as int,
                old(self).max_token_len == self.max_token_len,
                key_read_at(s, pos as int, Seq::empty(), max) == key_read_at(
                    s,
                    i as int,
                    self.buf@,
                    max,
                ),
            decreases s.len() - i,
        {
            if i >= input.len() {
                return None;
            }
            let b = input[i];
            if b == COLON {
                let tok = copy_bytes(&self.buf);
                return Some((tok, i + 1));
            } else if b == CR {
                if self.buf.len() == 0 && i + 1 < input.len() && input[i + 1] == LF {
                    return Some((Vec::new(), i + 2));
                } else {
                    return None;
                }
            } else if self.buf.len() >= self.max_token_len {
                return None;
            } else {
                self.buf.push(b);
                i = i + 1;
            }
        }
    }
}

/// Reads exactly `body_len` bytes.
pub struct BodyParser {
    pub buf: Vec<u8>,
    pub body_len: usize,
}

impl BodyParser {
    pub fn new(body_len: usize) -> (r: BodyParser)
        ensures
            r.buf@ == Seq::<u8>::empty(),
            r.body_len == body_len,
    {
        BodyParser { buf: Vec::new(), body_len }
    }
}

impl Parser for BodyParser {
    open spec fn spec_read(&self, s: Seq<u8>, pos: int) -> Option<(Seq<u8>, int)> {
        body_read(s, pos, self.body_len as int)
    }

    fn read_req_component(&mut self, input: &[u8], pos: usize) -> (r: Option<(Vec<u8>, usize)>) {
        self.buf.clear();
        if pos > input.len() || self.body_len > input.len() - pos {
            return None;
        }
        let ghost s = input@;
        let mut i: usize = pos;
        while i < pos + self.body_len
            invariant
                pos <= i <= pos + self.body_len,
                pos + self.body_len <= s.len(),
                s == input@,
                old(self).body_len == self.body_len,
                self.buf@ == s.subrange(pos as int, i as int),
            decreases pos + self.body_len - i,
        {
            self.buf.push(input[i]);
            proof {
                assert(s.subrange(pos as int, i + 1) =~= s.subrange(pos as int, i as int).push(
                    s[i as int],
                ));
            }
            i = i + 1;
        }
        let tok = copy_bytes(&self.buf);
        Some((tok, i))
    }
}


pub const HTAB: u8 = 9;

/// Optional whitespace around a header-value token: space or horizontal tab.
pub open spec fn is_ws(b: u8) -> bool {
    b == SP || b == HTAB
}

/// `s` without its leading whitespace.
pub open spec fn drop_leading_ws(s: Seq<u8>) -> Seq<u8>
    decreases s.len(),
{
    if s.len() > 0 && is_ws(s[0]) {
        drop_leading_ws(s.drop_first())
    } else {
        s
    }
}

/// `s` without its trailing whitespace.
pub open spec fn drop_trailing_ws(s: Seq<u8>) -> Seq<u8>
    decreases s.len(),
{
    if s.len() > 0 && is_ws(s.last()) {
        drop_trailing_ws(s.drop_last())
    } else {
        s
    }
}

/// `s` without leading and trailing whitespace.
pub open spec fn trim_ws(s: Seq<u8>) -> Seq<u8> {
    drop_trailing_ws(drop_leading_ws(s))
}

fn is_ws_byte(b: u8) -> (r: bool)
    ensures
        r == is_ws(b),
{
    b == SP || b == HTAB
}

/// The whitespace-trimmed copy of a byte buffer.
fn trim_bytes(v: &Vec<u8>) -> (r: Vec<u8>)
    ensures
        r@ == trim_ws(v@),
{
    let ghost s = v@;
    let mut lo: usize = 0;
    proof {
        assert(s.skip(0) =~= s);
    }
    while lo < v.len() && is_ws_byte(v[lo])
        invariant
            0 <= lo <= s.len(),
            s == v@,
            drop_leading_ws(s) == drop_leading_ws(s.skip(lo as int)),
        decreases s.len() - lo,
    {
        proof {
            assert(s.skip(lo as int)[0] == s[lo as int]);
            assert(s.skip(lo as int).drop_first() =~= s.skip(lo + 1));
        }
        lo = lo + 1;
    }
    proof {
        if lo < s.len() {
            assert(!is_ws(s.skip(lo as int)[0]));
        }
        assert(drop_leading_ws(s.skip(lo as int)) == s.skip(lo as int));
    }
    let mut hi: usize = v.len();
    proof {
        assert(s.subrange(lo as int, hi as int) =~= s.skip(lo as int));
    }
    while hi > lo && is_ws_byte(v[hi - 1])
        invariant
            lo <= hi <= s.len(),
            s == v@,
            drop_trailing_ws(s.skip(lo as int)) == drop_trailing_ws(
                s.subrange(lo as int, hi as int),
            ),
        decreases hi,
    {
        proof {
            assert(s.subrange(lo as int, hi as int).last() == s[hi - 1]);
            assert(s.subrange(lo as int, hi as int).drop_last() =~= s.subrange(lo as int, hi - 1));
        }
        hi = hi - 1;
    }
    proof {
        if hi > lo {
            assert(s.subrange(lo as int, hi as int).last() == s[hi - 1]);
        }
        assert(drop_trailing_ws(s.subrange(lo as int, hi as int)) == s.subrange(
            lo as int,
            hi as int,
        ));
    }
    let mut r: Vec<u8> = Vec::new();
    let mut i: usize = lo;
    while i < hi
        invariant
            lo <= i <= hi <= s.len(),
            s == v@,
            r@ == s.subrange(lo as int, i as int),
        decreases hi - i,
    {
        r.push(v[i]);
        proof {
            assert(s.subrange(lo as int, i + 1) =~= s.subrange(lo as int, i as int).push(
                s[i as int],
            ));
        }
        i = i + 1;
    }
    r
}

/// The characters a byte sequence decodes to, or the empty string where it
/// is not valid UTF-8.
pub open spec fn utf8_or_empty(b: Seq<u8>) -> Seq<char> {
    if valid_utf8(b) {
        decode_utf8(b)
    } else {
        Seq::empty()
    }
}

/// Relies on `String::from_utf8`: it succeeds exactly on input that is
/// valid UTF-8 and returns the characters that input encodes.
#[verifier::external_body]
fn bytes_to_string(v: Vec<u8>) -> (r: Option<String>)
    ensures
        r is Some <==> valid_utf8(v@),
        r matches Some(s) ==> s@ == decode_utf8(v@),
{
    match String::from_utf8(v) {
        Ok(s) => Some(s),
        Err(_) => None,
    }
}

/// The string a raw token decodes to, with invalid UTF-8 mapped to the
/// empty string.
fn token_string(v: Vec<u8>) -> (r: String)
    ensures
        r@ == utf8_or_empty(v@),
{
    match bytes_to_string(v) {
        Some(s) => s,
        None => String::new(),
    }
}

/// The six states of the header-value machine.
#[derive(Debug, PartialEq, Eq, Structural, Clone, Copy)]
pub enum HeaderValParserState {
    OptionalWhitespace,
    Token,
    TokenDelimiter,
    QuotedString,
    CR,
    LF,
}

/// One header value accumulated from a list of trimmed raw tokens:
/// no token is an absent value, one token a single value, several a list.
pub open spec fn hv_of_tokens(toks: Seq<Seq<u8>>) -> HeaderValModel {
    if toks.len() == 0 {
        HeaderValModel::Absent
    } else if toks.len() == 1 {
        HeaderValModel::Single(utf8_or_empty(toks[0]))
    } else {
        HeaderValModel::Multi(toks.map_values(|t: Seq<u8>| utf8_or_empty(t)))
    }
}

/// Appending one more token string to an accumulating header value.
pub open spec fn hv_append(m: HeaderValModel, t: Seq<char>) -> HeaderValModel {
    match m {
        HeaderValModel::Absent => HeaderValModel::Single(t),
        HeaderValModel::Single(s) => HeaderValModel::Multi(seq![s, t]),
        HeaderValModel::Multi(l) => HeaderValModel::Multi(l.push(t)),
    }
}

proof fn lemma_hv_of_tokens_push(toks: Seq<Seq<u8>>, t: Seq<u8>)
    ensures
        hv_of_tokens(toks.push(t)) == hv_append(hv_of_tokens(toks), utf8_or_empty(t)),
{
    if toks.len() == 0 {
        assert(toks.push(t)[0] == t);
    } else if toks.len() == 1 {
        assert(toks.push(t).map_values(|x: Seq<u8>| utf8_or_empty(x)) =~= seq![
            utf8_or_empty(toks[0]),
            utf8_or_empty(t),
        ]);
    } else {
        assert(toks.push(t).map_values(|x: Seq<u8>| utf8_or_empty(x)) =~= toks.map_values(
            |x: Seq<u8>| utf8_or_empty(x),
        ).push(utf8_or_empty(t)));
    }
}

fn hv_append_exec(hv: HeaderVal, t: String) -> (r: HeaderVal)
    ensures
        r@ == hv_append(hv@, t@),
{
    match hv {
        HeaderVal::Absent => HeaderVal::Single(t),
        HeaderVal::Single(s) => {
            let mut l: Vec<String> = Vec::new();
            l.push(s);
            l.push(t);
            proof {
                assert(l.deep_view() =~= seq![s@, t@]);
            }
            HeaderVal::Multi(l)
        },
        HeaderVal::Multi(l) => {
            let ghost lv = l.deep_view();
            let mut l2 = l;
            l2.push(t);
            proof {
                assert(l2.deep_view() =~= lv.push(t@));
            }
            HeaderVal::Multi(l2)
        },
    }
}

/// Reading a header value from `s` at `pos` in the given machine state,
/// with `buf` the bytes of the token being scanned and `acc` the trimmed
/// tokens completed so far: the completed token list and the position past
/// the terminating CR + LF, or nothing on a grammar violation.
///
/// Leading whitespace is skipped.  A double quote toggles quoted-span mode,
/// inside which spaces and commas lose their delimiter meaning.  A comma
/// outside quotes closes the current token; CR is only valid immediately
/// after a completed token and LF only immediately after CR.  At the end
/// the last pending token, if any, is appended.
pub open spec fn hv_read_at(
    s: Seq<u8>,
    pos: int,
    state: HeaderValParserState,
    buf: Seq<u8>,
    acc: Seq<Seq<u8>>,
    max: int,
) -> Option<(Seq<Seq<u8>>, int)>
    decreases s.len() - pos,
{
    if pos < 0 || pos >= s.len() {
        None
    } else {
        let b = s[pos];
        if state == HeaderValParserState::CR {
            if b == LF {
                Some(
                    (
                        if buf.len() > 0 {
                            acc.push(trim_ws(buf))
                        } else {
                            acc
                        },
                        pos + 1,
                    ),
                )
            } else {
                None
            }
        } else if state == HeaderValParserState::QuotedString {
            if b == DQUOTE {
                hv_read_at(s, pos + 1, HeaderValParserState::Token, buf, acc, max)
            } else if b == CR || b == LF {
                None
            } else if buf.len() >= max {
                None
            } else {
                hv_read_at(s, pos + 1, HeaderValParserState::QuotedString, buf.push(b), acc, max)
            }
        } else {
            if b == CR {
                if state == HeaderValParserState::Token {
                    hv_read_at(s, pos + 1, HeaderValParserState::CR, buf, acc, max)
                } else {
                    None
                }
            } else if b == LF {
                None
            } else if b == SP {
                if state == HeaderValParserState::Token {
                    hv_read_at(s, pos + 1, HeaderValParserState::TokenDelimiter, buf, acc, max)
                } else {
                    hv_read_at(s, pos + 1, state, buf, acc, max)
                }
            } else if b == COMMA {
                hv_read_at(
                    s,
                    pos + 1,
                    HeaderValParserState::TokenDelimiter,
                    Seq::empty(),
                    acc.push(trim_ws(buf)),
                    max,
                )
            } else if b == DQUOTE {
                hv_read_at(s, pos + 1, HeaderValParserState::QuotedString, buf, acc, max)
            } else if buf.len() >= max {
                None
            } else {
                hv_read_at(s, pos + 1, HeaderValParserState::Token, buf.push(b), acc, max)
            }
        }
    }
}

/// The header value starting at `pos`.
pub open spec fn hv_read(s: Seq<u8>, pos: int) -> Option<(Seq<Seq<u8>>, int)> {
    hv_read_at(
        s,
        pos,
        HeaderValParserState::OptionalWhitespace,
        Seq::empty(),
        Seq::empty(),
        MAX_TOKEN_LEN as int,
    )
}

/// Reads one header value with the comma-and-quote grammar.
pub struct HeaderValParser {
    pub buf: Vec<u8>,
    pub max_token_len: usize,
    pub header_val: HeaderVal,
    pub state: HeaderValParserState,
}

impl HeaderValParser {
    pub fn new() -> (r: HeaderValParser)
        ensures
            r.buf@ == Seq::<u8>::empty(),
            r.max_token_len == MAX_TOKEN_LEN,
            r.header_val == HeaderVal::Absent,
            r.state == HeaderValParserState::OptionalWhitespace,
    {
        HeaderValParser {
            buf: Vec::new(),
            max_token_len: MAX_TOKEN_LEN,
            header_val: HeaderVal::Absent,
            state: HeaderValParserState::OptionalWhitespace,
        }
    }

    /// Consumes one header value, resetting the machine state on entry.
    pub fn read_req_component(&mut self, input: &[u8], pos: usize) -> (r: Option<
        (HeaderVal, usize),
    >)
        ensures
            match r {
                Some((v, p)) => match hv_read_at(
                    input@,
                    pos as int,
                    HeaderValParserState::OptionalWhitespace,
                    Seq::empty(),
                    Seq::empty(),
                    old(self).max_token_len as int,
                ) {
                    Some((toks, sp)) => v@ == hv_of_tokens(toks) && p == sp && pos <= p
                        <= input@.len(),
                    None => false,
                },
                None => hv_read_at(
                    input@,
                    pos as int,
                    HeaderValParserState::OptionalWhitespace,
                    Seq::empty(),
                    Seq::empty(),
                    old(self).max_token_len as int,
                ) is None,
            },
            final(self).max_token_len == old(self).max_token_len,
    {
        self.buf.clear();
        self.header_val = HeaderVal::Absent;
        self.state = HeaderValParserState::OptionalWhitespace;
        if pos > input.len() {
            return None;
        }
        let ghost s = input@;
        let ghost max = self.max_token_len as int;
        let ghost mut toks: Seq<Seq<u8>> = Seq::empty();
        let mut i: usize = pos;
        loop
            invariant
                pos <= i <= s.len(),
                s == input@,
                max == self.max_token_len as int,
                old(self).max_token_len == self.max_token_len,
                self.header_val@ == hv_of_tokens(toks),
                hv_read_at(
                    s,
                    pos as int,
                    HeaderValParserState::OptionalWhitespace,
                    Seq::empty(),
                    Seq::empty(),
                    max,
                ) == hv_read_at(s, i as int, self.state, self.buf@, toks, max),
            decreases s.len() - i,
        {
            if i >= input.len() {
                return None;
            }
            let b = input[i];
            if self.state == HeaderValParserState::CR {
                if b == LF {
                    let out: HeaderVal;
                    if self.buf.len() > 0 {
                        let t = trim_bytes(&self.buf);
                        let ts = token_string(t);
                        let mut tmp = HeaderVal::Absent;
                        core::mem::swap(&mut tmp, &mut self.header_val);
                        out = hv_append_exec(tmp, ts);
                        proof {
                            lemma_hv_of_tokens_push(toks, trim_ws(self.buf@));
                            toks = toks.push(trim_ws(self.buf@));
                        }
                    } else {
                        let mut tmp = HeaderVal::Absent;
                        core::mem::swap(&mut tmp, &mut self.header_val);
                        out = tmp;
                    }
                    return Some((out, i + 1));
                } else {
                    return None;
                }
            } else if self.state == HeaderValParserState::QuotedString {
                if b == DQUOTE {
                    self.state = HeaderValParserState::Token;
                    i = i + 1;
                } else if b == CR || b == LF {
                    return None;
                } else if self.buf.len() >= self.max_token_len {
                    return None;
                } else {
                    self.buf.push(b);
                    i = i + 1;
                }
            } else {
                if b == CR {
                    if self.state == HeaderValParserState::Token {
                        self.state = HeaderValParserState::CR;
                        i = i + 1;
                    } else {
                        return None;
                    }
                } else if b == LF {
                    return None;
                } else if b == SP {
                    if self.state == HeaderValParserState::Token {
                        self.state = HeaderValParserState::TokenDelimiter;
                    }
                    i = i + 1;
                } else if b == COMMA {
                    let ghost oldbuf = self.buf@;
                    let t = trim_bytes(&self.buf);
                    let ts = token_string(t);
                    let mut tmp = HeaderVal::Absent;
                    core::mem::swap(&mut tmp, &mut self.header_val);
                    self.header_val = hv_append_exec(tmp, ts);
                    proof {
                        lemma_hv_of_tokens_push(toks, trim_ws(oldbuf));
                        toks = toks.push(trim_ws(oldbuf));
                    }
                    self.buf.clear();
                    self.state = HeaderValParserState::TokenDelimiter;
                    i = i + 1;
                } else if b == DQUOTE {
                    self.state = HeaderValParserState::QuotedString;
                    i = i + 1;
                } else if self.buf.len() >= self.max_token_len {
                    return None;
                } else {
                    self.buf.push(b);
                    self.state = HeaderValParserState::Token;
                    i = i + 1;
                }
            }
        }
    }
}


/// The exact byte spelling each recognized method token must have.
pub open spec fn method_bytes(m: RequestType) -> Seq<u8> {
    match m {
        RequestType::GET => seq![71u8, 69, 84],
        RequestType::HEAD => seq![72u8, 69, 65, 68],
        RequestType::POST => seq![80u8, 79, 83, 84],
        RequestType::PUT => seq![80u8, 85, 84],
        RequestType::DELETE => seq![68u8, 69, 76, 69, 84, 69],
        RequestType::TRACE => seq![84u8, 82, 65, 67, 69],
        RequestType::OPTIONS => seq![79u8, 80, 84, 73, 79, 78, 83],
        RequestType::CONNECT => seq![67u8, 79, 78, 78, 69, 67, 84],
        RequestType::PATCH => seq![80u8, 65, 84, 67, 72],
    }
}

/// The method a raw token names, by exact case-sensitive byte equality.
pub open spec fn method_of(tok: Seq<u8>) -> Option<RequestType> {
    if tok == method_bytes(RequestType::GET) {
        Some(RequestType::GET)
    } else if tok == method_bytes(RequestType::HEAD) {
        Some(RequestType::HEAD)
    } else if tok == method_bytes(RequestType::POST) {
        Some(RequestType::POST)
    } else if tok == method_bytes(RequestType::PUT) {
        Some(RequestType::PUT)
    } else if tok == method_bytes(RequestType::DELETE) {
        Some(RequestType::DELETE)
    } else if tok == method_bytes(RequestType::TRACE) {
        Some(RequestType::TRACE)
    } else if tok == method_bytes(RequestType::OPTIONS) {
        Some(RequestType::OPTIONS)
    } else if tok == method_bytes(RequestType::CONNECT) {
        Some(RequestType::CONNECT)
    } else if tok == method_bytes(RequestType::PATCH) {
        Some(RequestType::PATCH)
    } else {
        None
    }
}

/// The exact byte spelling of each recognized version literal.  The 2.0
/// literal is matched with a different letter case than the other three,
/// as the wire vocabulary has it.
pub open spec fn version_bytes(v: Version) -> Seq<u8> {
    match v {
        Version::Http09 => seq![72u8, 84, 84, 80, 47, 48, 46, 57],
        Version::Http10 => seq![72u8, 84, 84, 80, 47, 49, 46, 48],
        Version::Http11 => seq![72u8, 84, 84, 80, 47, 49, 46, 49],
        Version::Http20 => seq![72u8, 116, 116, 112, 47, 50, 46, 48],
    }
}

/// The version a raw token names.
pub open spec fn version_of(tok: Seq<u8>) -> Option<Version> {
    if tok == version_bytes(Version::Http09) {
        Some(Version::Http09)
    } else if tok == version_bytes(Version::Http10) {
        Some(Version::Http10)
    } else if tok == version_bytes(Version::Http11) {
        Some(Version::Http11)
    } else if tok == version_bytes(Version::Http20) {
        Some(Version::Http20)
    } else {
        None
    }
}

/// A decimal digit byte.
pub open spec fn is_digit(b: u8) -> bool {
    48 <= b <= 57
}

/// The status code a raw token names: exactly three decimal digits, the
/// first one nonzero, read as a number in 100..=999.
pub open spec fn status_of(tok: Seq<u8>) -> Option<int> {
    if tok.len() == 3 && is_digit(tok[0]) && is_digit(tok[1]) && is_digit(tok[2]) && tok[0] != 48 {
        Some(100 * (tok[0] - 48) + 10 * (tok[1] - 48) + (tok[2] - 48))
    } else {
        None
    }
}

fn match_method(tok: &Vec<u8>) -> (r: Option<RequestType>)
    ensures
        r == method_of(tok@),
{
    let n = tok.len();
    if n == 3 && tok[0] == 71 && tok[1] == 69 && tok[2] == 84 {
        proof {
            assert(tok@ =~= method_bytes(RequestType::GET));
        }
        Some(RequestType::GET)
    } else if n == 4 && tok[0] == 72 && tok[1] == 69 && tok[2] == 65 && tok[3] == 68 {
        proof {
            assert(tok@ =~= method_bytes(RequestType::HEAD));
        }
        Some(RequestType::HEAD)
    } else if n == 4 && tok[0] == 80 && tok[1] == 79 && tok[2] == 83 && tok[3] == 84 {
        proof {
            assert(tok@ =~= method_bytes(RequestType::POST));
        }
        Some(RequestType::POST)
    } else if n == 3 && tok[0] == 80 && tok[1] == 85 && tok[2] == 84 {
        proof {
            assert(tok@ =~= method_bytes(RequestType::PUT));
        }
        Some(RequestType::PUT)
    } else if n == 6 && tok[0] == 68 && tok[1] == 69 && tok[2] == 76 && tok[3] == 69 && tok[4]
        == 84 && tok[5] == 69 {
        proof {
            assert(tok@ =~= method_bytes(RequestType::DELETE));
        }
        Some(RequestType::DELETE)
    } else if n == 5 && tok[0] == 84 && tok[1] == 82 && tok[2] == 65 && tok[3] == 67 && tok[4]
        == 69 {
        proof {
            assert(tok@ =~= method_bytes(RequestType::TRACE));
        }
        Some(RequestType::TRACE)
    } else if n == 7 && tok[0] == 79 && tok[1] == 80 && tok[2] == 84 && tok[3] == 73 && tok[4]
        == 79 && tok[5] == 78 && tok[6] == 83 {
        proof {
            assert(tok@ =~= method_bytes(RequestType::OPTIONS));
        }
        Some(RequestType::OPTIONS)
    } else if n == 7 && tok[0] == 67 && tok[1] == 79 && tok[2] == 78 && tok[3] == 78 && tok[4]
        == 69 && tok[5] == 67 && tok[6] == 84 {
        proof {
            assert(tok@ =~= method_bytes(RequestType::CONNECT));
        }
        Some(RequestType::CONNECT)
    } else if n == 5 && tok[0] == 80 && tok[1] == 65 && tok[2] == 84 && tok[3] == 67 && tok[4]
        == 72 {
        proof {
            assert(tok@ =~= method_bytes(RequestType::PATCH));
        }
        Some(RequestType::PATCH)
    } else {
        None
    }
}

fn match_version(tok: &Vec<u8>) -> (r: Option<Version>)
    ensures
        r == version_of(tok@),
{
    if tok.len() != 8 {
        return None;
    }
    if tok[0] == 72 && tok[1] == 84 && tok[2] == 84 && tok[3] == 80 && tok[4] == 47 && tok[5]
        == 48 && tok[6] == 46 && tok[7] == 57 {
        proof {
            assert(tok@ =~= version_bytes(Version::Http09));
        }
        Some(Version::Http09)
    } else if tok[0] == 72 && tok[1] == 84 && tok[2] == 84 && tok[3] == 80 && tok[4] == 47
        && tok[5] == 49 && tok[6] == 46 && tok[7] == 48 {
        proof {
            assert(tok@ =~= version_bytes(Version::Http10));
        }
        Some(Version::Http10)
    } else if tok[0] == 72 && tok[1] == 84 && tok[2] == 84 && tok[3] == 80 && tok[4] == 47
        && tok[5] == 49 && tok[6] == 46 && tok[7] == 49 {
        proof {
            assert(tok@ =~= version_bytes(Version::Http11));
        }
        Some(Version::Http11)
    } else if tok[0] == 72 && tok[1] == 116 && tok[2] == 116 && tok[3] == 112 && tok[4] == 47
        && tok[5] == 50 && tok[6] == 46 && tok[7] == 48 {
        proof {
            assert(tok@ =~= version_bytes(Version::Http20));
        }
        Some(Version::Http20)
    } else {
        None
    }
}

fn match_status(tok: &Vec<u8>) -> (r: Option<isize>)
    ensures
        match r {
            Some(c) => status_of(tok@) == Some(c as int) && 100 <= c <= 999,
            None => status_of(tok@) is None,
        },
{
    if tok.len() == 3 {
        let d0 = tok[0];
        let d1 = tok[1];
        let d2 = tok[2];
        if 48 < d0 && d0 <= 57 && 48 <= d1 && d1 <= 57 && 48 <= d2 && d2 <= 57 {
            let c: isize = 100 * ((d0 - 48) as isize) + 10 * ((d1 - 48) as isize) + ((d2
                - 48) as isize);
            return Some(c);
        }
    }
    None
}


/// A decimal digit character.
pub open spec fn is_digit_char(c: char) -> bool {
    48 <= c as u32 <= 57
}

/// The number a string of decimal digits denotes.
pub open spec fn dec_value(s: Seq<char>) -> int
    decreases s.len(),
{
    if s.len() == 0 {
        0
    } else {
        10 * dec_value(s.drop_last()) + (s.last() as u32 - 48)
    }
}

/// The byte count a Content-Length value announces: a non-empty string of
/// decimal digits whose value fits the machine's size type; anything else
/// announces nothing.
pub open spec fn parse_content_length(s: Seq<char>) -> Option<int> {
    if s.len() > 0 && (forall|i: int| 0 <= i < s.len() ==> is_digit_char(s[i])) && dec_value(s)
        <= usize::MAX {
        Some(dec_value(s))
    } else {
        None
    }
}

proof fn lemma_dec_value_nonneg(s: Seq<char>)
    requires
        forall|i: int| 0 <= i < s.len() ==> is_digit_char(s[i]),
    ensures
        dec_value(s) >= 0,
    decreases s.len(),
{
    if s.len() > 0 {
        lemma_dec_value_nonneg(s.drop_last());
    }
}

proof fn lemma_dec_value_prefix(s: Seq<char>, i: int)
    requires
        0 <= i <= s.len(),
        forall|j: int| 0 <= j < s.len() ==> is_digit_char(s[j]),
    ensures
        dec_value(s.take(i)) <= dec_value(s),
    decreases s.len() - i,
{
    if i < s.len() {
        lemma_dec_value_prefix(s, i + 1);
        assert(s.take(i + 1).drop_last() =~= s.take(i));
        assert(s.take(i + 1).last() == s[i]);
        lemma_dec_value_nonneg(s.take(i));
    } else {
        assert(s.take(i) =~= s);
    }
}

/// Reads a Content-Length value: decimal digits only, no sign, no
/// surrounding text, refusing values past the machine's size type.
fn parse_usize_str(s: &str) -> (r: Option<usize>)
    ensures
        match r {
            Some(n) => parse_content_length(s@) == Some(n as int),
            None => parse_content_length(s@) is None,
        },
{
    let n = s.unicode_len();
    if n == 0 {
        return None;
    }
    let ghost sv = s@;
    let mut acc: usize = 0;
    let mut i: usize = 0;
    while i < n
        invariant
            0 <= i <= n,
            n == sv.len(),
            sv == s@,
            forall|j: int| 0 <= j < i ==> is_digit_char(sv[j]),
            acc as int == dec_value(sv.take(i as int)),
        decreases n - i,
    {
        let c = s.get_char(i);
        let u = c as u32;
        if u < 48 || u > 57 {
            proof {
                assert(!is_digit_char(sv[i as int]));
            }
            return None;
        }
        let d: usize = (u - 48) as usize;
        let limit: usize = usize::MAX / 10;
        proof {
            assert(sv.take(i + 1).drop_last() =~= sv.take(i as int));
            assert(sv.take(i + 1).last() == sv[i as int]);
        }
        if acc > limit || (acc == limit && d > usize::MAX % 10) {
            proof {
                assert(dec_value(sv.take(i + 1)) > usize::MAX);
                if forall|j: int| 0 <= j < sv.len() ==> is_digit_char(sv[j]) {
                    lemma_dec_value_prefix(sv, i + 1);
                }
            }
            return None;
        }
        acc = acc * 10 + d;
        i = i + 1;
    }
    proof {
        assert(sv.take(n as int) =~= sv);
    }
    Some(acc)
}

pub proof fn lemma_key_read_at_bounds(s: Seq<u8>, pos: int, buf: Seq<u8>, max: int)
    ensures
        key_read_at(s, pos, buf, max) matches Some((t, p)) ==> pos < p <= s.len(),
    decreases s.len() - pos,
{
    if pos < 0 || pos >= s.len() {
    } else if s[pos] == COLON {
    } else if s[pos] == CR {
    } else if buf.len() >= max {
    } else {
        lemma_key_read_at_bounds(s, pos + 1, buf.push(s[pos]), max);
    }
}

pub proof fn lemma_hv_read_at_bounds(
    s: Seq<u8>,
    pos: int,
    state: HeaderValParserState,
    buf: Seq<u8>,
    acc: Seq<Seq<u8>>,
    max: int,
)
    ensures
        hv_read_at(s, pos, state, buf, acc, max) matches Some((t, p)) ==> pos < p <= s.len(),
    decreases s.len() - pos,
{
    if pos < 0 || pos >= s.len() {
    } else {
        let b = s[pos];
        if state == HeaderValParserState::CR {
        } else if state == HeaderValParserState::QuotedString {
            if b == DQUOTE {
                lemma_hv_read_at_bounds(s, pos + 1, HeaderValParserState::Token, buf, acc, max);
            } else if b == CR || b == LF {
            } else if buf.len() >= max {
            } else {
                lemma_hv_read_at_bounds(
                    s,
                    pos + 1,
                    HeaderValParserState::QuotedString,
                    buf.push(b),
                    acc,
                    max,
                );
            }
        } else {
            if b == CR {
                if state == HeaderValParserState::Token {
                    lemma_hv_read_at_bounds(s, pos + 1, HeaderValParserState::CR, buf, acc, max);
                }
            } else if b == LF {
            } else if b == SP {
                if state == HeaderValParserState::Token {
                    lemma_hv_read_at_bounds(
                        s,
                        pos + 1,
                        HeaderValParserState::TokenDelimiter,
                        buf,
                        acc,
                        max,
                    );
                } else {
                    lemma_hv_read_at_bounds(s, pos + 1, state, buf, acc, max);
                }
            } else if b == COMMA {
                lemma_hv_read_at_bounds(
                    s,
                    pos + 1,
                    HeaderValParserState::TokenDelimiter,
                    Seq::empty(),
                    acc.push(trim_ws(buf)),
                    max,
                );
            } else if b == DQUOTE {
                lemma_hv_read_at_bounds(
                    s,
                    pos + 1,
                    HeaderValParserState::QuotedString,
                    buf,
                    acc,
                    max,
                );
            } else if buf.len() >= max {
            } else {
                lemma_hv_read_at_bounds(
                    s,
                    pos + 1,
                    HeaderValParserState::Token,
                    buf.push(b),
                    acc,
                    max,
                );
            }
        }
    }
}


/// Reading the method token: the next space-delimited token, mapped
/// against the method vocabulary.
pub open spec fn spec_read_request_type(s: Seq<u8>, pos: int) -> Option<(RequestType, int)> {
    match sp_read(s, pos) {
        Some((tok, p)) => match method_of(tok) {
            Some(m) => Some((m, p)),
            None => None,
        },
        None => None,
    }
}

/// Reads the method token.
pub fn read_request_type(input: &[u8], pos: usize) -> (r: Option<(RequestType, usize)>)
    ensures
        match r {
            Some((m, p)) => spec_read_request_type(input@, pos as int) == Some((m, p as int))
                && pos <= p <= input@.len(),
            None => spec_read_request_type(input@, pos as int) is None,
        },
{
    let mut parser = SPParser::new();
    match parser.read_req_component(input, pos) {
        Some((tok, p)) => match match_method(&tok) {
            Some(m) => Some((m, p)),
            None => None,
        },
        None => None,
    }
}

/// Reading the resource token: the next space-delimited token, which must
/// decode as text.
pub open spec fn spec_read_resource(s: Seq<u8>, pos: int) -> Option<(Seq<char>, int)> {
    match sp_read(s, pos) {
        Some((tok, p)) => if valid_utf8(tok) {
            Some((decode_utf8(tok), p))
        } else {
            None
        },
        None => None,
    }
}

/// Reads the resource token.
pub fn read_resource(input: &[u8], pos: usize) -> (r: Option<(String, usize)>)
    ensures
        match r {
            Some((res, p)) => spec_read_resource(input@, pos as int) == Some((res@, p as int))
                && pos <= p <= input@.len(),
            None => spec_read_resource(input@, pos as int) is None,
        },
{
    let mut parser = SPParser::new();
    match parser.read_req_component(input, pos) {
        Some((tok, p)) => match bytes_to_string(tok) {
            Some(s) => Some((s, p)),
            None => None,
        },
        None => None,
    }
}

/// Reading the reason phrase: the next line-delimited token, which must
/// decode as text.
pub open spec fn spec_read_reason(s: Seq<u8>, pos: int) -> Option<(Seq<char>, int)> {
    match eol_read(s, pos) {
        Some((tok, p)) => if valid_utf8(tok) {
            Some((decode_utf8(tok), p))
        } else {
            None
        },
        None => None,
    }
}

/// Reads the reason phrase.
pub fn read_reason(input: &[u8], pos: usize) -> (r: Option<(String, usize)>)
    ensures
        match r {
            Some((res, p)) => spec_read_reason(input@, pos as int) == Some((res@, p as int))
                && pos <= p <= input@.len(),
            None => spec_read_reason(input@, pos as int) is None,
        },
{
    let mut parser = EOLParser::new();
    match parser.read_req_component(input, pos) {
        Some((tok, p)) => match bytes_to_string(tok) {
            Some(s) => Some((s, p)),
            None => None,
        },
        None => None,
    }
}

/// Reads a version token with the given token reader and maps it against
/// the version vocabulary.
pub fn read_version<T: Parser>(input: &[u8], pos: usize, parser: &mut T) -> (r: Option<
    (Version, usize),
>)
    ensures
        match r {
            Some((v, p)) => match old(parser).spec_read(input@, pos as int) {
                Some((tok, sp)) => version_of(tok) == Some(v) && p == sp && pos <= p
                    <= input@.len(),
                None => false,
            },
            None => match old(parser).spec_read(input@, pos as int) {
                Some((tok, sp)) => version_of(tok) is None,
                None => true,
            },
        },
{
    match parser.read_req_component(input, pos) {
        Some((tok, p)) => match match_version(&tok) {
            Some(v) => Some((v, p)),
            None => None,
        },
        None => None,
    }
}

/// Reading the status code: the next space-delimited token, which must be
/// exactly three decimal digits.
pub open spec fn spec_read_status_code(s: Seq<u8>, pos: int) -> Option<(int, int)> {
    match sp_read(s, pos) {
        Some((tok, p)) => match status_of(tok) {
            Some(c) => Some((c, p)),
            None => None,
        },
        None => None,
    }
}

/// Reads the status code.
pub fn read_status_code(input: &[u8], pos: usize) -> (r: Option<(isize, usize)>)
    ensures
        match r {
            Some((c, p)) => spec_read_status_code(input@, pos as int) == Some(
                (c as int, p as int),
            ) && 100 <= c <= 999 && pos <= p <= input@.len(),
            None => spec_read_status_code(input@, pos as int) is None,
        },
{
    let mut parser = SPParser::new();
    match parser.read_req_component(input, pos) {
        Some((tok, p)) => match match_status(&tok) {
            Some(c) => Some((c, p)),
            None => None,
        },
        None => None,
    }
}

/// Reading a request line: method, resource, and version, each failure
/// naming its own grammar production.
pub open spec fn spec_read_req_line(s: Seq<u8>, pos: int) -> Result<
    (RequestType, Seq<char>, Version, int),
    HTTPError,
> {
    match spec_read_request_type(s, pos) {
        None => Err(HTTPError::MethodParseError),
        Some((m, p1)) => match spec_read_resource(s, p1) {
            None => Err(HTTPError::ResourceParseError),
            Some((res, p2)) => match eol_read(s, p2) {
                None => Err(HTTPError::VersionParseError),
                Some((vtok, p3)) => match version_of(vtok) {
                    None => Err(HTTPError::VersionParseError),
                    Some(ver) => Ok((m, res, ver, p3)),
                },
            },
        },
    }
}

/// Reads a request line: method, resource, and version.
pub fn read_req_line(input: &[u8], pos: usize) -> (r: Result<
    (RequestType, String, Version, usize),
    HTTPError,
>)
    ensures
        match r {
            Ok((m, res, ver, p)) => spec_read_req_line(input@, pos as int) == Ok::<
                (RequestType, Seq<char>, Version, int),
                HTTPError,
            >((m, res@, ver, p as int)) && pos <= p <= input@.len(),
            Err(e) => spec_read_req_line(input@, pos as int) == Err::<
                (RequestType, Seq<char>, Version, int),
                HTTPError,
            >(e),
        },
{
    let method = match read_request_type(input, pos) {
        None => {
            return Err(HTTPError::MethodParseError);
        },
        Some(mp) => mp,
    };
    let resource = match read_resource(input, method.1) {
        None => {
            return Err(HTTPError::ResourceParseError);
        },
        Some(rp) => rp,
    };
    let mut parser = EOLParser::new();
    let version = match read_version(input, resource.1, &mut parser) {
        None => {
            return Err(HTTPError::VersionParseError);
        },
        Some(vp) => vp,
    };
    Ok((method.0, resource.0, version.0, version.1))
}

/// Reading a status line: version, three-digit status code, and reason
/// phrase, each failure naming its own grammar production.
pub open spec fn spec_read_status_line(s: Seq<u8>, pos: int) -> Result<
    (Version, int, Seq<char>, int),
    HTTPError,
> {
    match sp_read(s, pos) {
        None => Err(HTTPError::VersionParseError),
        Some((vtok, p1)) => match version_of(vtok) {
            None => Err(HTTPError::VersionParseError),
            Some(ver) => match spec_read_status_code(s, p1) {
                None => Err(HTTPError::StatusCodeParseError),
                Some((code, p2)) => match spec_read_reason(s, p2) {
                    None => Err(HTTPError::StatusReasonParseError),
                    Some((reason, p3)) => Ok((ver, code, reason, p3)),
                },
            },
        },
    }
}

/// Reads a status line: version, status code, and reason phrase.
pub fn read_status_line(input: &[u8], pos: usize) -> (r: Result<
    (Version, isize, String, usize),
    HTTPError,
>)
    ensures
        match r {
            Ok((ver, code, reason, p)) => spec_read_status_line(input@, pos as int) == Ok::<
                (Version, int, Seq<char>, int),
                HTTPError,
            >((ver, code as int, reason@, p as int)) && 100 <= code <= 999 && pos <= p
                <= input@.len(),
            Err(e) => spec_read_status_line(input@, pos as int) == Err::<
                (Version, int, Seq<char>, int),
                HTTPError,
            >(e),
        },
{
    let mut parser = SPParser::new();
    let version = match read_version(input, pos, &mut parser) {
        None => {
            return Err(HTTPError::VersionParseError);
        },
        Some(vp) => vp,
    };
    let code = match read_status_code(input, version.1) {
        None => {
            return Err(HTTPError::StatusCodeParseError);
        },
        Some(cp) => cp,
    };
    let reason = match read_reason(input, code.1) {
        None => {
            return Err(HTTPError::StatusReasonParseError);
        },
        Some(rp) => rp,
    };
    Ok((version.0, code.0, reason.0, reason.1))
}

/// Reading the header block from `s` at `pos` with the entries in `acc`
/// already read: keys and values alternate until an empty key — a blank
/// line, a bare colon, or a key that is not text — terminates the block.
/// A repeated key overwrites the prior value.
pub open spec fn headers_read_at(s: Seq<u8>, pos: int, acc: Seq<HeaderEntry>) -> Option<
    (Seq<HeaderEntry>, int),
>
    decreases s.len() - pos,
{
    match key_read(s, pos) {
        None => None,
        Some((kb, p1)) => {
            let kstr = utf8_or_empty(kb);
            if kstr.len() == 0 {
                Some((acc, p1))
            } else {
                match hv_read(s, p1) {
                    None => None,
                    Some((toks, p2)) => {
                        proof {
                            lemma_key_read_at_bounds(s, pos, Seq::empty(), MAX_TOKEN_LEN as int);
                            lemma_hv_read_at_bounds(
                                s,
                                p1,
                                HeaderValParserState::OptionalWhitespace,
                                Seq::empty(),
                                Seq::empty(),
                                MAX_TOKEN_LEN as int,
                            );
                        }
                        headers_read_at(s, p2, insert_entry(acc, kstr, hv_of_tokens(toks)))
                    },
                }
            }
        },
    }
}

/// The header block starting at `pos`.
pub open spec fn headers_read(s: Seq<u8>, pos: int) -> Option<(Seq<HeaderEntry>, int)> {
    headers_read_at(s, pos, Seq::empty())
}

/// Reads the header block into an ordered header map.
pub fn read_headers(input: &[u8], pos: usize) -> (r: Result<(Headers, usize), HTTPError>)
    ensures
        match r {
            Ok((h, p)) => headers_read(input@, pos as int) == Some((h@, p as int)) && h.wf()
                && pos <= p <= input@.len(),
            Err(e) => headers_read(input@, pos as int) is None && e
                == HTTPError::MalformedHeaderLineError,
        },
{
    let ghost s = input@;
    let mut key_parser = HeaderKeyParser::new();
    let mut val_parser = HeaderValParser::new();
    let mut headers = Headers::new();
    if pos > input.len() {
        return Err(HTTPError::MalformedHeaderLineError);
    }
    let mut i: usize = pos;
    loop
        invariant
            pos <= i <= s.len(),
            s == input@,
            headers.wf(),
            forall|s2: Seq<u8>, p2: int| (#[trigger] key_parser.spec_read(s2, p2)) == key_read(
                s2,
                p2,
            ),
            val_parser.max_token_len == MAX_TOKEN_LEN,
            headers_read(s, pos as int) == headers_read_at(s, i as int, headers@),
        decreases s.len() - i,
    {
        let ghost i0 = i as int;
        match key_parser.read_req_component(input, i) {
            None => {
                return Err(HTTPError::MalformedHeaderLineError);
            },
            Some((kb, p1)) => {
                proof {
                    lemma_key_read_at_bounds(s, i0, Seq::empty(), MAX_TOKEN_LEN as int);
                }
                let key = token_string(kb);
                if key.as_str().is_empty() {
                    return Ok((headers, p1));
                }
                match val_parser.read_req_component(input, p1) {
                    None => {
                        return Err(HTTPError::MalformedHeaderLineError);
                    },
                    Some((hv, p2)) => {
                        proof {
                            lemma_hv_read_at_bounds(
                                s,
                                p1 as int,
                                HeaderValParserState::OptionalWhitespace,
                                Seq::empty(),
                                Seq::empty(),
                                MAX_TOKEN_LEN as int,
                            );
                        }
                        headers.insert(key, hv);
                        i = p2;
                    },
                }
            },
        }
    }
}

/// Reading a fixed-length body as text, with bytes that are not valid
/// UTF-8 yielding the empty string.
pub open spec fn spec_read_body(s: Seq<u8>, pos: int, n: int) -> Option<(Seq<char>, int)> {
    match body_read(s, pos, n) {
        Some((bytes, p)) => Some((utf8_or_empty(bytes), p)),
        None => None,
    }
}

/// Reads exactly `len` body bytes as text.
pub fn read_body(input: &[u8], pos: usize, len: usize) -> (r: Option<(String, usize)>)
    ensures
        match r {
            Some((b, p)) => spec_read_body(input@, pos as int, len as int) == Some((b@, p as int))
                && pos <= p <= input@.len(),
            None => spec_read_body(input@, pos as int, len as int) is None,
        },
{
    let mut parser = BodyParser::new(len);
    match parser.read_req_component(input, pos) {
        Some((bytes, p)) => Some((token_string(bytes), p)),
        None => None,
    }
}


/// How many bytes are read for a message whose length-determining header
/// is Transfer-Encoding: a fixed fallback window, not a chunked decoder.
pub const FALLBACK_BODY_LEN: usize = 4096;

/// The body length the resolved headers call for: the announced byte count
/// where Content-Length holds a single value that reads as a number, the
/// fixed fallback window where only Transfer-Encoding is present (whatever
/// its value), and no body at all otherwise.
pub open spec fn body_len_from_headers(hs: Seq<HeaderEntry>) -> Option<int> {
    match lookup(hs, "Content-Length"@) {
        Some(v) => match v {
            HeaderValModel::Single(lstr) => match parse_content_length(lstr) {
                Some(n) => Some(n),
                None => None,
            },
            _ => None,
        },
        None => match lookup(hs, "Transfer-Encoding"@) {
            Some(_) => Some(FALLBACK_BODY_LEN as int),
            None => None,
        },
    }
}

/// The body length of a request: none for a HEAD request, else whatever
/// the headers call for.
pub open spec fn request_body_len(m: RequestType, hs: Seq<HeaderEntry>) -> Option<int> {
    if m == RequestType::HEAD {
        None
    } else {
        body_len_from_headers(hs)
    }
}

/// The body length of a response: none when the status code is 204 or 304
/// or informational (100..=199), else whatever the headers call for.
pub open spec fn response_body_len(code: int, hs: Seq<HeaderEntry>) -> Option<int> {
    if code == 204 || code == 304 || (100 <= code && code < 200) {
        None
    } else {
        body_len_from_headers(hs)
    }
}

/// The body length the headers of `h` call for.
fn body_len_for(h: &Headers) -> (r: Option<usize>)
    ensures
        match r {
            Some(n) => body_len_from_headers(h@) == Some(n as int),
            None => body_len_from_headers(h@) is None,
        },
{
    match h.get("Content-Length") {
        Some(v) => match v {
            HeaderVal::Single(lstr) => parse_usize_str(lstr.as_str()),
            _ => None,
        },
        None => match h.get("Transfer-Encoding") {
            Some(_) => Some(FALLBACK_BODY_LEN),
            None => None,
        },
    }
}

/// Reading a whole request: request line, header block, body resolution,
/// and the body itself; the first failing step names the result.
pub open spec fn spec_read_request(s: Seq<u8>) -> Result<(RequestModel, int), HTTPError> {
    match spec_read_req_line(s, 0) {
        Err(e) => Err(e),
        Ok((m, res, ver, p1)) => match headers_read(s, p1) {
            None => Err(HTTPError::MalformedHeaderLineError),
            Some((hs, p2)) => {
                let base = RequestModel {
                    method: m,
                    version: ver,
                    resource: res,
                    headers: hs,
                    body: None,
                };
                match request_body_len(m, hs) {
                    None => Ok((base, p2)),
                    Some(n) => match spec_read_body(s, p2, n) {
                        None => Err(HTTPError::BodyParsingError),
                        Some((b, p3)) => Ok((RequestModel { body: Some(b), ..base }, p3)),
                    },
                }
            },
        },
    }
}

/// Reads a whole request message from the start of `input`.
pub fn read_request(input: &[u8]) -> (r: Result<Request, HTTPError>)
    ensures
        match r {
            Ok(req) => {
                &&& spec_read_request(input@) matches Ok(pair) && req@ == pair.0
                &&& req.headers.wf()
            },
            Err(e) => spec_read_request(input@) == Err::<(RequestModel, int), HTTPError>(e),
        },
{
    let (method, resource, version, p1) = match read_req_line(input, 0) {
        Err(e) => {
            return Err(e);
        },
        Ok(line) => line,
    };
    let (headers, p2) = match read_headers(input, p1) {
        Err(e) => {
            return Err(e);
        },
        Ok(hs) => hs,
    };
    let body_len: Option<usize> = if method == RequestType::HEAD {
        None
    } else {
        body_len_for(&headers)
    };
    let body: Option<String> = match body_len {
        None => None,
        Some(n) => match read_body(input, p2, n) {
            None => {
                return Err(HTTPError::BodyParsingError);
            },
            Some((b, _p3)) => Some(b),
        },
    };
    Ok(Request { method, version, resource, headers, body })
}

/// Reading a whole response: status line, header block, body resolution,
/// and the body itself; the first failing step names the result.
pub open spec fn spec_read_response(s: Seq<u8>) -> Result<(ResponseModel, int), HTTPError> {
    match spec_read_status_line(s, 0) {
        Err(e) => Err(e),
        Ok((ver, code, reason, p1)) => match headers_read(s, p1) {
            None => Err(HTTPError::MalformedHeaderLineError),
            Some((hs, p2)) => {
                let base = ResponseModel {
                    version: ver,
                    status_code: code,
                    reason: reason,
                    headers: hs,
                    body: None,
                };
                match response_body_len(code, hs) {
                    None => Ok((base, p2)),
                    Some(n) => match spec_read_body(s, p2, n) {
                        None => Err(HTTPError::BodyParsingError),
                        Some((b, p3)) => Ok((ResponseModel { body: Some(b), ..base }, p3)),
                    },
                }
            },
        },
    }
}

/// Reads a whole response message from the start of `input`.
pub fn read_response(input: &[u8]) -> (r: Result<Response, HTTPError>)
    ensures
        match r {
            Ok(resp) => {
                &&& spec_read_response(input@) matches Ok(pair) && resp@ == pair.0
                &&& resp.headers.wf()
            },
            Err(e) => spec_read_response(input@) == Err::<(ResponseModel, int), HTTPError>(e),
        },
{
    let (version, status_code, reason, p1) = match read_status_line(input, 0) {
        Err(e) => {
            return Err(e);
        },
        Ok(line) => line,
    };
    let (headers, p2) = match read_headers(input, p1) {
        Err(e) => {
            return Err(e);
        },
        Ok(hs) => hs,
    };
    let body_len: Option<usize> = if status_code == 204 || status_code == 304 || (status_code >= 100
        && status_code < 200) {
        None
    } else {
        body_len_for(&headers)
    };
    let body: Option<String> = match body_len {
        None => None,
        Some(n) => match read_body(input, p2, n) {
            None => {
                return Err(HTTPError::BodyParsingError);
            },
            Some((b, _p3)) => Some(b),
        },
    };
    Ok(Response { version, status_code, reason, headers, body })
}


/// A successfully parsed request whose method is HEAD carries no body,
/// whatever headers came with it.
pub proof fn lemma_head_request_has_no_body(s: Seq<u8>, req: RequestModel, p: int)
    requires
        spec_read_request(s) == Ok::<(RequestModel, int), HTTPError>((req, p)),
        req.method == RequestType::HEAD,
    ensures
        req.body is None,
{
}

/// A successfully parsed request with neither a Content-Length nor a
/// Transfer-Encoding header carries no body.
pub proof fn lemma_request_no_length_headers_no_body(s: Seq<u8>, req: RequestModel, p: int)
    requires
        spec_read_request(s) == Ok::<(RequestModel, int), HTTPError>((req, p)),
        lookup(req.headers, "Content-Length"@) is None,
        lookup(req.headers, "Transfer-Encoding"@) is None,
    ensures
        req.body is None,
{
}

/// A successfully parsed response whose status code is 204, 304, or
/// informational (100..=199) carries no body, even when a Content-Length
/// header is present.
pub proof fn lemma_response_status_no_body(s: Seq<u8>, resp: ResponseModel, p: int)
    requires
        spec_read_response(s) == Ok::<(ResponseModel, int), HTTPError>((resp, p)),
        resp.status_code == 204 || resp.status_code == 304 || (100 <= resp.status_code
            && resp.status_code < 200),
    ensures
        resp.body is None,
{
}

/// A successfully parsed response with neither a Content-Length nor a
/// Transfer-Encoding header carries no body.
pub proof fn lemma_response_no_length_headers_no_body(s: Seq<u8>, resp: ResponseModel, p: int)
    requires
        spec_read_response(s) == Ok::<(ResponseModel, int), HTTPError>((resp, p)),
        lookup(resp.headers, "Content-Length"@) is None,
        lookup(resp.headers, "Transfer-Encoding"@) is None,
    ensures
        resp.body is None,
{
}

/// A successfully parsed response's status code reads from exactly three
/// decimal digits, so it lies in 100..=999.
pub proof fn lemma_response_status_in_range(s: Seq<u8>, resp: ResponseModel, p: int)
    requires
        spec_read_response(s) == Ok::<(ResponseModel, int), HTTPError>((resp, p)),
    ensures
        100 <= resp.status_code <= 999,
{
}

} // verus!
