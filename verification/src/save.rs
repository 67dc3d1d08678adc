//! The save-file model: a magic-tagged envelope holding a YAML header and a
//! payload, optionally DEFLATE-compressed.
//!
//! This module models and checks the envelope's bytes; serializing headers
//! and payloads is a host concern.

use vstd::prelude::*;

use std::io::Read;
use std::io::Write;

verus! {

/// Header of a saved file.
#[derive(Debug, Clone)]
pub struct Header {
    pub description: Option<String>,
    pub compressed: bool,
    pub content: Content,
}

/// What kind of payload a saved file carries.
#[derive(Debug, Clone, Copy, PartialEq, Eq, Structural)]
pub enum Content {
    Source,
    Ir { format: Format },
}

/// How a representation payload is encoded.
#[derive(Debug, Clone, Copy, PartialEq, Eq, Structural)]
pub enum Format {
    Json,
    CBOR,
}

/// The payload of a saved file.
#[derive(Debug)]
pub enum Payload {
    Source(String),
    Ir(crate::ir::Program),
}

/// A parsed saved file.
#[derive(Debug)]
pub struct File {
    pub header: Header,
    pub payload: Payload,
}

impl Default for Format {
    /// The default representation encoding.
    fn default() -> (r: Format)
        ensures
            r == Format::Json,
    {
        Format::Json
    }
}

impl Header {
    /// The header of a plain, uncompressed source file.
    pub fn of_plain_source() -> (r: Header)
        ensures
            r.content == Content::Source,
            !r.compressed,
            r.description is None,
    {
        Header { content: Content::Source, compressed: false, description: None }
    }
}

impl Content {
    /// Whether the content is source text.
    pub fn is_source(&self) -> (r: bool)
        ensures
            r == (*self == Content::Source),
    {
        matches!(self, Content::Source)
    }

    /// Whether the content is a lowered representation.
    pub fn is_ir(&self) -> (r: bool)
        ensures
            r == (*self matches Content::Ir { .. }),
    {
        matches!(self, Content::Ir { .. })
    }
}

impl Payload {
    /// The representation payload, when that is what the file holds.
    pub fn as_ir(&self) -> (r: Option<&crate::ir::Program>)
        ensures
            match r {
                Some(p) => self matches Payload::Ir(q) && q == *p,
                None => self matches Payload::Source(_),
            },
    {
        if let Payload::Ir(v) = self {
            Some(v)
        } else {
            None
        }
    }

    /// The source payload, when that is what the file holds.
    pub fn as_source(&self) -> (r: Option<&str>)
        ensures
            match r {
                Some(s) => self matches Payload::Source(t) && t@ == s@,
                None => self matches Payload::Ir(_),
            },
    {
        if let Payload::Source(v) = self {
            Some(v.as_str())
        } else {
            None
        }
    }

    /// Whether the payload is source text.
    pub fn is_source(&self) -> (r: bool)
        ensures
            r == (self matches Payload::Source(_)),
    {
        matches!(self, Payload::Source(..))
    }

    /// The source payload, or the whole payload back when it is not source.
    pub fn try_into_source(self) -> (r: Result<String, Payload>)
        ensures
            match r {
                Ok(s) => self matches Payload::Source(t) && t == s,
                Err(p) => p == self && self matches Payload::Ir(_),
            },
    {
        if let Payload::Source(v) = self {
            Ok(v)
        } else {
            Err(self)
        }
    }

    /// Whether the payload is a lowered representation.
    pub fn is_ir(&self) -> (r: bool)
        ensures
            r == (self matches Payload::Ir(_)),
    {
        matches!(self, Payload::Ir(..))
    }

    /// The representation payload, or the whole payload back when it is not.
    pub fn try_into_ir(self) -> (r: Result<crate::ir::Program, Payload>)
        ensures
            match r {
                Ok(p) => self matches Payload::Ir(q) && q == p,
                Err(p) => p == self && self matches Payload::Source(_),
            },
    {
        if let Payload::Ir(v) = self {
            Ok(v)
        } else {
            Err(self)
        }
    }
}

} // verus!
// The envelope: magic, compression flag, header and payload framing.

verus! {

/// The errors the envelope layer reports.
#[derive(Debug, Clone, Copy, PartialEq, Eq, Structural)]
pub enum EnvelopeError {
    /// The byte after the magic is neither the plain nor the compressed flag.
    UnrecognizedCompression(u8),
    /// The framed content does not open its header correctly.
    MissingHeaderStart,
    /// The header never ends.
    UnterminatedHeader,
    /// The compressed content cannot be inflated, or deflating failed.
    Compression,
}

/// The magic the envelope starts with: `]bf`, never valid raw source.
pub open spec fn magic_seq() -> Seq<u8> {
    seq![93u8, 98u8, 102u8]
}

/// Whether the bytes start with the magic.
pub open spec fn has_magic(s: Seq<u8>) -> bool {
    s.len() >= 4 && s[0] == 93 && s[1] == 98 && s[2] == 102
}

/// Whether the framed content opens its header correctly.
pub open spec fn header_start_ok(s: Seq<u8>) -> bool {
    s.len() >= 4 && s[0] == 10 && s[1] == 45 && s[2] == 45 && s[3] == 45
}

/// Whether the header terminator stands at `i`.
pub open spec fn window_at(s: Seq<u8>, i: int) -> bool {
    0 <= i && i + 5 <= s.len() && s[i] == 10 && s[i + 1] == 46 && s[i + 2] == 46 && s[i + 3] == 46
        && s[i + 4] == 10
}

/// The first position at or after `i` where the header terminator stands, or
/// a negative answer when there is none.
pub open spec fn find_window(s: Seq<u8>, i: int) -> int
    decreases s.len() - i,
{
    if 0 <= i && i + 5 <= s.len() {
        if window_at(s, i) {
            i
        } else {
            find_window(s, i + 1)
        }
    } else {
        -1
    }
}

/// What `DeflateDecoder` inflates a byte sequence to: a function of the
/// bytes alone.
pub uninterp spec fn inflate_of(s: Seq<u8>) -> Seq<u8>;

/// Whether `DeflateDecoder` accepts a byte sequence as DEFLATE data: with a
/// slice source and a growable sink, acceptance is a function of the bytes
/// alone.
pub uninterp spec fn inflatable(s: Seq<u8>) -> bool;

/// What `DeflateEncoder` at best compression deflates a byte sequence to: a
/// function of the bytes alone.
pub uninterp spec fn deflate_of(s: Seq<u8>) -> Seq<u8>;

/// Whether `DeflateEncoder` at best compression compresses a byte sequence
/// without reporting an error: with a growable sink, that too is a function
/// of the bytes alone.
pub uninterp spec fn deflatable(s: Seq<u8>) -> bool;

/// Whether a character has the Unicode white-space property.
pub uninterp spec fn char_is_whitespace(c: char) -> bool;

/// Relies on flate2's `DeflateDecoder`: inflating is a pure function of the
/// bytes, and whether a stream is valid DEFLATE data is one as well.
#[verifier::external_body]
fn inflate(data: &Vec<u8>) -> (r: Result<Vec<u8>, EnvelopeError>)
    ensures
        r matches Ok(v) ==> inflatable(data@) && v@ == inflate_of(data@),
        r matches Err(e) ==> !inflatable(data@) && e == EnvelopeError::Compression,
{
    let mut out: Vec<u8> = Vec::new();
    let mut dec = flate2::read::DeflateDecoder::new(data.as_slice());
    match dec.read_to_end(&mut out) {
        Ok(_) => Ok(out),
        Err(_) => Err(EnvelopeError::Compression),
    }
}

/// Relies on flate2's `DeflateEncoder` at best compression: deflating is a
/// pure function of the bytes, as is whether the encoder reports an error.
#[verifier::external_body]
fn deflate(data: &Vec<u8>) -> (r: Result<Vec<u8>, EnvelopeError>)
    ensures
        r matches Ok(v) ==> deflatable(data@) && v@ == deflate_of(data@),
        r matches Err(e) ==> !deflatable(data@) && e == EnvelopeError::Compression,
{
    let mut enc = flate2::write::DeflateEncoder::new(Vec::new(), flate2::Compression::best());
    if enc.write_all(data.as_slice()).is_err() {
        return Err(EnvelopeError::Compression);
    }
    match enc.finish() {
        Ok(out) => Ok(out),
        Err(_) => Err(EnvelopeError::Compression),
    }
}

/// Relies on `char::is_whitespace`: a pure predicate on the character. The
/// standard library documents that the blank, newline, carriage-return and
/// tab characters are white space and that the other printable ASCII
/// characters are not.
#[verifier::external_body]
fn is_ws(c: char) -> (r: bool)
    ensures
        r == char_is_whitespace(c),
        c == ' ' || c == '\n' || c == '\t' || c == '\r' ==> r,
        '!' <= c <= '~' ==> !r,
{
    c.is_whitespace()
}

/// Whether a character has the Unicode white-space property, with the
/// documented plain cases stated for callers: the blank, newline, tab and
/// carriage-return characters are white space, and the other printable ASCII
/// characters are not.
pub fn whitespace_char(c: char) -> (r: bool)
    ensures
        r == char_is_whitespace(c),
        c == ' ' || c == '\n' || c == '\t' || c == '\r' ==> r,
        '!' <= c <= '~' ==> !r,
{
    is_ws(c)
}

/// A copy of the bytes from `from` to the end.
fn tail_bytes(s: &Vec<u8>, from: usize) -> (r: Vec<u8>)
    requires
        from <= s@.len(),
    ensures
        r@ == s@.subrange(from as int, s@.len() as int),
{
    let n = s.len();
    let mut out: Vec<u8> = Vec::new();
    let mut i: usize = from;
    while i < n
        invariant
            from <= i <= n,
            n == s@.len(),
            out@ == s@.subrange(from as int, i as int),
        decreases n - i,
    {
        let b = s[i];
        out.push(b);
        proof {
            assert(out@ =~= s@.subrange(from as int, i + 1));
        }
        i = i + 1;
    }
    proof {
        assert(out@ =~= s@.subrange(from as int, n as int));
    }
    out
}

/// A parsed envelope: either content without the magic, to be taken as plain
/// source, or a framed header and payload.
#[derive(Debug)]
pub enum Envelope {
    /// No magic: the whole content is plain source text.
    Plain,
    /// Framed: whether it was compressed, the header bytes, and the payload
    /// bytes.
    Framed { compressed: bool, header: Vec<u8>, payload: Vec<u8> },
}

/// Take an envelope apart: check the magic and the compression flag, inflate
/// when compressed, and split the header from the payload at the header
/// terminator.
pub fn open_envelope(bytes: &Vec<u8>) -> (r: Result<Envelope, EnvelopeError>)
    ensures
        !has_magic(bytes@) ==> (r matches Ok(e) && e matches Envelope::Plain),
        has_magic(bytes@) && bytes@[3] != 99 && bytes@[3] != 112 ==> r == Err::<
            Envelope,
            EnvelopeError,
        >(EnvelopeError::UnrecognizedCompression(bytes@[3])),
        has_magic(bytes@) && bytes@[3] == 112 ==> split_post(
            bytes@.subrange(4, bytes@.len() as int),
            false,
            r,
        ),
        has_magic(bytes@) && bytes@[3] == 99 ==> ({
            let tail = bytes@.subrange(4, bytes@.len() as int);
            if inflatable(tail) {
                split_post(inflate_of(tail), true, r)
            } else {
                r == Err::<Envelope, EnvelopeError>(EnvelopeError::Compression)
            }
        }),
{
    let n = bytes.len();
    let framed = n >= 4 && bytes[0] == 93 && bytes[1] == 98 && bytes[2] == 102;
    if !framed {
        return Ok(Envelope::Plain);
    }
    let flag = bytes[3];
    let compressed = if flag == 99 {
        true
    } else if flag == 112 {
        false
    } else {
        return Err(EnvelopeError::UnrecognizedCompression(flag));
    };
    let rest = tail_bytes(bytes, 4);
    let content = if compressed {
        match inflate(&rest) {
            Ok(v) => v,
            Err(e) => {
                return Err(e);
            },
        }
    } else {
        rest
    };
    split_envelope(content, compressed)
}

/// What splitting framed content yields: the header bytes between the
/// opening line and the terminator, and the payload bytes after it.
pub open spec fn split_post(s: Seq<u8>, compressed: bool, r: Result<Envelope, EnvelopeError>) -> bool {
    if !header_start_ok(s) {
        r == Err::<Envelope, EnvelopeError>(EnvelopeError::MissingHeaderStart)
    } else {
        let w = find_window(s, 4);
        if w < 0 {
            r == Err::<Envelope, EnvelopeError>(EnvelopeError::UnterminatedHeader)
        } else {
            match r {
                Ok(e) => (e matches Envelope::Framed { compressed: c, header, payload }
                    && c == compressed && header@ == s.subrange(4, w) && payload@ == s.subrange(
                    w + 5,
                    s.len() as int,
                )),
                Err(_) => false,
            }
        }
    }
}

/// Split framed content at the header terminator.
fn split_envelope(s: Vec<u8>, compressed: bool) -> (r: Result<Envelope, EnvelopeError>)
    ensures
        split_post(s@, compressed, r),
{
    let n = s.len();
    if !(n >= 4 && s[0] == 10 && s[1] == 45 && s[2] == 45 && s[3] == 45) {
        return Err(EnvelopeError::MissingHeaderStart);
    }
    let mut i: usize = 4;
    while n >= 5 && i <= n - 5 && !(s[i] == 10 && s[i + 1] == 46 && s[i + 2] == 46 && s[i + 3]
        == 46 && s[i + 4] == 10)
        invariant
            n == s@.len(),
            4 <= i,
            i <= n + 5,
            find_window(s@, 4) == find_window(s@, i as int),
        decreases n - i,
    {
        i = i + 1;
    }
    if n < 5 || i > n - 5 {
        proof {
            assert(find_window(s@, i as int) == -1);
        }
        return Err(EnvelopeError::UnterminatedHeader);
    }
    let mut header: Vec<u8> = Vec::new();
    let mut t: usize = 4;
    while t < i
        invariant
            4 <= t <= i,
            i + 5 <= n == s@.len(),
            header@ == s@.subrange(4, t as int),
        decreases i - t,
    {
        let b = s[t];
        header.push(b);
        proof {
            assert(header@ =~= s@.subrange(4, t + 1));
        }
        t = t + 1;
    }
    let payload = tail_bytes(&s, i + 5);
    Ok(Envelope::Framed { compressed, header, payload })
}

/// The framed content for a header and a payload: the header opening line,
/// the header, the terminator, and the payload.
pub open spec fn spec_envelope(header: Seq<u8>, payload: Seq<u8>) -> Seq<u8> {
    seq![10u8, 45u8, 45u8, 45u8] + header + seq![10u8, 46u8, 46u8, 46u8, 10u8] + payload
}

/// Frame a header and a payload.
pub fn build_envelope(header: &Vec<u8>, payload: &Vec<u8>) -> (r: Vec<u8>)
    ensures
        r@ == spec_envelope(header@, payload@),
{
    let mut out: Vec<u8> = Vec::new();
    out.push(10);
    out.push(45);
    out.push(45);
    out.push(45);
    let mut i: usize = 0;
    let hn = header.len();
    while i < hn
        invariant
            0 <= i <= hn,
            hn == header@.len(),
            out@ == seq![10u8, 45u8, 45u8, 45u8] + header@.subrange(0, i as int),
        decreases hn - i,
    {
        let b = header[i];
        out.push(b);
        proof {
            assert(out@ =~= seq![10u8, 45u8, 45u8, 45u8] + header@.subrange(0, i + 1));
        }
        i = i + 1;
    }
    out.push(10);
    out.push(46);
    out.push(46);
    out.push(46);
    out.push(10);
    let mut t: usize = 0;
    let pn = payload.len();
    let ghost mid = seq![10u8, 45u8, 45u8, 45u8] + header@ + seq![10u8, 46u8, 46u8, 46u8, 10u8];
    proof {
        assert(header@.subrange(0, hn as int) =~= header@);
        assert(out@ =~= mid);
    }
    while t < pn
        invariant
            0 <= t <= pn,
            pn == payload@.len(),
            out@ == mid + payload@.subrange(0, t as int),
        decreases pn - t,
    {
        let b = payload[t];
        out.push(b);
        proof {
            assert(out@ =~= mid + payload@.subrange(0, t + 1));
        }
        t = t + 1;
    }
    proof {
        assert(out@ =~= spec_envelope(header@, payload@));
    }
    out
}

/// Seal framed content: the magic, the compression flag, and the content,
/// deflated when the compressed flag is chosen. Sealing plain content always
/// succeeds; sealing compressed content fails exactly when the encoder
/// rejects the bytes.
pub fn seal(envelope: &Vec<u8>, compressed: bool) -> (r: Result<Vec<u8>, EnvelopeError>)
    ensures
        !compressed ==> (r matches Ok(v) && v@ == magic_seq() + seq![112u8] + envelope@),
        compressed ==> if deflatable(envelope@) {
            r matches Ok(v) && v@ == magic_seq() + seq![99u8] + deflate_of(envelope@)
        } else {
            r == Err::<Vec<u8>, EnvelopeError>(EnvelopeError::Compression)
        },
{
    let mut out: Vec<u8> = Vec::new();
    out.push(93);
    out.push(98);
    out.push(102);
    if compressed {
        out.push(99);
        let packed = match deflate(envelope) {
            Ok(v) => v,
            Err(e) => {
                return Err(e);
            },
        };
        let ghost pre = out@;
        let mut i: usize = 0;
        let pn = packed.len();
        while i < pn
            invariant
                0 <= i <= pn,
                pn == packed@.len(),
                pre == seq![93u8, 98u8, 102u8, 99u8],
                out@ == pre + packed@.subrange(0, i as int),
            decreases pn - i,
        {
            let b = packed[i];
            out.push(b);
            proof {
                assert(out@ =~= pre + packed@.subrange(0, i + 1));
            }
            i = i + 1;
        }
        proof {
            assert(packed@.subrange(0, pn as int) =~= packed@);
            assert(out@ =~= magic_seq() + seq![99u8] + deflate_of(envelope@));
        }
        Ok(out)
    } else {
        out.push(112);
        let ghost pre = out@;
        let mut i: usize = 0;
        let pn = envelope.len();
        while i < pn
            invariant
                0 <= i <= pn,
                pn == envelope@.len(),
                pre == seq![93u8, 98u8, 102u8, 112u8],
                out@ == pre + envelope@.subrange(0, i as int),
            decreases pn - i,
        {
            let b = envelope[i];
            out.push(b);
            proof {
                assert(out@ =~= pre + envelope@.subrange(0, i + 1));
            }
            i = i + 1;
        }
        proof {
            assert(envelope@.subrange(0, pn as int) =~= envelope@);
            assert(out@ =~= magic_seq() + seq![112u8] + envelope@);
        }
        Ok(out)
    }
}

} // verus!
// The leading bracket comment of a plain source file.

verus! {

/// The first index at or after `i` whose character is not white space.
pub open spec fn ws_prefix(s: Seq<char>, i: int) -> int
    decreases s.len() - i,
{
    if 0 <= i < s.len() && char_is_whitespace(s[i]) {
        ws_prefix(s, i + 1)
    } else {
        i
    }
}

/// Where the leading bracket comment ends: walk the characters balancing
/// brackets, remembering a close bracket's position and forgetting it at any
/// other character; stop when the depth returns to zero or the text ends.
/// A negative answer stands for no remembered position.
pub open spec fn desc_end(s: Seq<char>, j: int, depth: int, last: int) -> int
    decreases s.len() - j,
{
    if !(0 <= j < s.len()) || depth == 0 {
        last
    } else if s[j] == '[' {
        desc_end(s, j + 1, depth + 1, -1)
    } else if s[j] == ']' {
        desc_end(s, j + 1, depth - 1, j)
    } else {
        desc_end(s, j + 1, depth, -1)
    }
}

/// The description of a plain source text: the body of a bracket comment
/// standing first after white space, if there is one; an unterminated
/// comment runs to the end of the text.
pub open spec fn spec_description(s: Seq<char>) -> Option<Seq<char>> {
    let t = ws_prefix(s, 0);
    if !(0 <= t < s.len()) || s[t] != '[' {
        None
    } else {
        let d = s.subrange(t, s.len() as int);
        let e0 = desc_end(d, 1, 1, -1);
        let e = if e0 < 0 {
            d.len() as int
        } else {
            e0
        };
        Some(d.subrange(1, e))
    }
}

/// The description of a plain source text, as `spec_description` gives it.
pub fn plain_description(src: &Vec<char>) -> (r: Option<Vec<char>>)
    ensures
        match r {
            Some(v) => spec_description(src@) == Some(v@),
            None => spec_description(src@) is None,
        },
{
    let n = src.len();
    let mut t: usize = 0;
    while t < n && is_ws(src[t])
        invariant
            n == src@.len(),
            0 <= t <= n,
            ws_prefix(src@, 0) == ws_prefix(src@, t as int),
        decreases n - t,
    {
        t = t + 1;
    }
    if t >= n || src[t] != '[' {
        return None;
    }
    // work on the trimmed text, as the comment's indices are relative to it
    let mut d: Vec<char> = Vec::new();
    let mut i: usize = t;
    while i < n
        invariant
            t <= i <= n,
            n == src@.len(),
            d@ == src@.subrange(t as int, i as int),
        decreases n - i,
    {
        let c = src[i];
        d.push(c);
        proof {
            assert(d@ =~= src@.subrange(t as int, i + 1));
        }
        i = i + 1;
    }
    proof {
        assert(d@ =~= src@.subrange(t as int, n as int));
    }
    let dn = d.len();
    let mut j: usize = 1;
    let mut depth: usize = 1;
    let mut last: Option<usize> = None;
    while j < dn && depth > 0
        invariant
            dn == d@.len(),
            1 <= j <= dn,
            depth <= j,
            desc_end(d@, 1, 1, -1) == desc_end(
                d@,
                j as int,
                depth as int,
                match last {
                    Some(v) => v as int,
                    None => -1,
                },
            ),
            match last {
                Some(v) => 1 <= v < dn,
                None => true,
            },
        decreases dn - j,
    {
        let c = d[j];
        if c == '[' {
            depth = depth + 1;
            last = None;
        } else if c == ']' {
            depth = depth - 1;
            last = Some(j);
        } else {
            last = None;
        }
        j = j + 1;
    }
    let e = match last {
        Some(v) => v,
        None => dn,
    };
    proof {
        assert(dn >= 1);
    }
    let mut out: Vec<char> = Vec::new();
    let mut k: usize = 1;
    proof {
        assert(out@ =~= d@.subrange(1, 1));
    }
    while k < e
        invariant
            1 <= k <= e <= dn,
            dn == d@.len(),
            out@ == d@.subrange(1, k as int),
        decreases e - k,
    {
        let c = d[k];
        out.push(c);
        proof {
            assert(out@ =~= d@.subrange(1, k + 1));
        }
        k = k + 1;
    }
    proof {
        assert(out@ =~= d@.subrange(1, e as int));
    }
    Some(out)
}

} // verus!
