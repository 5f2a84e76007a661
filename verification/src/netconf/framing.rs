//! NETCONF message framing (RFC 6242).
//!
//! NETCONF messages are carried over a reliable transport (almost always an
//! SSH `netconf` subsystem, RFC 6242) and delimited by one of two framing
//! mechanisms:
//!
//! - **Base framing** (`]]>]]>`): the message is followed by the literal
//!   end-of-message sequence `]]>]]>`.
//! - **Chunked framing** (`#<len>`): used when a message contains the
//!   character sequence `]]>` (which would otherwise be ambiguous), each chunk
//!   is preceded by a `#<octet-count>` line and the message is terminated by a
//!   `##` line.
//!
//! This module encodes either form and incrementally decodes a byte stream
//! into complete XML messages regardless of which form the peer uses.

use vstd::prelude::*;
use crate::netconf::error::NetconfError;
use crate::text::{debug_quoted, debug_string, lossy_string, lossy_utf8, trim_both_ws, trim_end_ws, trim_ws, utf8};

verus! {

/// The base end-of-message sequence.
pub const BASE_EOM: &'static [u8; 6] = &[93, 93, 62, 93, 93, 62];

/// Maximum octets per chunk when emitting chunked framing.
const CHUNK_SIZE: usize = 4096;

/// The octets of `]]>]]>`.
pub open spec fn eom() -> Seq<u8> {
    seq![93u8, 93u8, 62u8, 93u8, 93u8, 62u8]
}

/// The octets of `]]>`.
pub open spec fn cdata_end() -> Seq<u8> {
    seq![93u8, 93u8, 62u8]
}

// ---------------------------------------------------------------------------
// Searching
// ---------------------------------------------------------------------------

/// `pat` occurs in `b` at `i`.
pub open spec fn occurs_at(b: Seq<u8>, pat: Seq<u8>, i: int) -> bool {
    0 <= i && i + pat.len() <= b.len() && b.subrange(i, i + pat.len()) == pat
}

/// The first position at or after `i` where `pat` occurs in `b`.
pub open spec fn first_from(b: Seq<u8>, pat: Seq<u8>, i: int) -> Option<int>
    decreases b.len() - i + 1,
{
    if i < 0 || i + pat.len() > b.len() {
        None
    } else if occurs_at(b, pat, i) {
        Some(i)
    } else {
        first_from(b, pat, i + 1)
    }
}

proof fn lemma_first_from(b: Seq<u8>, pat: Seq<u8>, i: int)
    ensures
        first_from(b, pat, i) matches Some(j) ==> i <= j && occurs_at(b, pat, j),
    decreases b.len() - i + 1,
{
    if !(i < 0 || i + pat.len() > b.len()) && !occurs_at(b, pat, i) {
        lemma_first_from(b, pat, i + 1);
    }
}

fn find_subslice(haystack: &[u8], needle: &[u8]) -> (r: Option<usize>)
    requires
        needle@.len() > 0,
    ensures
        match first_from(haystack@, needle@, 0) {
            Some(i) => r == Some(i as usize),
            None => r is None,
        },
{
    if haystack.len() < needle.len() {
        return None;
    }
    let mut i: usize = 0;
    let last = haystack.len() - needle.len();
    while i <= last
        invariant
            needle@.len() > 0,
            last == haystack@.len() - needle@.len(),
            i <= last + 1,
            first_from(haystack@, needle@, 0) == first_from(haystack@, needle@, i as int),
        decreases haystack.len() - i,
    {
        let mut j: usize = 0;
        let mut same = true;
        while j < needle.len()
            invariant
                i <= last,
                last == haystack@.len() - needle@.len(),
                i + needle@.len() <= haystack@.len(),
                haystack@.len() <= usize::MAX,
                j <= needle@.len(),
                same == (forall|k: int| 0 <= k < j ==> haystack@[i + k] == needle@[k]),
            decreases needle.len() - j,
        {
            if haystack[i + j] != needle[j] {
                same = false;
            }
            j = j + 1;
        }
        if same {
            assert(haystack@.subrange(i as int, i + needle@.len()) =~= needle@);
            return Some(i);
        }
        proof {
            if occurs_at(haystack@, needle@, i as int) {
                let k = choose|k: int| 0 <= k < needle@.len() && haystack@[i + k] != needle@[k];
                assert(haystack@.subrange(i as int, i + needle@.len())[k] == haystack@[i + k]);
            }
        }
        i = i + 1;
    }
    None
}

/// The end of the line starting at `i`: the next newline, or the end of `b`.
pub open spec fn line_end(b: Seq<u8>, i: int) -> int
    decreases b.len() - i,
{
    if i < 0 || i >= b.len() || b[i] == 10 {
        i
    } else {
        line_end(b, i + 1)
    }
}

proof fn lemma_line_end(b: Seq<u8>, i: int)
    requires
        0 <= i <= b.len(),
    ensures
        i <= line_end(b, i) <= b.len(),
        line_end(b, i) < b.len() ==> b[line_end(b, i)] == 10,
        forall|k: int| i <= k < line_end(b, i) ==> b[k] != 10,
    decreases b.len() - i,
{
    if i < b.len() && b[i] != 10 {
        lemma_line_end(b, i + 1);
    }
}

fn find_newline(b: &[u8], from: usize) -> (r: usize)
    requires
        from <= b@.len(),
    ensures
        r == line_end(b@, from as int),
{
    let mut i = from;
    while i < b.len() && b[i] != 10
        invariant
            from <= i <= b@.len(),
            line_end(b@, from as int) == line_end(b@, i as int),
        decreases b.len() - i,
    {
        i = i + 1;
    }
    i
}

// ---------------------------------------------------------------------------
// Decimal lengths
// ---------------------------------------------------------------------------

/// The decimal digits of `n`, most significant first.
pub open spec fn dec(n: nat) -> Seq<u8>
    decreases n,
{
    if n < 10 {
        seq![(48 + n) as u8]
    } else {
        dec(n / 10).push((48 + n % 10) as u8)
    }
}

fn dec_bytes(n: usize) -> (r: Vec<u8>)
    ensures
        r@ == dec(n as nat),
    decreases n,
{
    if n < 10 {
        let mut v: Vec<u8> = Vec::new();
        v.push((48 + n) as u8);
        assert(v@ =~= dec(n as nat));
        v
    } else {
        let mut v = dec_bytes(n / 10);
        v.push((48 + n % 10) as u8);
        v
    }
}

// ---------------------------------------------------------------------------
// Encoding
// ---------------------------------------------------------------------------

/// The lines of `b` from `i` on, as `split('\n')` gives them (the last one
/// may be empty).
pub open spec fn lines_from(b: Seq<u8>, i: int) -> Seq<Seq<u8>>
    decreases b.len() - i + 1,
{
    if i < 0 || i > b.len() {
        Seq::empty()
    } else {
        let e = line_end(b, i);
        if e >= b.len() || e < i {
            seq![b.subrange(i, b.len() as int)]
        } else {
            seq![b.subrange(i, e)] + lines_from(b, e + 1)
        }
    }
}

/// `c` ending with a newline (one added when it does not).
pub open spec fn nl_terminated(c: Seq<u8>) -> Seq<u8> {
    if c.len() > 0 && c.last() == 10 {
        c
    } else {
        c.push(10)
    }
}

/// One chunk: `#`, its length in decimal, a newline, its octets.
pub open spec fn chunk_bytes(c: Seq<u8>) -> Seq<u8> {
    seq![35u8] + dec(c.len()) + seq![10u8] + c
}

/// The encoder's state (chunks written, line buffer) after one more line:
/// the line joins the buffer (after a newline unless the buffer is empty),
/// and a buffer of 4096 octets or more is written out as a chunk.
pub open spec fn chunk_step(st: (Seq<u8>, Seq<u8>), line: Seq<u8>) -> (Seq<u8>, Seq<u8>) {
    let buf = if st.1.len() == 0 {
        line
    } else {
        st.1.push(10) + line
    };
    if buf.len() >= 4096 {
        (st.0 + chunk_bytes(nl_terminated(buf)), Seq::empty())
    } else {
        (st.0, buf)
    }
}

/// The encoder's state after the first `k` lines.
pub open spec fn chunk_fold(lines: Seq<Seq<u8>>, k: nat) -> (Seq<u8>, Seq<u8>)
    decreases k,
{
    if k == 0 {
        (Seq::empty(), Seq::empty())
    } else {
        chunk_step(chunk_fold(lines, (k - 1) as nat), lines[k - 1])
    }
}

/// Chunked framing of `m` (RFC 6242 §4.2): its lines gathered into chunks of
/// at least 4096 octets that end with a newline, the rest in a last chunk,
/// then the `##` line.
pub open spec fn chunked_bytes(m: Seq<u8>) -> Seq<u8> {
    let lines = lines_from(m, 0);
    let st = chunk_fold(lines, lines.len());
    st.0 + (if st.1.len() > 0 {
        chunk_bytes(nl_terminated(st.1))
    } else {
        Seq::empty()
    }) + seq![35u8, 35u8, 10u8]
}

/// The framing of a message's octets: chunked when they hold `]]>`, base
/// framing otherwise.
pub open spec fn framed(m: Seq<u8>) -> Seq<u8> {
    if first_from(m, cdata_end(), 0) is Some {
        chunked_bytes(m)
    } else {
        m + eom()
    }
}

proof fn lemma_chunk_fold_push(lines: Seq<Seq<u8>>, x: Seq<u8>, k: nat)
    requires
        k <= lines.len(),
    ensures
        chunk_fold(lines.push(x), k) == chunk_fold(lines, k),
    decreases k,
{
    if k > 0 {
        lemma_chunk_fold_push(lines, x, (k - 1) as nat);
        assert(lines.push(x)[k - 1] == lines[k - 1]);
    }
}

proof fn lemma_lines_step(b: Seq<u8>, i: int)
    requires
        0 <= i <= b.len(),
    ensures
        line_end(b, i) >= b.len() ==> lines_from(b, i) == seq![b.subrange(i, b.len() as int)],
        line_end(b, i) < b.len() ==> lines_from(b, i) == seq![b.subrange(i, line_end(b, i))] + lines_from(
            b,
            line_end(b, i) + 1,
        ),
{
    lemma_line_end(b, i);
}

fn push_chunk(out: &mut Vec<u8>, buf: &Vec<u8>)
    ensures
        final(out)@ == old(out)@ + chunk_bytes(nl_terminated(buf@)),
{
    let mut c = vstd::slice::slice_to_vec(buf.as_slice());
    if !(c.len() > 0 && c[c.len() - 1] == 10) {
        c.push(10);
    }
    assert(c@ =~= nl_terminated(buf@));
    out.push(35);
    let d = dec_bytes(c.len());
    out.extend_from_slice(d.as_slice());
    out.push(10);
    out.extend_from_slice(c.as_slice());
    assert(final(out)@ =~= old(out)@ + chunk_bytes(nl_terminated(buf@)));
}

/// Encode using chunked framing (RFC 6242 §4.2). The message is split on line
/// boundaries so that every emitted chunk ends with a newline.
fn encode_chunked(m: &[u8]) -> (r: Vec<u8>)
    ensures
        r@ == chunked_bytes(m@),
{
    let mut out: Vec<u8> = Vec::new();
    let mut buf: Vec<u8> = Vec::new();
    let ghost mut done: Seq<Seq<u8>> = Seq::empty();
    let mut i: usize = 0;
    let mut more = true;
    while more
        invariant
            i <= m@.len(),
            more ==> lines_from(m@, 0) == done + lines_from(m@, i as int),
            !more ==> lines_from(m@, 0) == done,
            (out@, buf@) == chunk_fold(done, done.len()),
        decreases m@.len() - i + (if more { 1int } else { 0int }),
    {
        let e = find_newline(m, i);
        proof {
            lemma_line_end(m@, i as int);
            lemma_lines_step(m@, i as int);
        }
        let line = &m[i..e];
        let ghost before = done;
        if buf.len() == 0 {
            buf.extend_from_slice(line);
        } else {
            buf.push(10);
            buf.extend_from_slice(line);
        }
        if buf.len() >= CHUNK_SIZE {
            push_chunk(&mut out, &buf);
            buf = Vec::new();
        }
        proof {
            done = before.push(line@);
            lemma_chunk_fold_push(before, line@, before.len());
            assert(done[done.len() - 1] == line@);
            assert(chunk_fold(done, done.len()) == chunk_step(chunk_fold(before, before.len()), line@));
            assert((out@, buf@) == chunk_step(chunk_fold(before, before.len()), line@));
        }
        if e >= m.len() {
            more = false;
            proof {
                assert(lines_from(m@, 0) =~= before + seq![line@]);
                assert(done =~= before + seq![line@]);
            }
        } else {
            proof {
                assert(before + (seq![line@] + lines_from(m@, e + 1)) =~= done + lines_from(m@, e + 1));
            }
            i = e + 1;
        }
    }
    if buf.len() > 0 {
        push_chunk(&mut out, &buf);
    }
    out.push(35);
    out.push(35);
    out.push(10);
    proof {
        let st = chunk_fold(done, done.len());
        assert(out@ =~= chunked_bytes(m@));
    }
    out
}

/// Encode a NETCONF message for transmission.
///
/// Uses base framing unless the message contains the sequence `]]>` (which
/// would collide with the end-of-message marker), in which case chunked
/// framing is used.
pub fn encode_message(message: &str) -> (r: Vec<u8>)
    ensures
        r@ == framed(utf8(message@)),
{
    let b = message.as_bytes();
    let mut pat: Vec<u8> = Vec::new();
    pat.push(93);
    pat.push(93);
    pat.push(62);
    assert(pat@ =~= cdata_end());
    if find_subslice(b, pat.as_slice()).is_some() {
        encode_chunked(b)
    } else {
        let mut out = vstd::slice::slice_to_vec(b);
        out.extend_from_slice(BASE_EOM.as_slice());
        assert(BASE_EOM@ =~= eom());
        out
    }
}

// ---------------------------------------------------------------------------
// Decoding
// ---------------------------------------------------------------------------

/// ASCII whitespace (`u8::is_ascii_whitespace`): space, tab, line feed, form
/// feed, carriage return.
pub open spec fn is_ascii_ws(c: u8) -> bool {
    c == 32 || c == 9 || c == 10 || c == 12 || c == 13
}

/// The first position at or after `i` that is not ASCII whitespace.
pub open spec fn first_non_ws(b: Seq<u8>, i: int) -> Option<int>
    decreases b.len() - i,
{
    if i < 0 || i >= b.len() {
        None
    } else if !is_ascii_ws(b[i]) {
        Some(i)
    } else {
        first_non_ws(b, i + 1)
    }
}

/// Every octet is an ASCII digit.
pub open spec fn all_digits(d: Seq<u8>) -> bool {
    forall|i: int| 0 <= i < d.len() ==> 48 <= #[trigger] d[i] <= 57
}

/// The value of a string of ASCII digits.
pub open spec fn dec_value(d: Seq<u8>) -> nat
    decreases d.len(),
{
    if d.len() == 0 {
        0
    } else {
        dec_value(d.drop_last()) * 10 + (d.last() - 48) as nat
    }
}

/// A chunk size as `str::parse::<usize>` reads it: an optional `+`, then one
/// or more ASCII digits whose value fits a `usize`.
pub open spec fn parse_size(d: Seq<u8>) -> Option<nat> {
    let digits = if d.len() > 0 && d[0] == 43 {
        d.drop_first()
    } else {
        d
    };
    if digits.len() > 0 && all_digits(digits) && dec_value(digits) <= usize::MAX {
        Some(dec_value(digits))
    } else {
        None
    }
}

fn parse_chunk_size(d: &[u8]) -> (r: Option<usize>)
    ensures
        match parse_size(d@) {
            Some(v) => r == Some(v as usize),
            None => r is None,
        },
{
    let start: usize = if d.len() > 0 && d[0] == 43 { 1 } else { 0 };
    let ghost digits = if d@.len() > 0 && d@[0] == 43 { d@.drop_first() } else { d@ };
    assert(digits =~= d@.subrange(start as int, d@.len() as int));
    if start >= d.len() {
        assert(digits.len() == 0);
        return None;
    }
    let mut v: usize = 0;
    let mut i = start;
    while i < d.len()
        invariant
            start <= i <= d@.len(),
            digits == d@.subrange(start as int, d@.len() as int),
            digits == (if d@.len() > 0 && d@[0] == 43 {
                d@.drop_first()
            } else {
                d@
            }),
            all_digits(d@.subrange(start as int, i as int)),
            v as nat == dec_value(d@.subrange(start as int, i as int)),
        decreases d.len() - i,
    {
        let c = d[i];
        if c < 48 || c > 57 {
            proof {
                assert(digits[i - start] == c);
            }
            return None;
        }
        let next = match v.checked_mul(10) {
            Some(t) => t.checked_add((c - 48) as usize),
            None => None,
        };
        proof {
            let pre = d@.subrange(start as int, i + 1);
            assert(pre.drop_last() =~= d@.subrange(start as int, i as int));
            assert(pre.last() == c);
        }
        match next {
            Some(n) => {
                v = n;
            },
            None => {
                proof {
                    assert(dec_value(d@.subrange(start as int, i + 1)) > usize::MAX);
                    assert(digits.subrange(0, i + 1 - start) =~= d@.subrange(start as int, i + 1));
                    lemma_dec_value_prefix(digits, (i + 1 - start) as nat);
                    assert(dec_value(digits) > usize::MAX);
                    assert(parse_size(d@) is None);
                }
                return None;
            },
        }
        i = i + 1;
        assert(all_digits(d@.subrange(start as int, i as int)));
    }
    assert(d@.subrange(start as int, i as int) =~= digits);
    Some(v)
}

proof fn lemma_dec_value_prefix(d: Seq<u8>, k: nat)
    requires
        k <= d.len(),
    ensures
        dec_value(d.subrange(0, k as int)) <= dec_value(d),
    decreases d.len(),
{
    if k < d.len() {
        assert(d.drop_last().subrange(0, k as int) =~= d.subrange(0, k as int));
        lemma_dec_value_prefix(d.drop_last(), k);
    } else {
        assert(d.subrange(0, k as int) =~= d);
    }
}

/// What reading one message from the front of a buffer gives.
pub enum Frame {
    /// A message, and the octets it takes (leading whitespace included).
    Message(Seq<char>, int),
    /// The buffer does not yet hold a whole message.
    Incomplete,
    /// The chunked framing is broken, with the error's text.
    Malformed(Seq<char>),
}

/// Reading the chunks of a message from `pos`, `msg` holding the octets of
/// the chunks read so far: each chunk-size line is followed by that many
/// octets; a `##` line ends the message.
pub open spec fn chunked_from(b: Seq<u8>, pos: int, msg: Seq<u8>) -> Frame
    decreases b.len() - pos,
{
    if pos < 0 || pos > b.len() {
        Frame::Incomplete
    } else {
        let nl = line_end(b, pos);
        if nl >= b.len() || nl < pos {
            Frame::Incomplete
        } else {
            let line = b.subrange(pos, nl);
            if line == seq![35u8, 35u8] {
                Frame::Message(lossy_utf8(msg), nl + 1)
            } else if line.len() == 0 || line[0] != 35 {
                Frame::Malformed("malformed chunk header line: "@ + debug_quoted(lossy_utf8(line)))
            } else {
                let digits = line.subrange(1, line.len() as int);
                match parse_size(digits) {
                    None => Frame::Malformed("invalid chunk size: "@ + debug_quoted(lossy_utf8(digits))),
                    Some(len) => if nl + 1 + len > b.len() {
                        Frame::Incomplete
                    } else {
                        chunked_from(b, nl + 1 + len, msg + b.subrange(nl + 1, nl + 1 + len))
                    },
                }
            }
        }
    }
}

/// Reading one message from the front of `b`: nothing in an all-whitespace
/// buffer; a chunked message when the first non-whitespace octet is `#`;
/// otherwise the (trimmed) text before the first `]]>]]>`.
pub open spec fn extract(b: Seq<u8>) -> Frame {
    match first_non_ws(b, 0) {
        None => Frame::Incomplete,
        Some(start) => if b[start] == 35 {
            chunked_from(b, start, Seq::empty())
        } else {
            match first_from(b, eom(), 0) {
                Some(e) => Frame::Message(trim_end_ws(trim_ws(lossy_utf8(b.subrange(0, e)))), e + 6),
                None => Frame::Incomplete,
            }
        },
    }
}

/// Reading messages from `b` until it holds no whole one: the messages, the
/// octets left, and the framing error that stopped the reading, if any.
pub open spec fn drained(b: Seq<u8>) -> (Seq<Seq<char>>, Seq<u8>, Option<Seq<char>>)
    decreases b.len(),
{
    match extract(b) {
        Frame::Message(m, n) => if 0 < n <= b.len() {
            let r = drained(b.subrange(n, b.len() as int));
            (seq![m] + r.0, r.1, r.2)
        } else {
            (Seq::empty(), b, None)
        },
        Frame::Incomplete => (Seq::empty(), b, None),
        Frame::Malformed(e) => (Seq::empty(), b, Some(e)),
    }
}

/// The text of a list of strings.
pub open spec fn texts(v: Seq<String>) -> Seq<Seq<char>> {
    v.map_values(|s: String| s@)
}

/// An incremental NETCONF frame decoder.
///
/// Feed received bytes with [`FrameDecoder::push`]; complete XML messages are
/// returned as they become available. The decoder transparently handles both
/// base and chunked framing per message.
#[derive(Debug)]
pub struct FrameDecoder {
    buf: Vec<u8>,
}

impl View for FrameDecoder {
    type V = Seq<u8>;

    /// The octets buffered awaiting completion.
    closed spec fn view(&self) -> Seq<u8> {
        self.buf@
    }
}

impl Default for FrameDecoder {
    fn default() -> (d: Self)
        ensures
            d@ == Seq::<u8>::empty(),
    {
        FrameDecoder { buf: Vec::new() }
    }
}

fn framing_error(prefix: &str, text: &[u8]) -> (e: NetconfError)
    ensures
        e matches NetconfError::Framing(s) && s@ == prefix@ + debug_quoted(lossy_utf8(text@)),
{
    let lossy = lossy_string(text);
    let quoted = debug_string(lossy.as_str());
    let mut s = String::from_str(prefix);
    s.append(quoted.as_str());
    NetconfError::Framing(s)
}

impl FrameDecoder {
    /// Create an empty decoder.
    pub fn new() -> (d: FrameDecoder)
        ensures
            d@ == Seq::<u8>::empty(),
    {
        FrameDecoder { buf: Vec::new() }
    }

    /// The number of bytes currently buffered awaiting completion.
    pub fn buffered(&self) -> (n: usize)
        ensures
            n == self@.len(),
    {
        self.buf.len()
    }

    /// Attempt to decode a chunked message starting at byte `start`.
    fn try_chunked(&self, start: usize) -> (r: Result<Option<(String, usize)>, NetconfError>)
        requires
            start <= self.buf@.len(),
        ensures
            match chunked_from(self.buf@, start as int, Seq::empty()) {
                Frame::Message(m, n) => r matches Ok(Some((s, k))) && s@ == m && k == n,
                Frame::Incomplete => r matches Ok(None),
                Frame::Malformed(t) => r matches Err(NetconfError::Framing(s)) && s@ == t,
            },
    {
        let b = self.buf.as_slice();
        let mut pos = start;
        let mut msg: Vec<u8> = Vec::new();
        while pos <= b.len()
            invariant
                pos <= b@.len(),
                b@ == self.buf@,
                chunked_from(b@, start as int, Seq::empty()) == chunked_from(b@, pos as int, msg@),
            decreases b.len() - pos,
        {
            let nl = find_newline(b, pos);
            proof {
                lemma_line_end(b@, pos as int);
            }
            if nl >= b.len() {
                return Ok(None);
            }
            let line = &b[pos..nl];
            if line.len() == 2 && line[0] == 35 && line[1] == 35 {
                assert(line@ =~= seq![35u8, 35u8]);
                return Ok(Some((lossy_string(msg.as_slice()), nl + 1)));
            }
            proof {
                if line@ == seq![35u8, 35u8] {
                    assert(line@.len() == 2);
                }
            }
            if line.len() == 0 || line[0] != 35 {
                return Err(framing_error("malformed chunk header line: ", line));
            }
            let digits = &line[1..line.len()];
            let len = match parse_chunk_size(digits) {
                Some(n) => n,
                None => return Err(framing_error("invalid chunk size: ", digits)),
            };
            let chunk_start = nl + 1;
            if len > b.len() - chunk_start {
                return Ok(None);
            }
            let chunk_end = chunk_start + len;
            let ghost old_msg = msg@;
            msg.extend_from_slice(&b[chunk_start..chunk_end]);
            proof {
                assert(line@ == b@.subrange(pos as int, nl as int));
                assert(digits@ == line@.subrange(1, line@.len() as int));
                assert(parse_size(digits@) == Some(len as nat));
                assert(chunked_from(b@, pos as int, old_msg) == chunked_from(
                    b@,
                    chunk_end as int,
                    old_msg + b@.subrange(chunk_start as int, chunk_end as int),
                ));
            }
            assert(msg@ =~= old_msg + b@.subrange(chunk_start as int, chunk_end as int));
            pos = chunk_end;
        }
        Ok(None)
    }

    /// Try to extract one complete message from the front of the buffer.
    fn try_extract(&mut self) -> (r: Result<Option<String>, NetconfError>)
        ensures
            match extract(old(self)@) {
                Frame::Message(m, n) => 0 < n <= old(self)@.len() && (r matches Ok(Some(s)) && s@ == m && final(self)@
                    == old(self)@.subrange(n, old(self)@.len() as int)),
                Frame::Incomplete => r matches Ok(None) && final(self)@ == old(self)@,
                Frame::Malformed(t) => r matches Err(NetconfError::Framing(s)) && s@ == t && final(self)@ == old(self)@,
            },
    {
        let mut start: usize = 0;
        while start < self.buf.len() && (self.buf[start] == 32 || self.buf[start] == 9 || self.buf[start] == 10
            || self.buf[start] == 12 || self.buf[start] == 13)
            invariant
                start <= self.buf@.len(),
                first_non_ws(self.buf@, 0) == first_non_ws(self.buf@, start as int),
            decreases self.buf.len() - start,
        {
            start = start + 1;
        }
        if start >= self.buf.len() {
            return Ok(None);
        }
        if self.buf[start] == 35 {
            match self.try_chunked(start) {
                Ok(Some((msg, consumed))) => {
                    proof {
                        lemma_chunked_consumes(self.buf@, start as int, Seq::empty());
                    }
                    self.buf = vstd::slice::slice_to_vec(&self.buf.as_slice()[consumed..self.buf.len()]);
                    Ok(Some(msg))
                },
                Ok(None) => Ok(None),
                Err(e) => Err(e),
            }
        } else {
            match find_subslice(self.buf.as_slice(), BASE_EOM.as_slice()) {
                Some(eom_at) => {
                    proof {
                        assert(BASE_EOM@ =~= eom());
                        lemma_first_from(self.buf@, eom(), 0);
                    }
                    let text = lossy_string(&self.buf.as_slice()[0..eom_at]);
                    let trimmed = trim_both_ws(text.as_str());
                    let msg = String::from_str(trimmed);
                    self.buf = vstd::slice::slice_to_vec(&self.buf.as_slice()[eom_at + 6..self.buf.len()]);
                    Ok(Some(msg))
                },
                None => {
                    proof {
                        assert(BASE_EOM@ =~= eom());
                    }
                    Ok(None)
                },
            }
        }
    }

    /// Append `data` to the internal buffer and return any complete messages
    /// that are now available.
    pub fn push(&mut self, data: &[u8]) -> (r: Result<Vec<String>, NetconfError>)
        ensures
            ({
                let d = drained(old(self)@ + data@);
                &&& final(self)@ == d.1
                &&& match d.2 {
                    None => r matches Ok(v) && texts(v@) == d.0,
                    Some(e) => r matches Err(NetconfError::Framing(s)) && s@ == e,
                }
            }),
    {
        self.buf.extend_from_slice(data);
        let ghost init = self.buf@;
        let ghost all = drained(self.buf@);
        let mut out: Vec<String> = Vec::new();
        loop
            invariant
                init == old(self)@ + data@,
                all == drained(init),
                all == ({
                    let d = drained(self.buf@);
                    (texts(out@) + d.0, d.1, d.2)
                }),
            decreases self.buf@.len(),
        {
            let ghost before = self.buf@;
            match self.try_extract() {
                Ok(Some(m)) => {
                    let ghost o = out@;
                    out.push(m);
                    proof {
                        assert(texts(out@) =~= texts(o).push(m@));
                        let d = drained(self.buf@);
                        assert(texts(o) + (seq![m@] + d.0) =~= texts(out@) + d.0);
                    }
                },
                Ok(None) => {
                    proof {
                        assert(texts(out@) + Seq::<Seq<char>>::empty() =~= texts(out@));
                    }
                    return Ok(out);
                },
                Err(e) => {
                    return Err(e);
                },
            }
        }
    }
}

proof fn lemma_chunked_consumes(b: Seq<u8>, pos: int, msg: Seq<u8>)
    ensures
        chunked_from(b, pos, msg) matches Frame::Message(_, n) ==> pos < n <= b.len(),
    decreases b.len() - pos,
{
    if 0 <= pos <= b.len() {
        lemma_line_end(b, pos);
        let nl = line_end(b, pos);
        if nl < b.len() && nl >= pos {
            let line = b.subrange(pos, nl);
            if line != seq![35u8, 35u8] && line.len() > 0 && line[0] == 35 {
                let digits = line.subrange(1, line.len() as int);
                match parse_size(digits) {
                    Some(len) => {
                        if nl + 1 + len <= b.len() {
                            lemma_chunked_consumes(b, nl + 1 + len, msg + b.subrange(nl + 1, nl + 1 + len));
                        }
                    },
                    None => {},
                }
            }
        }
    }
}

// ---------------------------------------------------------------------------
// Round trip
// ---------------------------------------------------------------------------

proof fn lemma_eom_first(b: Seq<u8>)
    requires
        first_from(b, cdata_end(), 0) is None,
    ensures
        first_from(b + eom(), eom(), 0) == Some(b.len() as int),
{
    let f = b + eom();
    let l = b.len() as int;
    assert forall|i: int| 0 <= i < l implies !occurs_at(f, eom(), i) by {
        if occurs_at(f, eom(), i) {
            assert(f.subrange(i, i + 6) == eom());
            if i + 3 <= l {
                assert(b.subrange(i, i + 3) =~= cdata_end()) by {
                    assert(f[i] == 93 && f[i + 1] == 93 && f[i + 2] == 62);
                }
                lemma_no_occurrence(b, cdata_end(), 0, i);
            } else {
                let k = l - i;
                assert(1 <= k <= 2 || k >= 3);
                assert(f[i + k] == eom()[0]);
                if k == 1 {
                    assert(f[i + 1] == 93 && f[i + 2] == 62);
                    assert(f[i + 1] == eom()[1]);
                } else {
                    assert(f[i + 2] == eom()[0]);
                    assert(f[i + 2] == 62);
                }
            }
        }
    }
    assert(f.subrange(l, l + 6) =~= eom());
    lemma_first_from_scan(f, eom(), 0, l);
}

proof fn lemma_no_occurrence(b: Seq<u8>, pat: Seq<u8>, i: int, j: int)
    requires
        first_from(b, pat, i) is None,
        0 <= i <= j,
    ensures
        !occurs_at(b, pat, j),
    decreases j - i,
{
    if i + pat.len() <= b.len() && i < j {
        lemma_no_occurrence(b, pat, i + 1, j);
    }
}

proof fn lemma_first_from_scan(b: Seq<u8>, pat: Seq<u8>, i: int, j: int)
    requires
        0 <= i <= j,
        occurs_at(b, pat, j),
        forall|k: int| i <= k < j ==> !occurs_at(b, pat, k),
    ensures
        first_from(b, pat, i) == Some(j),
    decreases j - i,
{
    if i < j {
        lemma_first_from_scan(b, pat, i + 1, j);
    }
}

proof fn lemma_first_non_ws_range(b: Seq<u8>, i: int)
    requires
        0 <= i,
    ensures
        first_non_ws(b, i) matches Some(k) ==> i <= k < b.len() && !is_ascii_ws(b[k]),
    decreases b.len() - i,
{
    if i < b.len() && is_ascii_ws(b[i]) {
        lemma_first_non_ws_range(b, i + 1);
    }
}

proof fn lemma_first_non_ws_append(b: Seq<u8>, c: Seq<u8>, i: int)
    requires
        0 <= i <= b.len(),
        c.len() > 0,
        !is_ascii_ws(c[0]),
    ensures
        first_non_ws(b + c, i) == (match first_non_ws(b, i) {
            Some(k) => Some(k),
            None => Some(b.len() as int),
        }),
    decreases b.len() - i,
{
    if i < b.len() && is_ascii_ws(b[i]) {
        lemma_first_non_ws_append(b, c, i + 1);
    }
}

/// A message framed with the end-of-message sequence is read back whole: its
/// octets hold no `]]>` and do not start (after whitespace) with `#`, so the
/// decoder takes the trimmed text before the marker and nothing is left.
pub proof fn lemma_base_round_trip(b: Seq<u8>)
    requires
        first_from(b, cdata_end(), 0) is None,
        first_non_ws(b, 0) matches Some(i) ==> b[i] != 35,
    ensures
        framed(b) == b + eom(),
        drained(b + eom()) == (seq![trim_end_ws(trim_ws(lossy_utf8(b)))], Seq::<u8>::empty(), None::<Seq<char>>),
{
    let f = b + eom();
    lemma_first_non_ws_append(b, eom(), 0);
    lemma_eom_first(b);
    assert(f.subrange(0, b.len() as int) =~= b);
    let rest = f.subrange(b.len() as int + 6, f.len() as int);
    assert(rest =~= Seq::<u8>::empty());
    assert(first_non_ws(rest, 0) is None);
    assert(extract(rest) == Frame::Incomplete);
    assert(drained(rest) == (Seq::<Seq<char>>::empty(), rest, None::<Seq<char>>));
    lemma_first_non_ws_range(b, 0);
    match first_non_ws(b, 0) {
        Some(k) => {
            assert(f[k] == b[k]);
        },
        None => {
            assert(f[b.len() as int] == 93);
        },
    }
    let m = trim_end_ws(trim_ws(lossy_utf8(b)));
    assert(extract(f) == Frame::Message(m, b.len() as int + 6));
    assert(seq![m] + Seq::<Seq<char>>::empty() =~= seq![m]);
}

// ---------------------------------------------------------------------------
// Splitting the input
// ---------------------------------------------------------------------------

proof fn lemma_first_from_extend(b: Seq<u8>, x: Seq<u8>, pat: Seq<u8>, i: int)
    ensures
        first_from(b, pat, i) matches Some(j) ==> first_from(b + x, pat, i) == Some(j),
    decreases b.len() - i + 1,
{
    if !(i < 0 || i + pat.len() > b.len()) {
        assert((b + x).subrange(i, i + pat.len()) =~= b.subrange(i, i + pat.len()));
        if !occurs_at(b, pat, i) {
            lemma_first_from_extend(b, x, pat, i + 1);
        }
    }
}

proof fn lemma_first_non_ws_extend(b: Seq<u8>, x: Seq<u8>, i: int)
    ensures
        first_non_ws(b, i) matches Some(j) ==> (first_non_ws(b + x, i) == Some(j) && j < b.len()),
    decreases b.len() - i,
{
    if 0 <= i < b.len() {
        assert((b + x)[i] == b[i]);
        if is_ascii_ws(b[i]) {
            lemma_first_non_ws_extend(b, x, i + 1);
        }
    }
}

proof fn lemma_line_end_extend(b: Seq<u8>, x: Seq<u8>, i: int)
    ensures
        0 <= i <= line_end(b, i) < b.len() ==> line_end(b + x, i) == line_end(b, i),
    decreases b.len() - i,
{
    if 0 <= i < b.len() {
        assert((b + x)[i] == b[i]);
        if b[i] != 10 {
            lemma_line_end(b, i + 1);
            lemma_line_end_extend(b, x, i + 1);
        }
    }
}

proof fn lemma_chunked_extend(b: Seq<u8>, x: Seq<u8>, pos: int, msg: Seq<u8>)
    ensures
        chunked_from(b, pos, msg) is Message ==> chunked_from(b + x, pos, msg) == chunked_from(b, pos, msg),
    decreases b.len() - pos,
{
    if 0 <= pos <= b.len() {
        let nl = line_end(b, pos);
        lemma_line_end(b, pos);
        lemma_line_end_extend(b, x, pos);
        if pos <= nl < b.len() {
            let bx = b + x;
            assert(bx.subrange(pos, nl) =~= b.subrange(pos, nl));
            let line = b.subrange(pos, nl);
            if !(line == seq![35u8, 35u8]) && line.len() > 0 && line[0] == 35 {
                match parse_size(line.subrange(1, line.len() as int)) {
                    Some(len) => if nl + 1 + len <= b.len() {
                        assert(bx.subrange(nl + 1, nl + 1 + len) =~= b.subrange(nl + 1, nl + 1 + len));
                        lemma_chunked_extend(b, x, nl + 1 + len, msg + b.subrange(nl + 1, nl + 1 + len));
                    },
                    None => {},
                }
            }
        }
    }
}

/// A message read from the front of `b` is read the same way whatever
/// follows `b`.
proof fn lemma_extract_extend(b: Seq<u8>, x: Seq<u8>)
    ensures
        extract(b) is Message ==> extract(b + x) == extract(b),
{
    lemma_first_non_ws_extend(b, x, 0);
    lemma_first_non_ws_range(b, 0);
    match first_non_ws(b, 0) {
        None => {},
        Some(start) => {
            assert((b + x)[start] == b[start]);
            if b[start] == 35 {
                lemma_chunked_extend(b, x, start, Seq::empty());
            } else {
                lemma_first_from_extend(b, x, eom(), 0);
                lemma_first_from(b, eom(), 0);
                match first_from(b, eom(), 0) {
                    Some(e) => {
                        assert((b + x).subrange(0, e) =~= b.subrange(0, e));
                    },
                    None => {},
                }
            }
        },
    }
}

/// Reading `b` then `x` gives what reading `b | x` at once gives: the
/// messages of `b`, then those of what `b` left followed by `x`, where
/// reading `b` met no framing error. So the decoder's messages do not depend
/// on how its input is cut into pushes.
pub proof fn lemma_drained_split(b: Seq<u8>, x: Seq<u8>)
    requires
        drained(b).2 is None,
    ensures
        drained(b + x).0 == drained(b).0 + drained(drained(b).1 + x).0,
        drained(b + x).1 == drained(drained(b).1 + x).1,
        drained(b + x).2 == drained(drained(b).1 + x).2,
    decreases b.len(),
{
    lemma_extract_extend(b, x);
    match extract(b) {
        Frame::Message(m, n) => {
            if 0 < n <= b.len() {
                let rest = b.subrange(n, b.len() as int);
                assert((b + x).subrange(n, (b + x).len() as int) =~= rest + x);
                lemma_drained_split(rest, x);
                assert(seq![m] + (drained(rest).0 + drained(drained(rest).1 + x).0) =~= (seq![m] + drained(rest).0)
                    + drained(drained(rest).1 + x).0);
            } else {
                assert(Seq::<Seq<char>>::empty() + drained(b + x).0 =~= drained(b + x).0);
            }
        },
        _ => {
            assert(Seq::<Seq<char>>::empty() + drained(b + x).0 =~= drained(b + x).0);
        },
    }
}

// ---------------------------------------------------------------------------
// What chunked framing carries
// ---------------------------------------------------------------------------

/// The first `k` lines of `ls` joined with newlines.
pub open spec fn join_lines(ls: Seq<Seq<u8>>, k: nat) -> Seq<u8>
    decreases k,
{
    if k == 0 {
        Seq::empty()
    } else if k == 1 {
        ls[0]
    } else {
        join_lines(ls, (k - 1) as nat).push(10) + ls[k - 1]
    }
}

proof fn lemma_join_cons(x: Seq<u8>, ls: Seq<Seq<u8>>, k: nat)
    requires
        1 <= k <= ls.len(),
    ensures
        join_lines(seq![x] + ls, k + 1) == x.push(10) + join_lines(ls, k),
    decreases k,
{
    let xs = seq![x] + ls;
    assert(xs[0] == x);
    assert(xs[k as int] == ls[k - 1]);
    if k == 1 {
        assert(join_lines(xs, 1) == x);
        assert(join_lines(ls, 1) == ls[0]);
    } else {
        lemma_join_cons(x, ls, (k - 1) as nat);
        assert(join_lines(xs, k + 1) == join_lines(xs, k).push(10) + xs[k as int]);
        assert(join_lines(ls, k) == join_lines(ls, (k - 1) as nat).push(10) + ls[k - 1]);
        assert((x.push(10) + join_lines(ls, (k - 1) as nat)).push(10) + ls[k - 1] =~= x.push(10) + (join_lines(
            ls,
            (k - 1) as nat,
        ).push(10) + ls[k - 1]));
    }
}

/// Joining the lines of `b` from `i` on with newlines gives `b` from `i` on
/// back.
proof fn lemma_lines_join(b: Seq<u8>, i: int)
    requires
        0 <= i <= b.len(),
    ensures
        lines_from(b, i).len() >= 1,
        join_lines(lines_from(b, i), lines_from(b, i).len()) == b.subrange(i, b.len() as int),
    decreases b.len() - i,
{
    lemma_lines_step(b, i);
    lemma_line_end(b, i);
    let e = line_end(b, i);
    if e >= b.len() {
        assert(join_lines(lines_from(b, i), 1) == lines_from(b, i)[0]);
    } else {
        lemma_lines_join(b, e + 1);
        let rest = lines_from(b, e + 1);
        lemma_join_cons(b.subrange(i, e), rest, rest.len());
        assert(b.subrange(i, e).push(10) + b.subrange(e + 1, b.len() as int) =~= b.subrange(i, b.len() as int));
    }
}

proof fn lemma_join_grows(ls: Seq<Seq<u8>>, j: nat, k: nat)
    requires
        1 <= j <= k,
    ensures
        join_lines(ls, j).len() <= join_lines(ls, k).len(),
    decreases k - j,
{
    if j < k {
        lemma_join_grows(ls, j, (k - 1) as nat);
    }
}

/// Below the chunk size no chunk is written while lines are gathered: after
/// each line the buffer holds the lines so far, joined.
proof fn lemma_short_fold(m: Seq<u8>, k: nat)
    requires
        0 < m.len() < 4096,
        m[0] != 10,
        1 <= k <= lines_from(m, 0).len(),
    ensures
        chunk_fold(lines_from(m, 0), k) == (Seq::<u8>::empty(), join_lines(lines_from(m, 0), k)),
        join_lines(lines_from(m, 0), k).len() > 0,
    decreases k,
{
    let ls = lines_from(m, 0);
    lemma_lines_join(m, 0);
    assert(m.subrange(0, m.len() as int) =~= m);
    lemma_join_grows(ls, k, ls.len());
    if k == 1 {
        lemma_lines_step(m, 0);
        lemma_line_end(m, 0);
        assert(chunk_fold(ls, 0) == (Seq::<u8>::empty(), Seq::<u8>::empty()));
        assert(ls[0].len() > 0);
    } else {
        lemma_short_fold(m, (k - 1) as nat);
    }
}

/// A chunked message shorter than the chunk size that does not start with a
/// newline goes out as one chunk carrying the whole message, lines kept with
/// the newlines between them, and a newline added at the end when it has
/// none; then the end-of-chunks line.
pub proof fn lemma_short_chunked(m: Seq<u8>)
    requires
        0 < m.len() < 4096,
        m[0] != 10,
    ensures
        chunked_bytes(m) == seq![35u8] + dec(nl_terminated(m).len()) + seq![10u8] + nl_terminated(m) + seq![
            35u8,
            35u8,
            10u8,
        ],
{
    let ls = lines_from(m, 0);
    lemma_lines_join(m, 0);
    assert(m.subrange(0, m.len() as int) =~= m);
    lemma_short_fold(m, ls.len());
    assert(Seq::<u8>::empty() + chunk_bytes(nl_terminated(m)) =~= chunk_bytes(nl_terminated(m)));
}

/// `encode_message` on such a message containing `]]>` writes that one chunk.
pub proof fn lemma_short_framed(m: Seq<u8>)
    requires
        0 < m.len() < 4096,
        m[0] != 10,
        first_from(m, cdata_end(), 0) is Some,
    ensures
        framed(m) == seq![35u8] + dec(nl_terminated(m).len()) + seq![10u8] + nl_terminated(m) + seq![35u8, 35u8, 10u8],
{
    lemma_short_chunked(m);
}

/// The chunks `cs`, one after another, each with its header.
pub open spec fn chunk_seq(cs: Seq<Seq<u8>>) -> Seq<u8>
    decreases cs.len(),
{
    if cs.len() == 0 {
        Seq::empty()
    } else {
        chunk_seq(cs.drop_last()) + seq![35u8] + dec(cs.last().len()) + seq![10u8] + cs.last()
    }
}

/// The octets the chunks `cs` carry, one after another.
pub open spec fn payloads(cs: Seq<Seq<u8>>) -> Seq<u8>
    decreases cs.len(),
{
    if cs.len() == 0 {
        Seq::empty()
    } else {
        payloads(cs.drop_last()) + cs.last()
    }
}

/// No two newlines in `m` stand next to each other.
pub open spec fn no_blank_lines(m: Seq<u8>) -> bool {
    forall|i: int| 0 <= i < m.len() - 1 ==> !(#[trigger] m[i] == 10 && m[i + 1] == 10)
}

/// The shape of the lines the encoder gathers: none holds a newline, the
/// first and every one but the last are not empty.
pub open spec fn lines_shaped(ls: Seq<Seq<u8>>) -> bool {
    &&& ls.len() >= 1
    &&& ls[0].len() > 0
    &&& forall|j: int| 0 <= j < ls.len() - 1 ==> (#[trigger] ls[j]).len() > 0
    &&& forall|j: int, q: int| 0 <= j < ls.len() && 0 <= q < ls[j].len() ==> (#[trigger] ls[j][q]) != 10
}

proof fn lemma_lines_no_nl(b: Seq<u8>, i: int)
    requires
        0 <= i <= b.len(),
    ensures
        forall|j: int, q: int|
            0 <= j < lines_from(b, i).len() && 0 <= q < lines_from(b, i)[j].len() ==> (#[trigger] lines_from(
                b,
                i,
            )[j][q]) != 10,
    decreases b.len() - i,
{
    lemma_lines_step(b, i);
    lemma_line_end(b, i);
    let e = line_end(b, i);
    if e < b.len() {
        lemma_lines_no_nl(b, e + 1);
        let ls = lines_from(b, i);
        let rest = lines_from(b, e + 1);
        assert forall|j: int, q: int| 0 <= j < ls.len() && 0 <= q < ls[j].len() implies (#[trigger] ls[j][q]) != 10 by {
            if j > 0 {
                assert(ls[j] == rest[j - 1]);
            } else {
                assert(ls[0][q] == b[i + q]);
            }
        }
    } else {
        let ls = lines_from(b, i);
        assert forall|j: int, q: int| 0 <= j < ls.len() && 0 <= q < ls[j].len() implies (#[trigger] ls[j][q]) != 10 by {
            assert(ls[0][q] == b[i + q]);
        }
    }
}

proof fn lemma_lines_nonempty(b: Seq<u8>, i: int)
    requires
        0 <= i <= b.len(),
        i < b.len() ==> b[i] != 10,
        no_blank_lines(b),
    ensures
        forall|j: int| 0 <= j < lines_from(b, i).len() - 1 ==> (#[trigger] lines_from(b, i)[j]).len() > 0,
        i < b.len() ==> lines_from(b, i)[0].len() > 0,
    decreases b.len() - i,
{
    lemma_lines_step(b, i);
    lemma_line_end(b, i);
    let e = line_end(b, i);
    if e < b.len() {
        if e + 1 < b.len() {
            assert(!(b[e] == 10 && b[e + 1] == 10));
        }
        if i < b.len() {
            assert(e > i);
        } else {
            assert(false);
        }
        lemma_lines_nonempty(b, e + 1);
        let ls = lines_from(b, i);
        let rest = lines_from(b, e + 1);
        assert forall|j: int| 0 <= j < ls.len() - 1 implies (#[trigger] ls[j]).len() > 0 by {
            if j > 0 {
                assert(ls[j] == rest[j - 1]);
            }
        }
    }
}

proof fn lemma_nl_terminated_append(p: Seq<u8>, b: Seq<u8>)
    requires
        b.len() > 0,
    ensures
        nl_terminated(p + b) == p + nl_terminated(b),
{
    assert((p + b).last() == b.last());
    assert((p + b).push(10) =~= p + b.push(10));
}

proof fn lemma_join_last(ls: Seq<Seq<u8>>, k: nat)
    requires
        1 <= k <= ls.len(),
        lines_shaped(ls),
        k < ls.len() || ls[k - 1].len() > 0,
    ensures
        join_lines(ls, k).len() > 0,
        join_lines(ls, k).last() != 10,
{
    assert(ls[k - 1].len() > 0);
    assert(ls[k - 1][ls[k - 1].len() - 1] != 10);
    if k == 1 {
    } else {
        assert(join_lines(ls, k) == join_lines(ls, (k - 1) as nat).push(10) + ls[k - 1]);
    }
}

proof fn lemma_chunk_seq_push(cs: Seq<Seq<u8>>, x: Seq<u8>)
    ensures
        chunk_seq(cs.push(x)) == chunk_seq(cs) + chunk_bytes(x),
        payloads(cs.push(x)) == payloads(cs) + x,
{
    assert(cs.push(x).drop_last() =~= cs);
    assert(chunk_seq(cs) + seq![35u8] + dec(x.len()) + seq![10u8] + x =~= chunk_seq(cs) + chunk_bytes(x));
}

/// The encoder's state after `k` lines: what it has written is a run of
/// chunks of at least 4096 octets, each ending with a newline; and, for
/// lines of the shape a message without blank lines has, those chunks and
/// the buffer together carry the first `k` lines joined (with a newline
/// closing the chunks when the buffer is empty).
proof fn lemma_fold_chunks(ls: Seq<Seq<u8>>, k: nat) -> (cs: Seq<Seq<u8>>)
    requires
        k <= ls.len(),
    ensures
        chunk_fold(ls, k).0 == chunk_seq(cs),
        forall|i: int| 0 <= i < cs.len() ==> (#[trigger] cs[i]).len() >= 4096 && cs[i].last() == 10,
        k >= 1 && lines_shaped(ls) ==> ({
            let st = chunk_fold(ls, k);
            ||| st.1.len() > 0 && payloads(cs) + st.1 == join_lines(ls, k)
            ||| st.1.len() == 0 && payloads(cs) == nl_terminated(join_lines(ls, k))
        }),
    decreases k,
{
    if k == 0 {
        Seq::empty()
    } else {
        let k0 = (k - 1) as nat;
        let cs0 = lemma_fold_chunks(ls, k0);
        let prev = chunk_fold(ls, k0);
        let line = ls[k0 as int];
        let buf = if prev.1.len() == 0 {
            line
        } else {
            prev.1.push(10) + line
        };
        assert(chunk_fold(ls, k) == chunk_step(prev, line));
        if lines_shaped(ls) {
            if k0 >= 1 {
                lemma_join_last(ls, k0);
                assert(join_lines(ls, k) == join_lines(ls, k0).push(10) + line);
            }
        }
        let ghost shaped = lines_shaped(ls);
        if buf.len() >= 4096 {
            let x = nl_terminated(buf);
            let cs = cs0.push(x);
            lemma_chunk_seq_push(cs0, x);
            assert forall|i: int| 0 <= i < cs.len() implies (#[trigger] cs[i]).len() >= 4096 && cs[i].last() == 10 by {
                if i < cs0.len() {
                    assert(cs[i] == cs0[i]);
                }
            }
            if shaped {
                if k0 == 0 {
                    assert(payloads(cs0) == Seq::<u8>::empty());
                    assert(Seq::<u8>::empty() + x =~= x);
                } else if prev.1.len() > 0 {
                    assert(payloads(cs0) + buf =~= join_lines(ls, k));
                    lemma_nl_terminated_append(payloads(cs0), buf);
                } else {
                    assert(payloads(cs0) + buf =~= join_lines(ls, k));
                    lemma_nl_terminated_append(payloads(cs0), buf);
                }
            }
            cs
        } else {
            if shaped {
                if k0 == 0 {
                    assert(payloads(cs0) == Seq::<u8>::empty());
                    assert(Seq::<u8>::empty() + buf =~= buf);
                    assert(ls[0].len() > 0);
                } else if prev.1.len() > 0 {
                    assert(payloads(cs0) + buf =~= join_lines(ls, k));
                } else if line.len() > 0 {
                    assert(payloads(cs0) + buf =~= join_lines(ls, k));
                } else {
                    assert(k0 == ls.len() - 1);
                    assert(join_lines(ls, k) =~= join_lines(ls, k0).push(10));
                }
            }
            cs0
        }
    }
}

/// Chunked framing writes a run of chunks and then the end-of-chunks line;
/// every chunk ends with a newline, and every chunk but the last holds at
/// least 4096 octets. When the message is not empty, does not start with a
/// newline and has no two newlines in a row, the chunks carry exactly the
/// message, with a newline added at the end when it has none.
pub proof fn lemma_chunked_framing(m: Seq<u8>)
    ensures
        exists|cs: Seq<Seq<u8>>|
            #![trigger chunk_seq(cs)]
            chunked_bytes(m) == chunk_seq(cs) + seq![35u8, 35u8, 10u8] && (forall|i: int|
                0 <= i < cs.len() ==> (#[trigger] cs[i]).len() > 0 && cs[i].last() == 10) && (forall|i: int|
                0 <= i < cs.len() - 1 ==> (#[trigger] cs[i]).len() >= 4096) && (m.len() > 0 && m[0] != 10
                && no_blank_lines(m) ==> payloads(cs) == nl_terminated(m)),
{
    let ls = lines_from(m, 0);
    lemma_lines_join(m, 0);
    assert(m.subrange(0, m.len() as int) =~= m);
    lemma_lines_no_nl(m, 0);
    let cs0 = lemma_fold_chunks(ls, ls.len());
    let st = chunk_fold(ls, ls.len());
    let shaped_m = m.len() > 0 && m[0] != 10 && no_blank_lines(m);
    if shaped_m {
        lemma_lines_nonempty(m, 0);
        assert(lines_shaped(ls));
    }
    if st.1.len() > 0 {
        let x = nl_terminated(st.1);
        let cs = cs0.push(x);
        lemma_chunk_seq_push(cs0, x);
        assert forall|i: int| 0 <= i < cs.len() implies (#[trigger] cs[i]).len() > 0 && cs[i].last() == 10 by {
            if i < cs0.len() {
                assert(cs[i] == cs0[i]);
            }
        }
        assert forall|i: int| 0 <= i < cs.len() - 1 implies (#[trigger] cs[i]).len() >= 4096 by {
            assert(cs[i] == cs0[i]);
        }
        if shaped_m {
            lemma_nl_terminated_append(payloads(cs0), st.1);
        }
        assert(chunked_bytes(m) == chunk_seq(cs) + seq![35u8, 35u8, 10u8]);
    } else {
        assert(st.0 + Seq::<u8>::empty() =~= st.0);
        assert(chunked_bytes(m) == chunk_seq(cs0) + seq![35u8, 35u8, 10u8]);
    }
}

/// The decimal digits written for a chunk length are digits, and read back
/// as that length.
pub proof fn lemma_dec_round_trip(n: nat)
    ensures
        all_digits(dec(n)),
        dec(n).len() > 0,
        dec_value(dec(n)) == n,
    decreases n,
{
    if n >= 10 {
        lemma_dec_round_trip(n / 10);
        let d = dec(n / 10).push((48 + n % 10) as u8);
        assert(d.drop_last() =~= dec(n / 10));
        assert(d.last() == (48 + n % 10) as u8);
        assert(dec_value(d) == dec_value(dec(n / 10)) * 10 + (d.last() - 48) as nat);
        vstd::arithmetic::div_mod::lemma_fundamental_div_mod(n as int, 10);
        assert(dec_value(d) == n);
        assert forall|i: int| 0 <= i < d.len() implies 48 <= #[trigger] d[i] <= 57 by {
            if i < d.len() - 1 {
                assert(d[i] == dec(n / 10)[i]);
            }
        }
    } else {
        let d = seq![(48 + n) as u8];
        assert(d.drop_last() =~= Seq::<u8>::empty());
        assert(dec_value(d) == dec_value(Seq::<u8>::empty()) * 10 + (d.last() - 48) as nat);
    }
}

proof fn lemma_chunk_seq_cons(c: Seq<u8>, cs: Seq<Seq<u8>>)
    ensures
        chunk_seq(seq![c] + cs) == chunk_bytes(c) + chunk_seq(cs),
        payloads(seq![c] + cs) == c + payloads(cs),
    decreases cs.len(),
{
    let xs = seq![c] + cs;
    if cs.len() == 0 {
        assert(xs =~= seq![c]);
        assert(xs.drop_last() =~= Seq::<Seq<u8>>::empty());
        assert(xs.last() == c);
        assert(chunk_seq(Seq::<Seq<u8>>::empty()) == Seq::<u8>::empty());
        assert(payloads(Seq::<Seq<u8>>::empty()) == Seq::<u8>::empty());
        assert(chunk_seq(xs) == chunk_seq(xs.drop_last()) + seq![35u8] + dec(c.len()) + seq![10u8] + c);
        assert(payloads(xs) == payloads(xs.drop_last()) + c);
        assert(chunk_seq(xs) =~= chunk_bytes(c) + chunk_seq(cs));
        assert(payloads(xs) =~= c + payloads(cs));
    } else {
        lemma_chunk_seq_cons(c, cs.drop_last());
        assert(xs.drop_last() =~= seq![c] + cs.drop_last());
        assert(xs.last() == cs.last());
        let l = cs.last();
        assert(chunk_seq(xs) == chunk_seq(xs.drop_last()) + seq![35u8] + dec(l.len()) + seq![10u8] + l);
        assert(chunk_seq(cs) == chunk_seq(cs.drop_last()) + seq![35u8] + dec(l.len()) + seq![10u8] + l);
        assert(payloads(xs) == payloads(xs.drop_last()) + l);
        assert(payloads(cs) == payloads(cs.drop_last()) + l);
        assert(chunk_seq(xs) =~= chunk_bytes(c) + chunk_seq(cs));
        assert(payloads(xs) =~= c + payloads(cs));
    }
}

proof fn lemma_line_end_at(b: Seq<u8>, i: int, j: int)
    requires
        0 <= i <= j < b.len(),
        b[j] == 10,
        forall|k: int| i <= k < j ==> b[k] != 10,
    ensures
        line_end(b, i) == j,
    decreases j - i,
{
    if i < j {
        lemma_line_end_at(b, i + 1, j);
    }
}

proof fn lemma_payload_len(cs: Seq<Seq<u8>>, i: int)
    requires
        0 <= i < cs.len(),
    ensures
        cs[i].len() <= payloads(cs).len(),
    decreases cs.len(),
{
    if i < cs.len() - 1 {
        lemma_payload_len(cs.drop_last(), i);
        assert(cs.drop_last()[i] == cs[i]);
    }
}

/// One chunk at `pos` is read, and reading goes on after it with its octets
/// added to the message.
#[verifier::spinoff_prover]
proof fn lemma_chunk_header_read(b: Seq<u8>, pos: int, msg: Seq<u8>, c: Seq<u8>, after: Seq<u8>)
    requires
        0 <= pos <= b.len(),
        b.subrange(pos, b.len() as int) == chunk_bytes(c) + after,
        c.len() <= usize::MAX,
    ensures
        chunked_from(b, pos, msg) == chunked_from(b, pos + chunk_bytes(c).len(), msg + c),
        b.subrange(pos + chunk_bytes(c).len(), b.len() as int) == after,
        pos + chunk_bytes(c).len() <= b.len(),
{
    let tail = b.subrange(pos, b.len() as int);
    let d = dec(c.len());
    lemma_dec_round_trip(c.len());
    let h: int = (1 + d.len()) as int;
    assert(tail =~= seq![35u8] + d + seq![10u8] + c + after);
    assert(tail[0] == 35);
    assert(b[pos] == tail[0]);
    assert forall|k: int| pos <= k < pos + h implies b[k] != 10 by {
        assert(b[k] == tail[k - pos]);
        if k > pos {
            assert(tail[k - pos] == d[k - pos - 1]);
        }
    }
    assert(tail[h] == 10);
    assert(b[pos + h] == tail[h]);
    lemma_line_end_at(b, pos, pos + h);
    let line = b.subrange(pos, pos + h);
    assert(line =~= seq![35u8] + d);
    assert(line[1] == d[0]);
    assert(line != seq![35u8, 35u8]);
    let digits = line.subrange(1, line.len() as int);
    assert(digits =~= d);
    assert(d[0] != 43);
    assert(parse_size(digits) == Some(c.len()));
    let np = pos + h + 1 + c.len();
    assert(b.subrange(pos + h + 1, np) =~= c) by {
        assert forall|k: int| 0 <= k < c.len() implies b.subrange(pos + h + 1, np)[k] == c[k] by {
            assert(b[pos + h + 1 + k] == tail[h + 1 + k]);
        }
    }
    assert(b.subrange(np, b.len() as int) =~= after) by {
        assert forall|k: int| 0 <= k < after.len() implies b.subrange(np, b.len() as int)[k] == after[k] by {
            assert(b[np + k] == tail[np - pos + k]);
        }
    }
    assert(chunk_bytes(c).len() == h + 1 + c.len());
}

/// Chunks written one after another, then the end-of-chunks line, read back
/// from `pos` as one message carrying what the chunks carry.
proof fn lemma_chunks_read(b: Seq<u8>, pos: int, msg: Seq<u8>, cs: Seq<Seq<u8>>, rest: Seq<u8>)
    requires
        0 <= pos <= b.len(),
        b.subrange(pos, b.len() as int) == chunk_seq(cs) + seq![35u8, 35u8, 10u8] + rest,
        forall|i: int| 0 <= i < cs.len() ==> (#[trigger] cs[i]).len() <= usize::MAX,
    ensures
        chunked_from(b, pos, msg) == Frame::Message(lossy_utf8(msg + payloads(cs)), pos + chunk_seq(cs).len() + 3),
    decreases cs.len(),
{
    let tail = b.subrange(pos, b.len() as int);
    if cs.len() == 0 {
        assert(tail =~= seq![35u8, 35u8, 10u8] + rest);
        assert(b[pos] == tail[0] && b[pos + 1] == tail[1] && b[pos + 2] == tail[2]);
        lemma_line_end_at(b, pos, pos + 2);
        assert(b.subrange(pos, pos + 2) =~= seq![35u8, 35u8]);
        assert(msg + payloads(cs) =~= msg);
    } else {
        let c = cs[0];
        let cs2 = cs.drop_first();
        assert(seq![c] + cs2 =~= cs);
        lemma_chunk_seq_cons(c, cs2);
        let after = chunk_seq(cs2) + seq![35u8, 35u8, 10u8] + rest;
        assert(tail =~= chunk_bytes(c) + after);
        lemma_chunk_header_read(b, pos, msg, c, after);
        assert forall|i: int| 0 <= i < cs2.len() implies (#[trigger] cs2[i]).len() <= usize::MAX by {
            assert(cs2[i] == cs[i + 1]);
        }
        lemma_chunks_read(b, pos + chunk_bytes(c).len(), msg + c, cs2, rest);
        assert(msg + c + payloads(cs2) =~= msg + payloads(cs));
    }
}

/// Decoding what `encode_message` writes in chunked framing gives the
/// message back (with a newline added when it has none), when the message
/// does not start with a newline and has no two newlines in a row, and the
/// octets after the frame are left for the next message.
pub proof fn lemma_chunked_round_trip(m: Seq<u8>, rest: Seq<u8>)
    requires
        first_from(m, cdata_end(), 0) is Some,
        m[0] != 10,
        no_blank_lines(m),
        m.len() < usize::MAX,
    ensures
        extract(framed(m) + rest) == Frame::Message(lossy_utf8(nl_terminated(m)), framed(m).len() as int),
{
    lemma_first_from(m, cdata_end(), 0);
    assert(m.len() > 0);
    lemma_chunked_framing(m);
    let cs = choose|cs: Seq<Seq<u8>>|
        #![trigger chunk_seq(cs)]
        chunked_bytes(m) == chunk_seq(cs) + seq![35u8, 35u8, 10u8] && (forall|i: int|
            0 <= i < cs.len() ==> (#[trigger] cs[i]).len() > 0 && cs[i].last() == 10) && (forall|i: int|
            0 <= i < cs.len() - 1 ==> (#[trigger] cs[i]).len() >= 4096) && (m.len() > 0 && m[0] != 10
            && no_blank_lines(m) ==> payloads(cs) == nl_terminated(m));
    let b = framed(m) + rest;
    assert(framed(m) == chunked_bytes(m));
    assert forall|i: int| 0 <= i < cs.len() implies (#[trigger] cs[i]).len() <= usize::MAX by {
        lemma_payload_len(cs, i);
    }
    assert(b.subrange(0, b.len() as int) =~= chunk_seq(cs) + seq![35u8, 35u8, 10u8] + rest);
    lemma_chunks_read(b, 0, Seq::empty(), cs, rest);
    assert(Seq::<u8>::empty() + payloads(cs) =~= payloads(cs));
    assert(payloads(cs).len() > 0);
    assert(cs.len() > 0);
    assert(chunk_seq(cs).len() > 0 && chunk_seq(cs)[0] == 35) by {
        lemma_chunk_seq_cons(cs[0], cs.drop_first());
        assert(seq![cs[0]] + cs.drop_first() =~= cs);
    }
    assert(b[0] == 35);
}

} // verus!
