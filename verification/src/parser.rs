//! The tokenizing cursor: a forward-only scanner over a NUL-stripped byte
//! buffer that extracts delimiter-bounded tokens (CRLF lines, single-byte
//! fields, hex runs) and offers a bounded streaming read.

use vstd::prelude::*;

use crate::bytes::is_hex_digit;
use crate::bytes::is_hex_digit_spec;
use crate::bytes::strip_nul_bytes;
use crate::bytes::strip_nul_seq;
use crate::bytes::contains_byte;
use crate::decode::lossy_utf8_of;
use crate::decode::utf8_lossy;
use crate::CR;
use crate::LF;
use crate::NULL;
use crate::SP;

verus! {

/// The least index `i >= k` at which a CRLF pair starts, if any: the pair
/// needs exact two-byte adjacency, so a lone CR never matches.
pub open spec fn scan_crlf(s: Seq<u8>, k: int) -> Option<int>
    decreases s.len() - k,
{
    if k + 1 >= s.len() {
        None
    } else if s[k] == CR && s[k + 1] == LF {
        Some(k)
    } else {
        scan_crlf(s, k + 1)
    }
}

/// The position of the first CRLF pair of the sequence, if any.
pub open spec fn find_crlf(s: Seq<u8>) -> Option<int> {
    scan_crlf(s, 0)
}

/// The least index `i >= k` at which byte `b` occurs, if any.
pub open spec fn scan_byte(s: Seq<u8>, b: u8, k: int) -> Option<int>
    decreases s.len() - k,
{
    if k >= s.len() {
        None
    } else if s[k] == b {
        Some(k)
    } else {
        scan_byte(s, b, k + 1)
    }
}

/// The position of the first occurrence of byte `b`, if any.
pub open spec fn find_byte(s: Seq<u8>, b: u8) -> Option<int> {
    scan_byte(s, b, 0)
}

/// What a result of `scan_crlf` means: a hit is a CRLF pair with none
/// before it, a miss means the range holds no CRLF pair at all.
pub proof fn lemma_scan_crlf_props(s: Seq<u8>, k: int)
    requires
        0 <= k <= s.len(),
    ensures
        match scan_crlf(s, k) {
            Some(i) => k <= i && i + 1 < s.len() && s[i] == CR && s[i + 1] == LF,
            None => forall|j: int| k <= j && j + 1 < s.len() ==> !(#[trigger] s[j] == CR && s[j + 1] == LF),
        },
    decreases s.len() - k,
{
    if k + 1 >= s.len() {
    } else if s[k] == CR && s[k + 1] == LF {
    } else {
        lemma_scan_crlf_props(s, k + 1);
    }
}

/// What a result of `scan_byte` means.
pub proof fn lemma_scan_byte_props(s: Seq<u8>, b: u8, k: int)
    requires
        0 <= k <= s.len(),
    ensures
        match scan_byte(s, b, k) {
            Some(i) => k <= i && i < s.len() && s[i] == b,
            None => forall|j: int| k <= j < s.len() ==> s[j] != b,
        },
    decreases s.len() - k,
{
    if k >= s.len() {
    } else if s[k] == b {
    } else {
        lemma_scan_byte_props(s, b, k + 1);
    }
}

/// The length of the longest prefix of ASCII hex digits.
pub open spec fn hex_run_len(s: Seq<u8>) -> nat
    decreases s.len(),
{
    if s.len() > 0 && is_hex_digit_spec(s[0]) {
        hex_run_len(s.drop_first()) + 1
    } else {
        0
    }
}

/// The length of the longest prefix of bytes drawn from `chars`.
pub open spec fn set_run_len(s: Seq<u8>, chars: Seq<u8>) -> nat
    decreases s.len(),
{
    if s.len() > 0 && chars.contains(s[0]) {
        set_run_len(s.drop_first(), chars) + 1
    } else {
        0
    }
}

/// `hex_run_len` is pinned down by its two boundary conditions: every
/// byte before `k` is a hex digit, and `k` is the end or the first
/// non-digit.
pub proof fn lemma_hex_run_len_char(s: Seq<u8>, k: int)
    requires
        0 <= k <= s.len(),
        forall|j: int| 0 <= j < k ==> is_hex_digit_spec(s[j]),
        k == s.len() || !is_hex_digit_spec(s[k]),
    ensures
        hex_run_len(s) == k,
    decreases k,
{
    if k == 0 {
    } else {
        assert(is_hex_digit_spec(s[0]));
        lemma_hex_run_len_char(s.drop_first(), k - 1);
    }
}

/// `set_run_len` is pinned down by the same two boundary conditions.
pub proof fn lemma_set_run_len_char(s: Seq<u8>, chars: Seq<u8>, k: int)
    requires
        0 <= k <= s.len(),
        forall|j: int| 0 <= j < k ==> chars.contains(s[j]),
        k == s.len() || !chars.contains(s[k]),
    ensures
        set_run_len(s, chars) == k,
    decreases k,
{
    if k == 0 {
    } else {
        assert(chars.contains(s[0]));
        lemma_set_run_len_char(s.drop_first(), chars, k - 1);
    }
}

/// The CRLF-terminated lines at the front of the sequence, in order:
/// the bytes before the first CRLF pair, then the lines of what follows
/// that pair. Collection stops at an empty line (a CRLF pair at the very
/// front) without emitting it; a nonempty tail with no CRLF pair is one
/// final line; a trailing empty read is never emitted as a line.
pub open spec fn crlf_lines(s: Seq<u8>) -> Seq<Seq<u8>>
    decreases s.len(),
    via crlf_lines_dec
{
    match find_crlf(s) {
        Some(i) => if i == 0 {
            Seq::<Seq<u8>>::empty()
        } else {
            seq![s.subrange(0, i)] + crlf_lines(s.subrange(i + 2, s.len() as int))
        },
        None => if s.len() == 0 {
            Seq::<Seq<u8>>::empty()
        } else {
            seq![s]
        },
    }
}

#[via_fn]
proof fn crlf_lines_dec(s: Seq<u8>) {
    lemma_scan_crlf_props(s, 0);
}

/// What line collection leaves unconsumed: everything after the empty
/// line that stopped it, or nothing when the input ran out first.
pub open spec fn lines_rest(s: Seq<u8>) -> Seq<u8>
    decreases s.len(),
    via lines_rest_dec
{
    match find_crlf(s) {
        Some(i) => if i == 0 {
            s.subrange(2, s.len() as int)
        } else {
            lines_rest(s.subrange(i + 2, s.len() as int))
        },
        None => Seq::<u8>::empty(),
    }
}

#[via_fn]
proof fn lines_rest_dec(s: Seq<u8>) {
    lemma_scan_crlf_props(s, 0);
}

/// Exhausted-parser idempotence: on an empty remainder every scan misses
/// and every run is empty, so each read-type contract forces a zero
/// count, an untouched destination and a still-empty remainder, however
/// often a read is repeated.
pub proof fn lemma_exhausted_reads(s: Seq<u8>)
    requires
        s.len() == 0,
    ensures
        find_crlf(s) is None,
        forall|b: u8| #[trigger] find_byte(s, b) is None,
        crlf_lines(s) == Seq::<Seq<u8>>::empty(),
        lines_rest(s) == Seq::<u8>::empty(),
        hex_run_len(s) == 0,
        forall|chars: Seq<u8>| #[trigger] set_run_len(s, chars) == 0,
{
    assert forall|b: u8| #[trigger] find_byte(s, b) is None by {
        assert(scan_byte(s, b, 0) is None);
    }
    assert forall|chars: Seq<u8>| #[trigger] set_run_len(s, chars) == 0 by {
        assert(!(s.len() > 0));
    }
}

/// A stateful, forward-only tokenizer over an in-memory byte buffer from
/// which every NUL byte was stripped at construction. The position only
/// advances; once it reaches the end, every read yields zero bytes.
#[derive(Debug, Clone)]
pub struct UTF8Parser {
    buf: Vec<u8>,
    pos: usize,
}

impl View for UTF8Parser {
    type V = Seq<u8>;

    /// A parser is seen as the sequence of bytes it has not yet consumed.
    closed spec fn view(&self) -> Seq<u8> {
        self.buf@.subrange(self.pos as int, self.buf@.len() as int)
    }
}

impl UTF8Parser {
    /// The position never passes the end of the buffer, and no NUL byte
    /// survives in the unconsumed part.
    pub closed spec fn wf(&self) -> bool {
        self.pos <= self.buf@.len() && forall|i: int|
            self.pos <= i < self.buf@.len() ==> self.buf@[i] != 0x00
    }

    /// Builds a parser over the buffer with every NUL byte stripped out.
    pub fn new(buffer: &[u8]) -> (r: Self)
        ensures
            r.wf(),
            r@ == strip_nul_seq(buffer@),
    {
        let buf = strip_nul_bytes(buffer);
        proof {
            assert forall|i: int| 0 <= i < buf@.len() implies buf@[i] != 0x00 by {
                buffer@.lemma_filter_pred(|b: u8| b != 0x00, i);
            }
            assert(buf@.subrange(0, buf@.len() as int) =~= buf@);
        }
        Self { buf, pos: 0 }
    }

    /// Appends bytes to `buf` up to, and not including, the first
    /// occurrence of `delim`, which is consumed and discarded; when the
    /// delimiter does not occur, the whole remainder is appended. Returns
    /// how many bytes were appended.
    pub fn read_to_char(&mut self, delim: &u8, buf: &mut Vec<u8>) -> (r: usize)
        requires
            old(self).wf(),
        ensures
            final(self).wf(),
            match find_byte(old(self)@, *delim) {
                Some(i) => r == i && final(buf)@ == old(buf)@ + old(self)@.subrange(0, i)
                    && final(self)@ == old(self)@.subrange(i + 1, old(self)@.len() as int),
                None => r == old(self)@.len() && final(buf)@ == old(buf)@ + old(self)@
                    && final(self)@.len() == 0,
            },
    {
        let ghost s = old(self)@;
        let ghost start = self.pos as int;
        let mut count: usize = 0;
        while self.pos < self.buf.len() && self.buf[self.pos] != *delim
            invariant
                self.wf(),
                self.buf@ == old(self).buf@,
                start == old(self).pos as int,
                self.pos as int == start + count,
                count <= s.len(),
                buf@ == old(buf)@ + s.subrange(0, count as int),
                scan_byte(s, *delim, 0) == scan_byte(s, *delim, count as int),
            decreases s.len() - count,
        {
            buf.push(self.buf[self.pos]);
            self.pos = self.pos + 1;
            count = count + 1;
            proof {
                assert(buf@ =~= old(buf)@ + s.subrange(0, count as int));
            }
        }
        if self.pos < self.buf.len() {
            self.pos = self.pos + 1;
            proof {
                assert(self@ =~= s.subrange(count + 1, s.len() as int));
            }
        } else {
            proof {
                assert(s.subrange(0, count as int) =~= s);
            }
        }
        count
    }

    /// Appends bytes to `buf` up to, and not including, the first CRLF
    /// pair, which is consumed and discarded. A lone CR is ordinary
    /// content: only an exactly adjacent CR LF terminates the token. When
    /// no CRLF occurs, the whole remainder is appended. Returns how many
    /// bytes were appended.
    pub fn read_to_crlf(&mut self, buf: &mut Vec<u8>) -> (r: usize)
        requires
            old(self).wf(),
        ensures
            final(self).wf(),
            match find_crlf(old(self)@) {
                Some(i) => r == i && final(buf)@ == old(buf)@ + old(self)@.subrange(0, i)
                    && final(self)@ == old(self)@.subrange(i + 2, old(self)@.len() as int),
                None => r == old(self)@.len() && final(buf)@ == old(buf)@ + old(self)@
                    && final(self)@.len() == 0,
            },
    {
        let ghost s = old(self)@;
        let ghost start = self.pos as int;
        let mut count: usize = 0;
        while self.pos < self.buf.len() && !(self.buf[self.pos] == CR && self.pos + 1
            < self.buf.len() && self.buf[self.pos + 1] == LF)
            invariant
                self.wf(),
                self.buf@ == old(self).buf@,
                start == old(self).pos as int,
                self.pos as int == start + count,
                count <= s.len(),
                buf@ == old(buf)@ + s.subrange(0, count as int),
                scan_crlf(s, 0) == scan_crlf(s, count as int),
            decreases s.len() - count,
        {
            buf.push(self.buf[self.pos]);
            self.pos = self.pos + 1;
            count = count + 1;
            proof {
                assert(buf@ =~= old(buf)@ + s.subrange(0, count as int));
            }
        }
        if self.pos < self.buf.len() {
            self.pos = self.pos + 2;
            proof {
                assert(s[count as int] == CR && s[count + 1] == LF);
                assert(self@ =~= s.subrange(count + 2, s.len() as int));
            }
        } else {
            proof {
                assert(s.subrange(0, count as int) =~= s);
            }
        }
        count
    }

    /// `read_to_char` with the ASCII space as the delimiter.
    pub fn read_to_space(&mut self, buf: &mut Vec<u8>) -> (r: usize)
        requires
            old(self).wf(),
        ensures
            final(self).wf(),
            match find_byte(old(self)@, SP) {
                Some(i) => r == i && final(buf)@ == old(buf)@ + old(self)@.subrange(0, i)
                    && final(self)@ == old(self)@.subrange(i + 1, old(self)@.len() as int),
                None => r == old(self)@.len() && final(buf)@ == old(buf)@ + old(self)@
                    && final(self)@.len() == 0,
            },
    {
        self.read_to_char(&SP, buf)
    }

    /// `read_to_char` with the line feed as the delimiter.
    pub fn read_to_lf(&mut self, buf: &mut Vec<u8>) -> (r: usize)
        requires
            old(self).wf(),
        ensures
            final(self).wf(),
            match find_byte(old(self)@, LF) {
                Some(i) => r == i && final(buf)@ == old(buf)@ + old(self)@.subrange(0, i)
                    && final(self)@ == old(self)@.subrange(i + 1, old(self)@.len() as int),
                None => r == old(self)@.len() && final(buf)@ == old(buf)@ + old(self)@
                    && final(self)@.len() == 0,
            },
    {
        self.read_to_char(&LF, buf)
    }

    /// `read_to_char` with NUL as the delimiter. Every NUL byte was
    /// stripped at construction, so the delimiter never occurs and the
    /// whole remainder is always appended: this is the parser's
    /// read-to-end operation.
    pub fn read_to_null(&mut self, buf: &mut Vec<u8>) -> (r: usize)
        requires
            old(self).wf(),
        ensures
            final(self).wf(),
            r == old(self)@.len(),
            final(buf)@ == old(buf)@ + old(self)@,
            final(self)@.len() == 0,
    {
        proof {
            lemma_scan_byte_props(self@, NULL, 0);
        }
        self.read_to_char(&NULL, buf)
    }

    /// Consumes and discards bytes up to and including the first CRLF
    /// pair; when none occurs the whole remainder is discarded.
    pub fn skip_to_crlf(&mut self)
        requires
            old(self).wf(),
        ensures
            final(self).wf(),
            match find_crlf(old(self)@) {
                Some(i) => final(self)@ == old(self)@.subrange(i + 2, old(self)@.len() as int),
                None => final(self)@.len() == 0,
            },
    {
        let ghost s = old(self)@;
        let ghost start = self.pos as int;
        while self.pos < self.buf.len() && !(self.buf[self.pos] == CR && self.pos + 1
            < self.buf.len() && self.buf[self.pos + 1] == LF)
            invariant
                self.wf(),
                self.buf@ == old(self).buf@,
                start == old(self).pos as int,
                start <= self.pos as int <= self.buf@.len(),
                scan_crlf(s, 0) == scan_crlf(s, self.pos - start),
            decreases self.buf@.len() - self.pos,
        {
            self.pos = self.pos + 1;
        }
        let ghost k = self.pos - start;
        if self.pos < self.buf.len() {
            self.pos = self.pos + 2;
            proof {
                assert(s[k] == CR && s[k + 1] == LF);
                assert(self@ =~= s.subrange(k + 2, s.len() as int));
            }
        }
    }

    /// Consumes and discards the longest leading run of bytes drawn from
    /// `chars`, stopping at the first byte outside the set or at the end.
    pub fn skip_chars(&mut self, chars: &[u8])
        requires
            old(self).wf(),
        ensures
            final(self).wf(),
            final(self)@ == old(self)@.skip(set_run_len(old(self)@, chars@) as int),
    {
        let ghost s = old(self)@;
        let ghost start = self.pos as int;
        while self.pos < self.buf.len() && contains_byte(chars, self.buf[self.pos])
            invariant
                self.wf(),
                self.buf@ == old(self).buf@,
                start == old(self).pos as int,
                start <= self.pos as int <= self.buf@.len(),
                forall|j: int| 0 <= j < self.pos - start ==> chars@.contains(s[j]),
            decreases self.buf@.len() - self.pos,
        {
            self.pos = self.pos + 1;
        }
        proof {
            lemma_set_run_len_char(s, chars@, self.pos - start);
            assert(self@ =~= s.skip(self.pos - start));
        }
    }

    /// Consumes and returns the longest leading run of ASCII hex digits;
    /// the run is empty when the first byte is not a hex digit.
    pub fn take_hex(&mut self) -> (r: Vec<u8>)
        requires
            old(self).wf(),
        ensures
            final(self).wf(),
            r@ == old(self)@.take(hex_run_len(old(self)@) as int),
            final(self)@ == old(self)@.skip(hex_run_len(old(self)@) as int),
    {
        let ghost s = old(self)@;
        let ghost start = self.pos as int;
        let mut hex: Vec<u8> = Vec::new();
        while self.pos < self.buf.len() && is_hex_digit(self.buf[self.pos])
            invariant
                self.wf(),
                self.buf@ == old(self).buf@,
                start == old(self).pos as int,
                start <= self.pos as int <= self.buf@.len(),
                hex@ == s.subrange(0, self.pos - start),
                forall|j: int| 0 <= j < self.pos - start ==> is_hex_digit_spec(s[j]),
            decreases self.buf@.len() - self.pos,
        {
            hex.push(self.buf[self.pos]);
            self.pos = self.pos + 1;
            proof {
                assert(hex@ =~= s.subrange(0, self.pos - start));
            }
        }
        proof {
            lemma_hex_run_len_char(s, self.pos - start);
            assert(hex@ =~= s.take(self.pos - start));
            assert(self@ =~= s.skip(self.pos - start));
        }
        hex
    }

    /// Unwraps the parser into whatever bytes were never consumed.
    pub fn to_vec(self) -> (r: Vec<u8>)
        requires
            self.wf(),
        ensures
            r@ == self@,
    {
        let mut out: Vec<u8> = Vec::new();
        let mut i: usize = self.pos;
        while i < self.buf.len()
            invariant
                self.pos <= i <= self.buf@.len(),
                out@ == self.buf@.subrange(self.pos as int, i as int),
            decreases self.buf@.len() - i,
        {
            out.push(self.buf[i]);
            i = i + 1;
            proof {
                assert(out@ =~= self.buf@.subrange(self.pos as int, i as int));
            }
        }
        out
    }

    /// How many bytes one bounded read hands over: the size of the
    /// remainder or of the destination, whichever is smaller.
    fn calc_read(&self, buf: &[u8], bytes: &[u8]) -> (r: usize)
        ensures
            r == (if bytes@.len() <= buf@.len() {
                bytes@.len() as int
            } else {
                buf@.len() as int
            }),
    {
        if bytes.len() <= buf.len() {
            bytes.len()
        } else {
            buf.len()
        }
    }

    /// Copies the longest prefix of `bytes` that fits into the
    /// destination's current length over the destination's front, leaving
    /// the rest of it unchanged, and returns how many bytes were written.
    fn load_buf(&self, buf: &mut Vec<u8>, bytes: &[u8]) -> (r: usize)
        ensures
            final(buf)@.len() == old(buf)@.len(),
            r == (if bytes@.len() <= old(buf)@.len() {
                bytes@.len() as int
            } else {
                old(buf)@.len() as int
            }),
            forall|i: int| 0 <= i < r ==> final(buf)@[i] == bytes@[i],
            forall|i: int| r <= i < old(buf)@.len() ==> final(buf)@[i] == old(buf)@[i],
    {
        if buf.len() == 0 {
            return 0;
        }
        let read = self.calc_read(buf.as_slice(), bytes);
        let mut i: usize = 0;
        while i < read
            invariant
                0 <= i <= read,
                read <= buf@.len(),
                read <= bytes@.len(),
                buf@.len() == old(buf)@.len(),
                forall|j: int| 0 <= j < i ==> buf@[j] == bytes@[j],
                forall|j: int| i <= j < old(buf)@.len() ==> buf@[j] == old(buf)@[j],
            decreases read - i,
        {
            buf.set(i, bytes[i]);
            i = i + 1;
        }
        read
    }

    /// Streaming read: drains the whole remainder and writes as much of
    /// it as fits into the destination's current length, front first,
    /// leaving the rest of the destination unchanged. Returns how many
    /// bytes were written; the parser is exhausted afterwards either way.
    pub fn read(&mut self, buf: &mut Vec<u8>) -> (r: usize)
        requires
            old(self).wf(),
        ensures
            final(self).wf(),
            final(self)@.len() == 0,
            final(buf)@.len() == old(buf)@.len(),
            r == (if old(self)@.len() <= old(buf)@.len() {
                old(self)@.len() as int
            } else {
                old(buf)@.len() as int
            }),
            forall|i: int| 0 <= i < r ==> final(buf)@[i] == old(self)@[i],
            forall|i: int| r <= i < old(buf)@.len() ==> final(buf)@[i] == old(buf)@[i],
    {
        let mut bytes: Vec<u8> = Vec::new();
        self.read_to_null(&mut bytes);
        self.load_buf(buf, bytes.as_slice())
    }

    /// Repeatedly extracts CRLF-terminated lines as raw byte runs until
    /// a read yields no bytes: at the end of the input, or at an empty
    /// line, which is consumed but not emitted.
    pub fn take_crlf(&mut self) -> (r: Vec<Vec<u8>>)
        requires
            old(self).wf(),
        ensures
            final(self).wf(),
            r@.len() == crlf_lines(old(self)@).len(),
            forall|i: int| 0 <= i < r@.len() ==> r@[i]@ == crlf_lines(old(self)@)[i],
            final(self)@ == lines_rest(old(self)@),
    {
        let ghost s = old(self)@;
        let mut lines: Vec<Vec<u8>> = Vec::new();
        let mut done = false;
        while !done
            invariant
                self.wf(),
                lines_rest(s) == (if done {
                    self@
                } else {
                    lines_rest(self@)
                }),
                crlf_lines(s).len() == lines@.len() + (if done {
                    0int
                } else {
                    crlf_lines(self@).len() as int
                }),
                forall|i: int| 0 <= i < lines@.len() ==> crlf_lines(s)[i] == lines@[i]@,
                !done ==> forall|i: int|
                    0 <= i < crlf_lines(self@).len() ==> crlf_lines(s)[lines@.len() + i]
                        == crlf_lines(self@)[i],
            decreases self@.len() + (if done {
                0int
            } else {
                1int
            }),
        {
            let ghost rem = self@;
            proof {
                lemma_scan_crlf_props(rem, 0);
            }
            let mut line: Vec<u8> = Vec::new();
            let num = self.read_to_crlf(&mut line);
            if num == 0 {
                done = true;
                proof {
                    if find_crlf(rem) is None {
                        assert(self@ =~= lines_rest(rem));
                    }
                }
            } else {
                proof {
                    assert(line@ =~= Seq::<u8>::empty() + line@);
                }
                let ghost oldlines = lines@;
                lines.push(line);
                proof {
                    let ls = crlf_lines(s);
                    let cr = crlf_lines(rem);
                    let rem2 = self@;
                    if find_crlf(rem) is None {
                        assert(cr == seq![rem]);
                        assert(rem2.len() == 0);
                        assert(lines_rest(rem2) =~= lines_rest(rem));
                    }
                    assert(cr[0] == line@);
                    assert(ls[oldlines.len() as int] == cr[0]);
                    assert forall|i: int| 0 <= i < lines@.len() implies ls[i] == lines@[i]@ by {
                        if i == oldlines.len() {
                            assert(ls[i] == cr[0]);
                        }
                    }
                    assert forall|i: int| 0 <= i < crlf_lines(rem2).len() implies ls[lines@.len()
                        + i] == crlf_lines(rem2)[i] by {
                        assert(ls[oldlines.len() + (i + 1)] == cr[i + 1]);
                        assert(cr[i + 1] == crlf_lines(rem2)[i]);
                    }
                }
            }
        }
        lines
    }

    /// Repeatedly extracts CRLF-terminated lines, each decoded lossily
    /// into text, until a read yields no bytes.
    pub fn take_crlf_strings(&mut self) -> (r: Vec<String>)
        requires
            old(self).wf(),
        ensures
            final(self).wf(),
            r@.len() == crlf_lines(old(self)@).len(),
            forall|i: int| 0 <= i < r@.len() ==> r@[i]@ == lossy_utf8_of(crlf_lines(old(self)@)[i]),
            final(self)@ == lines_rest(old(self)@),
    {
        let ghost s = old(self)@;
        let mut lines: Vec<String> = Vec::new();
        let mut done = false;
        while !done
            invariant
                self.wf(),
                lines_rest(s) == (if done {
                    self@
                } else {
                    lines_rest(self@)
                }),
                crlf_lines(s).len() == lines@.len() + (if done {
                    0int
                } else {
                    crlf_lines(self@).len() as int
                }),
                forall|i: int| 0 <= i < lines@.len() ==> lines@[i]@ == lossy_utf8_of(crlf_lines(s)[i]),
                !done ==> forall|i: int|
                    0 <= i < crlf_lines(self@).len() ==> crlf_lines(s)[lines@.len() + i]
                        == crlf_lines(self@)[i],
            decreases self@.len() + (if done {
                0int
            } else {
                1int
            }),
        {
            let ghost rem = self@;
            proof {
                lemma_scan_crlf_props(rem, 0);
            }
            let mut line: Vec<u8> = Vec::new();
            let num = self.read_to_crlf(&mut line);
            if num == 0 {
                done = true;
                proof {
                    if find_crlf(rem) is None {
                        assert(self@ =~= lines_rest(rem));
                    }
                }
            } else {
                proof {
                    assert(line@ =~= Seq::<u8>::empty() + line@);
                }
                let ghost oldlines = lines@;
                lines.push(utf8_lossy(line.as_slice()));
                proof {
                    let ls = crlf_lines(s);
                    let cr = crlf_lines(rem);
                    let rem2 = self@;
                    if find_crlf(rem) is None {
                        assert(cr == seq![rem]);
                        assert(rem2.len() == 0);
                        assert(lines_rest(rem2) =~= lines_rest(rem));
                    }
                    assert(cr[0] == line@);
                    assert(ls[oldlines.len() as int] == cr[0]);
                    assert forall|i: int| 0 <= i < lines@.len() implies lines@[i]@
                        == lossy_utf8_of(ls[i]) by {
                        if i == oldlines.len() {
                            assert(ls[i] == cr[0]);
                        }
                    }
                    assert forall|i: int| 0 <= i < crlf_lines(rem2).len() implies ls[lines@.len()
                        + i] == crlf_lines(rem2)[i] by {
                        assert(ls[oldlines.len() + (i + 1)] == cr[i + 1]);
                        assert(cr[i + 1] == crlf_lines(rem2)[i]);
                    }
                }
            }
        }
        lines
    }

    /// Streaming read of one line: extracts bytes up to the first CRLF
    /// pair as `read_to_crlf` does, decodes them lossily and appends the
    /// text to `buf`. Returns the count of content bytes read.
    pub fn read_to_string(&mut self, buf: &mut String) -> (r: usize)
        requires
            old(self).wf(),
        ensures
            final(self).wf(),
            match find_crlf(old(self)@) {
                Some(i) => r == i && final(buf)@ == old(buf)@ + lossy_utf8_of(
                    old(self)@.subrange(0, i),
                ) && final(self)@ == old(self)@.subrange(i + 2, old(self)@.len() as int),
                None => r == old(self)@.len() && final(buf)@ == old(buf)@ + lossy_utf8_of(
                    old(self)@,
                ) && final(self)@.len() == 0,
            },
    {
        let mut bytes: Vec<u8> = Vec::new();
        let size = self.read_to_crlf(&mut bytes);
        proof {
            assert(bytes@ =~= Seq::<u8>::empty() + bytes@);
        }
        let text = utf8_lossy(bytes.as_slice());
        buf.append(text.as_str());
        size
    }

    /// Streaming read-to-end: appends the whole remainder to `buf`.
    pub fn read_to_end(&mut self, buf: &mut Vec<u8>) -> (r: usize)
        requires
            old(self).wf(),
        ensures
            final(self).wf(),
            r == old(self)@.len(),
            final(buf)@ == old(buf)@ + old(self)@,
            final(self)@.len() == 0,
    {
        self.read_to_null(buf)
    }
}

} // verus!
