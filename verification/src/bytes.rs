//! Pure transformations over byte sequences: hex classification, ASCII
//! case-folding, NUL stripping and trailing trimming, together with the
//! spec functions that give each its mathematical meaning.

use vstd::prelude::*;

use crate::decode::lossy_utf8_of;
use crate::decode::utf8_decode_of;
use crate::decode::utf8_lossy;
use crate::decode::utf8_strict;
use crate::decode::DecodeError;
use crate::parser::UTF8Parser;

verus! {

/// A byte is an ASCII hex digit: `0-9`, `A-F` or `a-f`.
pub open spec fn is_hex_digit_spec(b: u8) -> bool {
    (0x30 <= b && b <= 0x39) || (0x41 <= b && b <= 0x46) || (0x61 <= b && b <= 0x66)
}

/// Every byte of the sequence is an ASCII hex digit; vacuously true of
/// the empty sequence.
pub open spec fn is_hex_seq(s: Seq<u8>) -> bool {
    forall|i: int| 0 <= i < s.len() ==> is_hex_digit_spec(s[i])
}

/// ASCII case-fold of one byte: an uppercase letter `A-Z` moves down to
/// its lowercase form by adding 32; every other byte is unchanged.
pub open spec fn lower_byte(b: u8) -> u8 {
    if 0x41 <= b && b <= 0x5a {
        (b + 32) as u8
    } else {
        b
    }
}

/// Pointwise ASCII case-fold of a whole sequence.
pub open spec fn lower_seq(s: Seq<u8>) -> Seq<u8> {
    s.map_values(|b: u8| lower_byte(b))
}

/// The sequence with every NUL byte removed, the rest kept in order.
pub open spec fn strip_nul_seq(s: Seq<u8>) -> Seq<u8> {
    s.filter(|b: u8| b != 0x00)
}

/// The sequence ends with the two-byte CRLF pair.
pub open spec fn ends_with_crlf(s: Seq<u8>) -> bool {
    s.len() >= 2 && s[s.len() - 2] == 0x0d && s[s.len() - 1] == 0x0a
}

/// The sequence with every trailing CRLF pair removed, one pair at a
/// time, until it no longer ends with one.
pub open spec fn trim_crlf_seq(s: Seq<u8>) -> Seq<u8>
    decreases s.len(),
{
    if ends_with_crlf(s) {
        trim_crlf_seq(s.take(s.len() - 2))
    } else {
        s
    }
}

/// The sequence ends with the given pattern.
pub open spec fn ends_with_seq(s: Seq<u8>, pat: Seq<u8>) -> bool {
    s.len() >= pat.len() && s.subrange(s.len() - pat.len(), s.len() as int) == pat
}

/// The sequence with one trailing occurrence of the pattern removed, if
/// it ends with one; trimming happens at most once.
pub open spec fn trim_seq_once(s: Seq<u8>, pat: Seq<u8>) -> Seq<u8> {
    if ends_with_seq(s, pat) {
        s.take(s.len() - pat.len())
    } else {
        s
    }
}

/// Stripping NULs removes every NUL byte and keeps the remaining bytes
/// in their original relative order: no NUL survives, the operation
/// distributes over concatenation, and on a single byte it keeps or
/// drops that byte alone.
pub proof fn lemma_strip_nul(s: Seq<u8>, t: Seq<u8>)
    ensures
        forall|i: int| 0 <= i < strip_nul_seq(s).len() ==> strip_nul_seq(s)[i] != 0x00,
        strip_nul_seq(s + t) == strip_nul_seq(s) + strip_nul_seq(t),
        s.len() == 1 ==> strip_nul_seq(s) == (if s[0] == 0x00 {
            Seq::<u8>::empty()
        } else {
            s
        }),
{
    let pred = |b: u8| b != 0x00;
    assert forall|i: int| 0 <= i < strip_nul_seq(s).len() implies strip_nul_seq(s)[i] != 0x00 by {
        s.lemma_filter_pred(pred, i);
    }
    Seq::filter_distributes_over_add(s, t, pred);
    if s.len() == 1 {
        reveal(Seq::filter);
        assert(Seq::<u8>::empty().filter(pred) =~= Seq::<u8>::empty());
        assert(s.drop_last() =~= Seq::<u8>::empty());
        assert(s.last() == s[0]);
        assert(s.filter(pred) == if pred(s[0]) {
            s.drop_last().filter(pred).push(s[0])
        } else {
            s.drop_last().filter(pred)
        });
        if s[0] != 0x00 {
            assert(strip_nul_seq(s) =~= s);
        }
    }
}

/// Case-folding keeps the length, maps every uppercase ASCII letter to
/// the byte 32 above it, and leaves every other byte unchanged.
pub proof fn lemma_lower_seq(s: Seq<u8>)
    ensures
        lower_seq(s).len() == s.len(),
        forall|i: int|
            0 <= i < s.len() && 0x41 <= s[i] <= 0x5a ==> #[trigger] lower_seq(s)[i] == s[i] + 32,
        forall|i: int|
            0 <= i < s.len() && !(0x41 <= s[i] <= 0x5a) ==> #[trigger] lower_seq(s)[i] == s[i],
{
}

/// A sequence is all hex digits exactly when each of its bytes is one,
/// so the empty sequence is vacuously hex.
pub proof fn lemma_is_hex_empty()
    ensures
        is_hex_seq(Seq::<u8>::empty()),
{
}

/// Trimming trailing CRLF pairs is idempotent: the result never ends
/// with a CRLF pair, so trimming twice is the same as trimming once.
pub proof fn lemma_trim_crlf_idempotent(s: Seq<u8>)
    ensures
        !ends_with_crlf(trim_crlf_seq(s)),
        trim_crlf_seq(trim_crlf_seq(s)) == trim_crlf_seq(s),
    decreases s.len(),
{
    if ends_with_crlf(s) {
        lemma_trim_crlf_idempotent(s.take(s.len() - 2));
    }
}

/// Whether a byte is an ASCII hex digit.
pub fn is_hex_digit(b: u8) -> (r: bool)
    ensures
        r == is_hex_digit_spec(b),
{
    (0x30 <= b && b <= 0x39) || (0x41 <= b && b <= 0x46) || (0x61 <= b && b <= 0x66)
}

/// Whether the slice holds the byte `b` anywhere.
pub fn contains_byte(chars: &[u8], b: u8) -> (r: bool)
    ensures
        r == chars@.contains(b),
{
    let mut i: usize = 0;
    while i < chars.len()
        invariant
            0 <= i <= chars@.len(),
            forall|j: int| 0 <= j < i ==> chars@[j] != b,
        decreases chars@.len() - i,
    {
        if chars[i] == b {
            proof {
                assert(chars@[i as int] == b);
            }
            return true;
        }
        i = i + 1;
    }
    false
}

/// Whether every byte of the slice is an ASCII hex digit.
pub fn is_hex_bytes(s: &[u8]) -> (r: bool)
    ensures
        r == is_hex_seq(s@),
{
    let mut i: usize = 0;
    while i < s.len()
        invariant
            0 <= i <= s@.len(),
            forall|j: int| 0 <= j < i ==> is_hex_digit_spec(s@[j]),
        decreases s@.len() - i,
    {
        if !is_hex_digit(s[i]) {
            return false;
        }
        i = i + 1;
    }
    true
}

/// A new vector holding the ASCII case-fold of the slice.
pub fn lower_bytes(s: &[u8]) -> (r: Vec<u8>)
    ensures
        r@ == lower_seq(s@),
{
    let mut out: Vec<u8> = Vec::new();
    let mut i: usize = 0;
    while i < s.len()
        invariant
            0 <= i <= s@.len(),
            out@ == lower_seq(s@.take(i as int)),
        decreases s@.len() - i,
    {
        let b = s[i];
        if 0x41 <= b && b <= 0x5a {
            out.push(b + 32);
        } else {
            out.push(b);
        }
        i = i + 1;
        proof {
            assert(out@ =~= lower_seq(s@.take(i as int)));
        }
    }
    proof {
        assert(s@.take(s@.len() as int) =~= s@);
    }
    out
}

/// A new vector holding the slice's bytes with every NUL removed.
pub fn strip_nul_bytes(s: &[u8]) -> (r: Vec<u8>)
    ensures
        r@ == strip_nul_seq(s@),
{
    let mut out: Vec<u8> = Vec::new();
    let mut i: usize = 0;
    while i < s.len()
        invariant
            0 <= i <= s@.len(),
            out@ == strip_nul_seq(s@.take(i as int)),
        decreases s@.len() - i,
    {
        let b = s[i];
        if b != 0x00 {
            out.push(b);
        }
        i = i + 1;
        proof {
            reveal(Seq::filter);
            let pre = s@.take(i - 1);
            let post = s@.take(i as int);
            assert(post.drop_last() =~= pre);
            assert(strip_nul_seq(post) == out@);
        }
    }
    proof {
        assert(s@.take(s@.len() as int) =~= s@);
    }
    out
}

/// Whether the slice ends with the given pattern.
pub fn ends_with(s: &[u8], pat: &[u8]) -> (r: bool)
    ensures
        r == ends_with_seq(s@, pat@),
{
    if pat.len() > s.len() {
        return false;
    }
    let off = s.len() - pat.len();
    let mut j: usize = 0;
    while j < pat.len()
        invariant
            0 <= j <= pat@.len(),
            forall|k: int| 0 <= k < j ==> s@[off + k] == pat@[k],
        decreases pat@.len() - j,
    {
        if s[off + j] != pat[j] {
            proof {
                assert(s@.subrange(off as int, s@.len() as int)[j as int] != pat@[j as int]);
            }
            return false;
        }
        j = j + 1;
    }
    proof {
        assert(s@.subrange(off as int, s@.len() as int) =~= pat@);
    }
    true
}

/// The vector with every trailing CRLF pair removed.
pub fn trim_crlf_bytes(v: Vec<u8>) -> (r: Vec<u8>)
    ensures
        r@ == trim_crlf_seq(v@),
{
    let mut vec = v;
    while vec.len() >= 2 && vec[vec.len() - 2] == 0x0d && vec[vec.len() - 1] == 0x0a
        invariant
            trim_crlf_seq(vec@) == trim_crlf_seq(v@),
        decreases vec@.len(),
    {
        let ghost before = vec@;
        vec.pop();
        vec.pop();
        proof {
            assert(vec@ =~= before.take(before.len() - 2));
        }
    }
    vec
}

/// The vector with one trailing occurrence of `pat` removed, if it ends
/// with one.
pub fn trim_chars_bytes(v: Vec<u8>, pat: &[u8]) -> (r: Vec<u8>)
    ensures
        r@ == trim_seq_once(v@, pat@),
{
    let mut vec = v;
    if ends_with(vec.as_slice(), pat) {
        let n = vec.len() - pat.len();
        vec.truncate(n);
        proof {
            assert(vec@ =~= v@.take(v@.len() - pat@.len()));
        }
    }
    vec
}

/// Convenient handling of UTF-8 encoded bytes: decoding, hex
/// classification, ASCII case-folding, NUL stripping, trailing trimming,
/// and conversion into a tokenizing parser. Implemented for owned and
/// borrowed byte sequences.
pub trait UTF8Utils: Sized {
    /// The byte sequence the value stands for.
    spec fn bytes(&self) -> Seq<u8>;

    /// Strict UTF-8 decode: the decoded text exactly when the bytes are
    /// valid UTF-8, `InvalidEncoding` otherwise.
    fn as_utf8(&self) -> (r: Result<String, DecodeError>)
        ensures
            (r is Ok) == (utf8_decode_of(self.bytes()) is Some),
            r is Ok ==> r->Ok_0@ == utf8_decode_of(self.bytes())->Some_0,
            r is Err ==> r->Err_0 == DecodeError::InvalidEncoding,
    ;

    /// Lossy UTF-8 decode: never fails, invalid sequences come out as
    /// U+FFFD.
    fn as_utf8_lossy(&self) -> (r: String)
        ensures
            r@ == lossy_utf8_of(self.bytes()),
    ;

    /// Whether every byte is an ASCII hex digit; true of the empty
    /// sequence.
    fn is_hex(&self) -> (r: bool)
        ensures
            r == is_hex_seq(self.bytes()),
    ;

    /// A new byte sequence with every ASCII uppercase letter folded to
    /// lowercase; all other bytes pass through unchanged.
    fn as_lower(&self) -> (r: Vec<u8>)
        ensures
            r@ == lower_seq(self.bytes()),
    ;

    /// The consuming form of `as_lower`.
    fn to_lower(self) -> (r: Vec<u8>)
        ensures
            r@ == lower_seq(self.bytes()),
    ;

    /// The bytes with every NUL removed, anywhere in the sequence, the
    /// rest kept in order.
    fn strip_null(self) -> (r: Vec<u8>)
        ensures
            r@ == strip_nul_seq(self.bytes()),
    ;

    /// The bytes with every trailing CRLF pair removed.
    fn trim_crlf(self) -> (r: Vec<u8>)
        ensures
            r@ == trim_crlf_seq(self.bytes()),
    ;

    /// The bytes with one trailing occurrence of `chars` removed, at most
    /// once.
    fn trim_chars(self, chars: &[u8]) -> (r: Vec<u8>)
        ensures
            r@ == trim_seq_once(self.bytes(), chars@),
    ;

    /// A tokenizing parser over these bytes, NUL-stripped at this
    /// boundary.
    fn into_utf8_parser(self) -> (r: UTF8Parser)
        ensures
            r.wf(),
            r@ == strip_nul_seq(self.bytes()),
    ;
}

impl UTF8Utils for Vec<u8> {
    open spec fn bytes(&self) -> Seq<u8> {
        self@
    }

    fn as_utf8(&self) -> (r: Result<String, DecodeError>) {
        match utf8_strict(self.as_slice()) {
            Ok(text) => Ok(text),
            Err(_) => Err(DecodeError::InvalidEncoding),
        }
    }

    fn as_utf8_lossy(&self) -> (r: String) {
        utf8_lossy(self.as_slice())
    }

    fn is_hex(&self) -> (r: bool) {
        is_hex_bytes(self.as_slice())
    }

    fn as_lower(&self) -> (r: Vec<u8>) {
        lower_bytes(self.as_slice())
    }

    fn to_lower(self) -> (r: Vec<u8>) {
        lower_bytes(self.as_slice())
    }

    fn strip_null(self) -> (r: Vec<u8>) {
        strip_nul_bytes(self.as_slice())
    }

    fn trim_crlf(self) -> (r: Vec<u8>) {
        trim_crlf_bytes(self)
    }

    fn trim_chars(self, chars: &[u8]) -> (r: Vec<u8>) {
        trim_chars_bytes(self, chars)
    }

    fn into_utf8_parser(self) -> (r: UTF8Parser) {
        UTF8Parser::new(self.as_slice())
    }
}

impl<'a> UTF8Utils for &'a [u8] {
    open spec fn bytes(&self) -> Seq<u8> {
        (*self)@
    }

    fn as_utf8(&self) -> (r: Result<String, DecodeError>) {
        match utf8_strict(self) {
            Ok(text) => Ok(text),
            Err(_) => Err(DecodeError::InvalidEncoding),
        }
    }

    fn as_utf8_lossy(&self) -> (r: String) {
        utf8_lossy(self)
    }

    fn is_hex(&self) -> (r: bool) {
        is_hex_bytes(self)
    }

    fn as_lower(&self) -> (r: Vec<u8>) {
        lower_bytes(self)
    }

    fn to_lower(self) -> (r: Vec<u8>) {
        lower_bytes(self)
    }

    fn strip_null(self) -> (r: Vec<u8>) {
        strip_nul_bytes(self)
    }

    fn trim_crlf(self) -> (r: Vec<u8>) {
        let copied = copy_bytes(self);
        trim_crlf_bytes(copied)
    }

    fn trim_chars(self, chars: &[u8]) -> (r: Vec<u8>) {
        let copied = copy_bytes(self);
        trim_chars_bytes(copied, chars)
    }

    fn into_utf8_parser(self) -> (r: UTF8Parser) {
        UTF8Parser::new(self)
    }
}

/// A new vector holding the slice's bytes, unchanged.
fn copy_bytes(s: &[u8]) -> (r: Vec<u8>)
    ensures
        r@ == s@,
{
    let mut out: Vec<u8> = Vec::new();
    let mut i: usize = 0;
    while i < s.len()
        invariant
            0 <= i <= s@.len(),
            out@ == s@.subrange(0, i as int),
        decreases s@.len() - i,
    {
        out.push(s[i]);
        i = i + 1;
        proof {
            assert(out@ =~= s@.subrange(0, i as int));
        }
    }
    proof {
        assert(s@.subrange(0, s@.len() as int) =~= s@);
    }
    out
}

} // verus!
