//! Incremental, binary-safe decoding of request frames.
//!
//! A request is either an array frame `*<N>\r\n` followed by exactly `N`
//! length-prefixed bulk strings `$<len>\r\n<len bytes>\r\n`, or an inline
//! simple-string frame `+<text>\r\n`. The decoder consumes nothing on an
//! incomplete frame and distinguishes "more bytes coming" (`NeedMore`)
//! from "bytes are wrong" (a protocol error).

use vstd::prelude::*;

use crate::value::{CR, LF};

verus! {

/// A malformed-frame kind; the connection cannot resynchronize after one.
#[derive(Clone, Copy, PartialEq, Eq, Structural, Debug)]
pub enum ProtoError {
    /// The first byte of a frame (or of an array element) selects no
    /// supported syntax.
    UnknownFrameType,
    /// A declared length has a non-digit, or a CRLF terminator is missing
    /// at the expected boundary.
    MalformedLength,
    /// A negative length, valid only as a null marker in replies, appeared
    /// in a request.
    InvalidNullInRequest,
    /// Completing the frame would need more buffered bytes than the
    /// configured maximum frame size.
    FrameTooLarge,
}

/// Outcome of parsing one non-negative decimal line `<digits>\r\n` at `i`.
#[verifier::ext_equal]
pub enum LineRes {
    NeedMore,
    Malformed,
    Neg,
    Num { val: int, next: int },
}

/// Outcome of decoding one bulk string at `i`.
#[verifier::ext_equal]
pub enum BulkRes {
    NeedMore,
    Fail(ProtoError),
    Done { data: Seq<u8>, next: int },
}

/// Outcome of decoding a run of bulk strings.
#[verifier::ext_equal]
pub enum ElemsRes {
    NeedMore,
    Fail(ProtoError),
    Done { args: Seq<Seq<u8>>, next: int },
}

/// Outcome of decoding one frame from the start of a buffer.
#[verifier::ext_equal]
pub enum FrameRes {
    NeedMore,
    Fail(ProtoError),
    Done { args: Seq<Seq<u8>>, used: int },
}

pub open spec fn is_digit(b: u8) -> bool {
    48 <= b && b <= 57
}

/// First index at or after `i` holding a non-digit, or the end of `s`.
pub open spec fn skip_digits(s: Seq<u8>, i: int) -> int
    decreases s.len() - i,
{
    if i < 0 || i >= s.len() {
        i
    } else if is_digit(s[i]) {
        skip_digits(s, i + 1)
    } else {
        i
    }
}

/// The value of the decimal digit run `s[i..j]`.
pub open spec fn dec_val(s: Seq<u8>, i: int, j: int) -> int
    decreases j - i,
{
    if j <= i {
        0
    } else {
        dec_val(s, i, j - 1) * 10 + (s[j - 1] - 48)
    }
}

/// Parse one line `<digits>\r\n` at `i`: the digits' value and the index
/// past the terminator; `Neg` on a leading minus sign; `Malformed` when a
/// non-digit interrupts or the terminator is broken; `NeedMore` when the
/// buffer ends before the verdict is known.
pub open spec fn parse_line(s: Seq<u8>, i: int) -> LineRes {
    if i >= s.len() {
        LineRes::NeedMore
    } else if s[i] == 45 {
        if i + 1 >= s.len() {
            LineRes::NeedMore
        } else if is_digit(s[i + 1]) {
            LineRes::Neg
        } else {
            LineRes::Malformed
        }
    } else {
        let j = skip_digits(s, i);
        if j == i {
            LineRes::Malformed
        } else if j >= s.len() {
            LineRes::NeedMore
        } else if s[j] != CR {
            LineRes::Malformed
        } else if j + 1 >= s.len() {
            LineRes::NeedMore
        } else if s[j + 1] != LF {
            LineRes::Malformed
        } else {
            LineRes::Num { val: dec_val(s, i, j), next: j + 2 }
        }
    }
}

/// Decode one bulk string `$<len>\r\n<len bytes>\r\n` at `i`. A frame whose
/// completion would need more than `max` buffered bytes is refused.
pub open spec fn spec_decode_bulk(s: Seq<u8>, i: int, max: int) -> BulkRes {
    if i >= s.len() {
        BulkRes::NeedMore
    } else if s[i] != 36 {
        BulkRes::Fail(ProtoError::UnknownFrameType)
    } else {
        match parse_line(s, i + 1) {
            LineRes::NeedMore => BulkRes::NeedMore,
            LineRes::Malformed => BulkRes::Fail(ProtoError::MalformedLength),
            LineRes::Neg => BulkRes::Fail(ProtoError::InvalidNullInRequest),
            LineRes::Num { val, next } => {
                if next + val + 2 > max {
                    BulkRes::Fail(ProtoError::FrameTooLarge)
                } else if next + val + 2 > s.len() {
                    BulkRes::NeedMore
                } else if s[next + val] != CR || s[next + val + 1] != LF {
                    BulkRes::Fail(ProtoError::MalformedLength)
                } else {
                    BulkRes::Done { data: s.subrange(next, next + val), next: next + val + 2 }
                }
            },
        }
    }
}

/// Decode exactly `n` bulk strings starting at `i`, in order.
pub open spec fn spec_decode_elems(s: Seq<u8>, i: int, n: int, max: int) -> ElemsRes
    decreases n,
{
    if n <= 0 {
        ElemsRes::Done { args: Seq::empty(), next: i }
    } else {
        match spec_decode_bulk(s, i, max) {
            BulkRes::NeedMore => ElemsRes::NeedMore,
            BulkRes::Fail(e) => ElemsRes::Fail(e),
            BulkRes::Done { data, next } => match spec_decode_elems(s, next, n - 1, max) {
                ElemsRes::NeedMore => ElemsRes::NeedMore,
                ElemsRes::Fail(e) => ElemsRes::Fail(e),
                ElemsRes::Done { args, next: fin } => ElemsRes::Done {
                    args: seq![data] + args,
                    next: fin,
                },
            },
        }
    }
}

/// First index at or after `i` holding CR or LF, or the end of `s`.
pub open spec fn scan_line_end(s: Seq<u8>, i: int) -> int
    decreases s.len() - i,
{
    if i < 0 || i >= s.len() {
        s.len() as int
    } else if s[i] == CR || s[i] == LF {
        i
    } else {
        scan_line_end(s, i + 1)
    }
}

/// Decode an inline frame `+<text>\r\n`: a one-argument frame holding the
/// text. A bare LF, or a CR not followed by LF, is malformed.
pub open spec fn spec_decode_inline(s: Seq<u8>, max: int) -> FrameRes {
    let j = scan_line_end(s, 1);
    if j < s.len() && s[j] == LF {
        FrameRes::Fail(ProtoError::MalformedLength)
    } else if j + 2 > max {
        FrameRes::Fail(ProtoError::FrameTooLarge)
    } else if j >= s.len() {
        FrameRes::NeedMore
    } else if j + 1 >= s.len() {
        FrameRes::NeedMore
    } else if s[j + 1] != LF {
        FrameRes::Fail(ProtoError::MalformedLength)
    } else {
        FrameRes::Done { args: seq![s.subrange(1, j)], used: j + 2 }
    }
}

/// Decode one frame at the start of `s`, before the size guard: `*` selects
/// the array form, `+` the inline form, anything else is refused. An array
/// of `n` elements needs more than `n` bytes, so a count above `max` already
/// breaks the size guard.
pub open spec fn spec_decode_frame_raw(s: Seq<u8>, max: int) -> FrameRes {
    if s.len() == 0 {
        FrameRes::NeedMore
    } else if s[0] == 42 {
        match parse_line(s, 1) {
            LineRes::NeedMore => FrameRes::NeedMore,
            LineRes::Malformed => FrameRes::Fail(ProtoError::MalformedLength),
            LineRes::Neg => FrameRes::Fail(ProtoError::InvalidNullInRequest),
            LineRes::Num { val: n, next } => {
                if n > max {
                    FrameRes::Fail(ProtoError::FrameTooLarge)
                } else {
                    match spec_decode_elems(s, next, n, max) {
                        ElemsRes::NeedMore => FrameRes::NeedMore,
                        ElemsRes::Fail(e) => FrameRes::Fail(e),
                        ElemsRes::Done { args, next: fin } => FrameRes::Done { args, used: fin },
                    }
                }
            },
        }
    } else if s[0] == 43 {
        spec_decode_inline(s, max)
    } else {
        FrameRes::Fail(ProtoError::UnknownFrameType)
    }
}

/// Decode one frame at the start of `s`. A buffer that already holds `max`
/// bytes or more of one still-incomplete frame breaks the size guard: the
/// bytes required to complete the frame would exceed `max`.
pub open spec fn spec_decode_frame(s: Seq<u8>, max: int) -> FrameRes {
    let r = spec_decode_frame_raw(s, max);
    if r is NeedMore && s.len() >= max {
        FrameRes::Fail(ProtoError::FrameTooLarge)
    } else {
        r
    }
}

/// Bounds of a digit run: it sits inside `s`, holds only digits, and is
/// maximal.
pub proof fn lemma_skip_digits(s: Seq<u8>, i: int)
    requires
        0 <= i <= s.len(),
    ensures
        i <= skip_digits(s, i) <= s.len(),
        forall|k: int| i <= k < skip_digits(s, i) ==> is_digit(s[k]),
        skip_digits(s, i) < s.len() ==> !is_digit(s[skip_digits(s, i)]),
    decreases s.len() - i,
{
    if i < s.len() && is_digit(s[i]) {
        lemma_skip_digits(s, i + 1);
    }
}

/// The value of a digit run is non-negative.
pub proof fn lemma_dec_val_nonneg(s: Seq<u8>, i: int, j: int)
    requires
        forall|k: int| i <= k < j ==> is_digit(s[k]),
    ensures
        dec_val(s, i, j) >= 0,
    decreases j - i,
{
    if j > i {
        lemma_dec_val_nonneg(s, i, j - 1);
    }
}

/// A parsed number line lies inside `s` and its value is non-negative.
pub proof fn lemma_parse_line_bounds(s: Seq<u8>, i: int)
    requires
        0 <= i,
    ensures
        parse_line(s, i) matches LineRes::Num { val, next } ==> i < next <= s.len() && val >= 0,
{
    if i < s.len() && s[i] != 45 {
        lemma_skip_digits(s, i);
        let j = skip_digits(s, i);
        lemma_dec_val_nonneg(s, i, j);
    }
}

/// A decoded bulk string ends inside `s`, after where it began.
pub proof fn lemma_decode_bulk_bounds(s: Seq<u8>, i: int, max: int)
    requires
        0 <= i,
    ensures
        spec_decode_bulk(s, i, max) matches BulkRes::Done { data, next } ==> i < next <= s.len(),
{
    lemma_parse_line_bounds(s, i + 1);
}

/// A decoded element run ends inside `s`, at or after where it began.
pub proof fn lemma_decode_elems_bounds(s: Seq<u8>, i: int, n: int, max: int)
    requires
        0 <= i <= s.len(),
    ensures
        spec_decode_elems(s, i, n, max) matches ElemsRes::Done { args, next } ==> i <= next <= s.len(),
    decreases n,
{
    if n > 0 {
        lemma_decode_bulk_bounds(s, i, max);
        match spec_decode_bulk(s, i, max) {
            BulkRes::Done { data, next } => {
                lemma_decode_elems_bounds(s, next, n - 1, max);
            },
            _ => {},
        }
    }
}

/// The scan for a line end stays inside `s` and skips no CR or LF.
pub proof fn lemma_scan_line_end(s: Seq<u8>, i: int)
    requires
        0 <= i <= s.len(),
    ensures
        i <= scan_line_end(s, i) <= s.len(),
        forall|k: int| i <= k < scan_line_end(s, i) ==> s[k] != CR && s[k] != LF,
        scan_line_end(s, i) < s.len() ==> (s[scan_line_end(s, i)] == CR || s[scan_line_end(s, i)] == LF),
    decreases s.len() - i,
{
    if i < s.len() && s[i] != CR && s[i] != LF {
        lemma_scan_line_end(s, i + 1);
    }
}

/// A decoded frame consumes at least one byte and at most the buffer.
pub proof fn lemma_decode_frame_bounds(s: Seq<u8>, max: int)
    ensures
        spec_decode_frame(s, max) matches FrameRes::Done { args, used } ==> 1 <= used <= s.len(),
{
    if s.len() > 0 && s[0] == 42 {
        lemma_parse_line_bounds(s, 1);
        match parse_line(s, 1) {
            LineRes::Num { val: n, next } => {
                lemma_decode_elems_bounds(s, next, n, max);
            },
            _ => {},
        }
    }
    if s.len() > 0 && s[0] == 43 {
        lemma_scan_line_end(s, 1);
    }
}

/// With a bulk string's declared length reaching beyond the buffered
/// bytes, the decoder asks for more input rather than failing — unless
/// completing the frame would need more than `max` bytes, in which case
/// the size guard refuses it. Once the buffer holds the whole bulk string
/// (body and terminator), the element is decoded.
pub proof fn lemma_bulk_needs_more(s: Seq<u8>, i: int, max: int, len: int, next: int)
    requires
        0 <= i < s.len(),
        s[i] == 36,
        parse_line(s, i + 1) == (LineRes::Num { val: len, next }),
    ensures
        next + len + 2 > max ==> spec_decode_bulk(s, i, max) == BulkRes::Fail(
            ProtoError::FrameTooLarge,
        ),
        next + len + 2 <= max && next + len + 2 > s.len() ==> spec_decode_bulk(s, i, max)
            is NeedMore,
        next + len + 2 <= max && next + len + 2 <= s.len() && s[next + len] == CR
            && s[next + len + 1] == LF ==> spec_decode_bulk(s, i, max) == (BulkRes::Done {
            data: s.subrange(next, next + len),
            next: next + len + 2,
        }),
{
}

/// Outcome of the executable line parser. `Big` stands for a well-formed
/// line whose value exceeds the given cap; the exact value is not computed,
/// which keeps the arithmetic inside machine bounds.
pub(crate) enum LineOut {
    NeedMore,
    Malformed,
    Neg,
    Num(usize, usize),
    Big,
}

pub(crate) fn parse_line_exec(buf: &[u8], i: usize, cap: usize) -> (r: LineOut)
    requires
        i <= buf@.len(),
    ensures
        ({
            let p = parse_line(buf@, i as int);
            match r {
                LineOut::NeedMore => p is NeedMore,
                LineOut::Malformed => p is Malformed,
                LineOut::Neg => p is Neg,
                LineOut::Num(v, nx) => p == (LineRes::Num { val: v as int, next: nx as int })
                    && v <= cap,
                LineOut::Big => p matches LineRes::Num { val, next } && val > cap,
            }
        }),
{
    if i >= buf.len() {
        return LineOut::NeedMore;
    }
    if buf[i] == 45 {
        if i + 1 >= buf.len() {
            return LineOut::NeedMore;
        }
        if 48 <= buf[i + 1] && buf[i + 1] <= 57 {
            return LineOut::Neg;
        } else {
            return LineOut::Malformed;
        }
    }
    let mut j = i;
    let mut acc: usize = 0;
    let mut big = false;
    while j < buf.len() && 48 <= buf[j] && buf[j] <= 57
        invariant
            i <= j <= buf@.len(),
            skip_digits(buf@, i as int) == skip_digits(buf@, j as int),
            forall|k: int| i <= k < j ==> is_digit(buf@[k]),
            !big ==> acc == dec_val(buf@, i as int, j as int) && acc <= cap,
            big ==> dec_val(buf@, i as int, j as int) > cap,
        decreases buf@.len() - j,
    {
        let d = (buf[j] - 48) as usize;
        proof {
            lemma_dec_val_nonneg(buf@, i as int, j as int);
            assert(dec_val(buf@, i as int, j as int + 1)
                == dec_val(buf@, i as int, j as int) * 10 + (buf@[j as int] - 48));
        }
        if !big {
            match acc.checked_mul(10) {
                Some(m) => match m.checked_add(d) {
                    Some(n) => {
                        if n > cap {
                            big = true;
                        } else {
                            acc = n;
                        }
                    },
                    None => {
                        big = true;
                    },
                },
                None => {
                    big = true;
                },
            }
        }
        j = j + 1;
    }
    if j == i {
        return LineOut::Malformed;
    }
    if j >= buf.len() {
        return LineOut::NeedMore;
    }
    if buf[j] != CR {
        return LineOut::Malformed;
    }
    if j + 1 >= buf.len() {
        return LineOut::NeedMore;
    }
    if buf[j + 1] != LF {
        return LineOut::Malformed;
    }
    if big {
        LineOut::Big
    } else {
        LineOut::Num(acc, j + 2)
    }
}

/// Copy `buf[a..b]` into a fresh vector.
pub(crate) fn copy_range(buf: &[u8], a: usize, b: usize) -> (r: Vec<u8>)
    requires
        a <= b <= buf@.len(),
    ensures
        r@ == buf@.subrange(a as int, b as int),
{
    let mut out: Vec<u8> = Vec::new();
    let mut k = a;
    while k < b
        invariant
            a <= k <= b <= buf@.len(),
            out@ == buf@.subrange(a as int, k as int),
        decreases b - k,
    {
        out.push(buf[k]);
        assert(buf@.subrange(a as int, k as int + 1)
            =~= buf@.subrange(a as int, k as int).push(buf@[k as int]));
        k = k + 1;
    }
    out
}

enum BulkOut {
    NeedMore,
    Fail(ProtoError),
    Done(Vec<u8>, usize),
}

fn decode_bulk_exec(buf: &[u8], i: usize, max: usize) -> (r: BulkOut)
    requires
        i <= buf@.len(),
    ensures
        ({
            let p = spec_decode_bulk(buf@, i as int, max as int);
            match r {
                BulkOut::NeedMore => p is NeedMore,
                BulkOut::Fail(e) => p == BulkRes::Fail(e),
                BulkOut::Done(data, next) => p == (BulkRes::Done { data: data@, next: next as int }),
            }
        }),
{
    if i >= buf.len() {
        return BulkOut::NeedMore;
    }
    if buf[i] != 36 {
        return BulkOut::Fail(ProtoError::UnknownFrameType);
    }
    let line = parse_line_exec(buf, i + 1, max);
    proof {
        lemma_parse_line_bounds(buf@, i as int + 1);
    }
    match line {
        LineOut::NeedMore => BulkOut::NeedMore,
        LineOut::Malformed => BulkOut::Fail(ProtoError::MalformedLength),
        LineOut::Neg => BulkOut::Fail(ProtoError::InvalidNullInRequest),
        LineOut::Big => BulkOut::Fail(ProtoError::FrameTooLarge),
        LineOut::Num(l, next) => {
            if max < 2 || next > max - 2 || l > max - 2 - next {
                BulkOut::Fail(ProtoError::FrameTooLarge)
            } else {
                let end = next + l + 2;
                if end > buf.len() {
                    BulkOut::NeedMore
                } else if buf[next + l] != CR || buf[next + l + 1] != LF {
                    BulkOut::Fail(ProtoError::MalformedLength)
                } else {
                    BulkOut::Done(copy_range(buf, next, next + l), end)
                }
            }
        },
    }
}

/// The element views of a list of byte vectors.
pub open spec fn seqs_of(vv: Seq<Vec<u8>>) -> Seq<Seq<u8>> {
    Seq::new(vv.len(), |k: int| vv[k]@)
}

/// Prefix the argument list of a `Done` outcome; other outcomes pass through.
pub open spec fn elems_prepend(prefix: Seq<Seq<u8>>, r: ElemsRes) -> ElemsRes {
    match r {
        ElemsRes::Done { args, next } => ElemsRes::Done { args: prefix + args, next },
        _ => r,
    }
}

enum ElemsOut {
    NeedMore,
    Fail(ProtoError),
    Done(Vec<Vec<u8>>, usize),
}

fn decode_elems_exec(buf: &[u8], i: usize, n: usize, max: usize) -> (r: ElemsOut)
    requires
        i <= buf@.len(),
    ensures
        ({
            let p = spec_decode_elems(buf@, i as int, n as int, max as int);
            match r {
                ElemsOut::NeedMore => p is NeedMore,
                ElemsOut::Fail(e) => p == ElemsRes::Fail(e),
                ElemsOut::Done(args, next) => p == (ElemsRes::Done {
                    args: seqs_of(args@),
                    next: next as int,
                }),
            }
        }),
{
    let mut args: Vec<Vec<u8>> = Vec::new();
    let mut pos = i;
    let mut k: usize = 0;
    proof {
        assert(seqs_of(args@) =~= Seq::<Seq<u8>>::empty());
    }
    while k < n
        invariant
            i <= buf@.len(),
            pos <= buf@.len(),
            k <= n,
            spec_decode_elems(buf@, i as int, n as int, max as int) == elems_prepend(
                seqs_of(args@),
                spec_decode_elems(buf@, pos as int, n as int - k as int, max as int),
            ),
        decreases n - k,
    {
        let b = decode_bulk_exec(buf, pos, max);
        proof {
            lemma_decode_bulk_bounds(buf@, pos as int, max as int);
        }
        match b {
            BulkOut::NeedMore => {
                return ElemsOut::NeedMore;
            },
            BulkOut::Fail(e) => {
                return ElemsOut::Fail(e);
            },
            BulkOut::Done(data, next) => {
                proof {
                    let s = buf@;
                    let m = n as int - k as int;
                    let rec = spec_decode_elems(s, next as int, m - 1, max as int);
                    assert(spec_decode_elems(s, pos as int, m, max as int)
                        == elems_prepend(seq![data@], rec));
                    assert(seqs_of(args@.push(data)) =~= seqs_of(args@) + seq![data@]);
                    match rec {
                        ElemsRes::Done { args: a2, next: f } => {
                            assert((seqs_of(args@) + (seq![data@] + a2))
                                =~= (seqs_of(args@) + seq![data@]) + a2);
                            assert(elems_prepend(seqs_of(args@), elems_prepend(seq![data@], rec))
                                =~= elems_prepend(seqs_of(args@) + seq![data@], rec));
                        },
                        _ => {},
                    }
                    assert(elems_prepend(seqs_of(args@), spec_decode_elems(s, pos as int, m, max as int))
                        =~= elems_prepend(seqs_of(args@.push(data)), rec));
                }
                args.push(data);
                pos = next;
                k = k + 1;
            },
        }
    }
    proof {
        assert(spec_decode_elems(buf@, pos as int, 0, max as int) == (ElemsRes::Done {
            args: Seq::<Seq<u8>>::empty(),
            next: pos as int,
        }));
        assert(seqs_of(args@) + Seq::<Seq<u8>>::empty() =~= seqs_of(args@));
    }
    ElemsOut::Done(args, pos)
}

/// Outcome of [`decode_frame`], the executable decoder.
#[derive(PartialEq, Eq, Debug)]
pub enum DecodeResult {
    /// The buffer holds an incomplete frame; read more bytes and retry.
    /// No bytes are consumed.
    NeedMore,
    /// The buffer prefix is malformed; the connection must be terminated.
    Fail(ProtoError),
    /// Exactly one complete frame: its arguments, and how many bytes of the
    /// buffer it occupied. Decoding may immediately be retried on the rest.
    Done(Vec<Vec<u8>>, usize),
}

fn decode_inline_exec(buf: &[u8], max: usize) -> (r: DecodeResult)
    requires
        buf@.len() >= 1,
    ensures
        ({
            let p = spec_decode_inline(buf@, max as int);
            match r {
                DecodeResult::NeedMore => p is NeedMore,
                DecodeResult::Fail(e) => p == FrameRes::Fail(e),
                DecodeResult::Done(args, used) => p == (FrameRes::Done {
                    args: seqs_of(args@),
                    used: used as int,
                }),
            }
        }),
{
    let mut j: usize = 1;
    while j < buf.len() && buf[j] != CR && buf[j] != LF
        invariant
            1 <= j <= buf@.len(),
            scan_line_end(buf@, 1) == scan_line_end(buf@, j as int),
        decreases buf@.len() - j,
    {
        j = j + 1;
    }
    if j < buf.len() && buf[j] == LF {
        return DecodeResult::Fail(ProtoError::MalformedLength);
    }
    if max < 2 || j > max - 2 {
        return DecodeResult::Fail(ProtoError::FrameTooLarge);
    }
    if j >= buf.len() {
        return DecodeResult::NeedMore;
    }
    if j + 1 >= buf.len() {
        return DecodeResult::NeedMore;
    }
    if buf[j + 1] != LF {
        return DecodeResult::Fail(ProtoError::MalformedLength);
    }
    let text = copy_range(buf, 1, j);
    let mut args: Vec<Vec<u8>> = Vec::new();
    args.push(text);
    proof {
        assert(seqs_of(args@) =~= seq![buf@.subrange(1, j as int)]);
    }
    DecodeResult::Done(args, j + 2)
}

fn decode_frame_raw(buf: &[u8], max: usize) -> (r: DecodeResult)
    ensures
        ({
            let p = spec_decode_frame_raw(buf@, max as int);
            match r {
                DecodeResult::NeedMore => p is NeedMore,
                DecodeResult::Fail(e) => p == FrameRes::Fail(e),
                DecodeResult::Done(args, used) => p == (FrameRes::Done {
                    args: seqs_of(args@),
                    used: used as int,
                }),
            }
        }),
{
    if buf.len() == 0 {
        return DecodeResult::NeedMore;
    }
    if buf[0] == 42 {
        let line = parse_line_exec(buf, 1, max);
        proof {
            lemma_parse_line_bounds(buf@, 1);
        }
        match line {
            LineOut::NeedMore => DecodeResult::NeedMore,
            LineOut::Malformed => DecodeResult::Fail(ProtoError::MalformedLength),
            LineOut::Neg => DecodeResult::Fail(ProtoError::InvalidNullInRequest),
            LineOut::Big => DecodeResult::Fail(ProtoError::FrameTooLarge),
            LineOut::Num(n, next) => {
                let e = decode_elems_exec(buf, next, n, max);
                match e {
                    ElemsOut::NeedMore => DecodeResult::NeedMore,
                    ElemsOut::Fail(err) => DecodeResult::Fail(err),
                    ElemsOut::Done(args, fin) => DecodeResult::Done(args, fin),
                }
            },
        }
    } else if buf[0] == 43 {
        decode_inline_exec(buf, max)
    } else {
        DecodeResult::Fail(ProtoError::UnknownFrameType)
    }
}

/// Attempt to decode exactly one frame from the start of `buf`, with `max`
/// the configured maximum frame size in bytes.
pub fn decode_frame(buf: &[u8], max: usize) -> (r: DecodeResult)
    ensures
        ({
            let p = spec_decode_frame(buf@, max as int);
            match r {
                DecodeResult::NeedMore => p is NeedMore,
                DecodeResult::Fail(e) => p == FrameRes::Fail(e),
                DecodeResult::Done(args, used) => p == (FrameRes::Done {
                    args: seqs_of(args@),
                    used: used as int,
                }),
            }
        }),
{
    let raw = decode_frame_raw(buf, max);
    match raw {
        DecodeResult::NeedMore => {
            if buf.len() >= max {
                DecodeResult::Fail(ProtoError::FrameTooLarge)
            } else {
                DecodeResult::NeedMore
            }
        },
        other => other,
    }
}

} // verus!
