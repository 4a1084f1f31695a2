//! Decoding of encoded values: the inverse of serialization.
//!
//! Replies travel as `+text\r\n`, `${len}\r\n{bytes}\r\n`, `$-1\r\n`,
//! `-{kind} {msg}\r\n` and `*{len}\r\n{elements}`. The decoder here reads
//! one such value back, and the round-trip law says that decoding an
//! encoded well-formed value yields exactly that value.

use vstd::prelude::*;

use crate::decode::{copy_range, dec_val, is_digit, lemma_parse_line_bounds, lemma_skip_digits,
    parse_line, parse_line_exec, scan_line_end, lemma_scan_line_end, skip_digits, spec_decode_bulk,
    spec_decode_elems, spec_decode_frame, BulkRes, ElemsRes, FrameRes, LineOut, LineRes};
use crate::value::{crlf, dec_rep, lemma_models_of, models_of, spec_encode, spec_encode_list,
    wf_model, Value, ValueModel, CR, LF};

verus! {

/// First index at or after `i` holding a space, or the end of `s`.
pub open spec fn scan_space(s: Seq<u8>, i: int) -> int
    decreases s.len() - i,
{
    if i < 0 || i >= s.len() {
        s.len() as int
    } else if s[i] == 32 {
        i
    } else {
        scan_space(s, i + 1)
    }
}

/// The space scan stays inside `s` and skips no space.
pub proof fn lemma_scan_space(s: Seq<u8>, i: int)
    requires
        0 <= i <= s.len(),
    ensures
        i <= scan_space(s, i) <= s.len(),
        forall|k: int| i <= k < scan_space(s, i) ==> s[k] != 32,
        scan_space(s, i) < s.len() ==> s[scan_space(s, i)] == 32,
    decreases s.len() - i,
{
    if i < s.len() && s[i] != 32 {
        lemma_scan_space(s, i + 1);
    }
}

/// Decode one encoded value at `i`: the value and the index just past it.
pub open spec fn spec_decode_value(s: Seq<u8>, i: int) -> Option<(ValueModel, int)>
    decreases s.len() - i, 0int,
{
    if i < 0 || i >= s.len() {
        None
    } else if s[i] == 43 {
        // simple string
        let j = scan_line_end(s, i + 1);
        if j >= s.len() || s[j] != CR || j + 1 >= s.len() || s[j + 1] != LF {
            None
        } else {
            Some((ValueModel::Simple(s.subrange(i + 1, j)), j + 2))
        }
    } else if s[i] == 45 {
        // error: kind, space, message
        let j = scan_line_end(s, i + 1);
        if j >= s.len() || s[j] != CR || j + 1 >= s.len() || s[j + 1] != LF {
            None
        } else {
            let p = scan_space(s, i + 1);
            if p >= j {
                None
            } else {
                Some((ValueModel::Error(s.subrange(i + 1, p), s.subrange(p + 1, j)), j + 2))
            }
        }
    } else if s[i] == 36 {
        // bulk string, or the null marker `$-1`
        if i + 1 < s.len() && s[i + 1] == 45 {
            if i + 4 < s.len() && s[i + 2] == 49 && s[i + 3] == CR && s[i + 4] == LF {
                Some((ValueModel::Null, i + 5))
            } else {
                None
            }
        } else {
            match parse_line(s, i + 1) {
                LineRes::Num { val, next } => {
                    if next + val + 2 <= s.len() && s[next + val] == CR && s[next + val + 1] == LF {
                        Some((ValueModel::Bulk(s.subrange(next, next + val)), next + val + 2))
                    } else {
                        None
                    }
                },
                _ => None,
            }
        }
    } else if s[i] == 42 {
        // array
        match parse_line(s, i + 1) {
            LineRes::Num { val: n, next } => {
                if next <= i || next > s.len() {
                    None
                } else {
                    match spec_decode_list(s, next, n) {
                        Some((items, fin)) => Some((ValueModel::Array(items), fin)),
                        None => None,
                    }
                }
            },
            _ => None,
        }
    } else {
        None
    }
}

/// Decode exactly `n` encoded values starting at `i`, in order.
pub open spec fn spec_decode_list(s: Seq<u8>, i: int, n: int) -> Option<(Seq<ValueModel>, int)>
    decreases s.len() - i, n + 1,
{
    if n <= 0 {
        Some((Seq::empty(), i))
    } else {
        match spec_decode_value(s, i) {
            None => None,
            Some((v, j)) => {
                if j <= i || j > s.len() {
                    None
                } else {
                    match spec_decode_list(s, j, n - 1) {
                        None => None,
                        Some((rest, fin)) => Some((seq![v] + rest, fin)),
                    }
                }
            },
        }
    }
}

/// Every byte of a decimal representation is a digit.
pub proof fn lemma_dec_rep_digits(n: nat)
    ensures
        forall|k: int| 0 <= k < dec_rep(n).len() ==> is_digit(#[trigger] dec_rep(n)[k]),
        dec_rep(n).len() >= 1,
    decreases n,
{
    if n >= 10 {
        lemma_dec_rep_digits(n / 10);
    }
}

/// A maximal digit run is found exactly: digits up to `j`, a non-digit at
/// `j`, so the scan stops at `j`.
pub proof fn lemma_skip_digits_exact(s: Seq<u8>, i: int, j: int)
    requires
        0 <= i <= j <= s.len(),
        forall|k: int| i <= k < j ==> is_digit(s[k]),
        j == s.len() || !is_digit(s[j]),
    ensures
        skip_digits(s, i) == j,
{
    lemma_skip_digits(s, i);
    let sk = skip_digits(s, i);
    if sk < j {
        assert(is_digit(s[sk]));
    }
    if sk > j {
        assert(is_digit(s[j]));
    }
}

/// A line-end scan is found exactly: no CR or LF before `j`, CR or LF at
/// `j`, so the scan stops at `j`.
pub proof fn lemma_scan_line_end_exact(s: Seq<u8>, i: int, j: int)
    requires
        0 <= i <= j < s.len(),
        forall|k: int| i <= k < j ==> s[k] != CR && s[k] != LF,
        s[j] == CR || s[j] == LF,
    ensures
        scan_line_end(s, i) == j,
{
    lemma_scan_line_end(s, i);
    let sc = scan_line_end(s, i);
    if sc < j {
        assert(s[sc] == CR || s[sc] == LF);
    }
    if sc > j {
        assert(s[j] != CR && s[j] != LF);
    }
}

/// A space scan is found exactly.
pub proof fn lemma_scan_space_exact(s: Seq<u8>, i: int, j: int)
    requires
        0 <= i <= j < s.len(),
        forall|k: int| i <= k < j ==> s[k] != 32,
        s[j] == 32,
    ensures
        scan_space(s, i) == j,
{
    lemma_scan_space(s, i);
    let sc = scan_space(s, i);
    if sc < j {
        assert(s[sc] == 32);
    }
    if sc > j {
        assert(s[j] != 32);
    }
}

/// The value of a digit run equal to `dec_rep(n)` is `n`.
pub proof fn lemma_dec_val_of_dec_rep(s: Seq<u8>, i: int, n: nat)
    requires
        0 <= i,
        i + dec_rep(n).len() <= s.len(),
        s.subrange(i, i + dec_rep(n).len()) == dec_rep(n),
    ensures
        dec_val(s, i, i + dec_rep(n).len()) == n,
    decreases n,
{
    let rep = dec_rep(n);
    let j = i + rep.len();
    assert(s[j - 1] == rep[rep.len() - 1]);
    if n < 10 {
        assert(rep =~= seq![(48 + n) as u8]);
        assert(dec_val(s, i, j) == dec_val(s, i, j - 1) * 10 + (s[j - 1] - 48));
        assert(dec_val(s, i, i) == 0);
    } else {
        let rep10 = dec_rep(n / 10);
        assert(rep == rep10.push((48 + n % 10) as u8));
        assert(s.subrange(i, i + rep10.len() as int) =~= rep10) by {
            assert(forall|k: int| 0 <= k < rep10.len() ==> s[i + k] == rep[k] && rep[k] == rep10[k]);
        }
        lemma_dec_val_of_dec_rep(s, i, n / 10);
        assert(s[j - 1] == 48 + n % 10);
        assert(dec_val(s, i, j) == dec_val(s, i, j - 1) * 10 + (s[j - 1] - 48));
    }
}

/// A number line laid down as `dec_rep(n)` + CRLF parses back to `n`.
pub proof fn lemma_parse_line_of_dec_rep(s: Seq<u8>, i: int, n: nat)
    requires
        0 <= i,
        i + dec_rep(n).len() + 2 <= s.len(),
        s.subrange(i, i + dec_rep(n).len()) == dec_rep(n),
        s[i + dec_rep(n).len()] == CR,
        s[i + dec_rep(n).len() + 1] == LF,
    ensures
        parse_line(s, i) == (LineRes::Num { val: n as int, next: i + dec_rep(n).len() + 2 }),
{
    let rep = dec_rep(n);
    let j = i + rep.len();
    lemma_dec_rep_digits(n);
    assert(forall|k: int| i <= k < j ==> is_digit(s[k])) by {
        assert(forall|k: int| i <= k < j ==> s[k] == rep[k - i]);
    }
    assert(!is_digit(s[j]));
    lemma_skip_digits_exact(s, i, j);
    assert(s[i] != 45) by {
        assert(s[i] == rep[0]);
        assert(is_digit(rep[0]));
    }
    assert(j != i);
    lemma_dec_val_of_dec_rep(s, i, n);
}

/// One byte of a spelled-out subrange: where `s` holds `enc` at `i`, the
/// byte at `i + k` is `enc[k]`.
pub proof fn lemma_spell(s: Seq<u8>, i: int, enc: Seq<u8>, k: int)
    requires
        0 <= i,
        i + enc.len() <= s.len(),
        s.subrange(i, i + enc.len()) == enc,
        0 <= k < enc.len(),
    ensures
        s[i + k] == enc[k],
{
    assert(s.subrange(i, i + enc.len())[k] == s[i + k]);
}

/// Decoding at `i` of a buffer that spells the encoding of a well-formed
/// value at `i` yields exactly that value, whatever bytes follow.
#[verifier::rlimit(100)]
pub proof fn lemma_decode_encode_at(s: Seq<u8>, i: int, m: ValueModel)
    requires
        wf_model(m),
        0 <= i,
        i + spec_encode(m).len() <= s.len(),
        s.subrange(i, i + spec_encode(m).len()) == spec_encode(m),
    ensures
        spec_decode_value(s, i) == Some((m, i + spec_encode(m).len())),
    decreases m,
{
    let enc = spec_encode(m);
    let e = i + enc.len();
    assert forall|x: int| i <= x < e implies #[trigger] s[x] == enc[x - i] by {
        lemma_spell(s, i, enc, x - i);
    }
    match m {
        ValueModel::Simple(t) => {
            assert(s[i] == 43);
            assert forall|x: int| i + 1 <= x < i + 1 + t.len() implies #[trigger] s[x] != CR
                && s[x] != LF by {
                assert(enc[x - i] == t[x - i - 1]);
            }
            assert(s[i + 1 + t.len()] == CR);
            assert(s[i + 1 + t.len() + 1] == LF);
            lemma_scan_line_end_exact(s, i + 1, i + 1 + t.len());
            assert(s.subrange(i + 1, i + 1 + t.len()) =~= t) by {
                assert(forall|y: int| 0 <= y < t.len() ==> #[trigger] s.subrange(i + 1, i + 1
                    + t.len() as int)[y] == s[i + 1 + y] && enc[i + 1 + y - i] == t[y]);
            }
        },
        ValueModel::Bulk(b) => {
            let rep = dec_rep(b.len());
            let next = i + 1 + rep.len() + 2;
            assert(s[i] == 36);
            assert(s.subrange(i + 1, i + 1 + rep.len()) =~= rep) by {
                assert(forall|y: int| 0 <= y < rep.len() ==> #[trigger] s.subrange(i + 1, i + 1
                    + rep.len() as int)[y] == s[i + 1 + y] && enc[i + 1 + y - i] == rep[y]);
            }
            assert(s[i + 1 + rep.len()] == CR);
            assert(s[i + 1 + rep.len() + 1] == LF);
            lemma_parse_line_of_dec_rep(s, i + 1, b.len());
            lemma_dec_rep_digits(b.len());
            assert(s[i + 1] == rep[0]);
            assert(s[i + 1] != 45);
            assert(s.subrange(next, next + b.len()) =~= b) by {
                assert(forall|y: int| 0 <= y < b.len() ==> #[trigger] s.subrange(next, next
                    + b.len() as int)[y] == s[next + y] && enc[next + y - i] == b[y]);
            }
            assert(s[next + b.len()] == CR);
            assert(s[next + b.len() + 1] == LF);
        },
        ValueModel::Null => {
            assert(s[i] == 36 && s[i + 1] == 45 && s[i + 2] == 49 && s[i + 3] == CR && s[i + 4]
                == LF);
        },
        ValueModel::Error(k, msg) => {
            let sp = i + 1 + k.len();
            let j = sp + 1 + msg.len();
            assert(s[i] == 45);
            assert forall|x: int| i + 1 <= x < j implies #[trigger] s[x] != CR && s[x] != LF by {
                if x < sp {
                    assert(enc[x - i] == k[x - i - 1]);
                } else if x == sp {
                    assert(enc[x - i] == 32);
                } else {
                    assert(enc[x - i] == msg[x - sp - 1]);
                }
            }
            assert forall|x: int| i + 1 <= x < sp implies #[trigger] s[x] != 32 by {
                assert(enc[x - i] == k[x - i - 1]);
            }
            assert(s[sp] == 32);
            assert(s[j] == CR);
            assert(s[j + 1] == LF);
            lemma_scan_line_end_exact(s, i + 1, j);
            lemma_scan_space_exact(s, i + 1, sp);
            assert(s.subrange(i + 1, sp) =~= k) by {
                assert(forall|y: int| 0 <= y < k.len() ==> #[trigger] s.subrange(i + 1, sp)[y]
                    == s[i + 1 + y] && enc[i + 1 + y - i] == k[y]);
            }
            assert(s.subrange(sp + 1, j) =~= msg) by {
                assert(forall|y: int| 0 <= y < msg.len() ==> #[trigger] s.subrange(sp + 1, j)[y]
                    == s[sp + 1 + y] && enc[sp + 1 + y - i] == msg[y]);
            }
        },
        ValueModel::Array(items) => {
            let rep = dec_rep(items.len());
            let next = i + 1 + rep.len() + 2;
            let el = spec_encode_list(items);
            assert(s[i] == 42);
            assert(s.subrange(i + 1, i + 1 + rep.len()) =~= rep) by {
                assert(forall|y: int| 0 <= y < rep.len() ==> #[trigger] s.subrange(i + 1, i + 1
                    + rep.len() as int)[y] == s[i + 1 + y] && enc[i + 1 + y - i] == rep[y]);
            }
            assert(s[i + 1 + rep.len()] == CR);
            assert(s[i + 1 + rep.len() + 1] == LF);
            lemma_parse_line_of_dec_rep(s, i + 1, items.len());
            assert(s.subrange(next, next + el.len()) =~= el) by {
                assert(forall|y: int| 0 <= y < el.len() ==> #[trigger] s.subrange(next, next
                    + el.len() as int)[y] == s[next + y] && enc[next + y - i] == el[y]);
            }
            assert(forall|x: int| 0 <= x < items.len() ==> wf_model(#[trigger] items[x]));
            lemma_decode_encode_list(s, next, items);
        },
    }
}

/// Decoding at `i` of a buffer that spells the concatenated encodings of
/// well-formed values at `i` yields exactly those values, in order.
pub proof fn lemma_decode_encode_list(s: Seq<u8>, i: int, items: Seq<ValueModel>)
    requires
        forall|x: int| 0 <= x < items.len() ==> wf_model(#[trigger] items[x]),
        0 <= i,
        i + spec_encode_list(items).len() <= s.len(),
        s.subrange(i, i + spec_encode_list(items).len()) == spec_encode_list(items),
    ensures
        spec_decode_list(s, i, items.len() as int) == Some(
            (items, i + spec_encode_list(items).len()),
        ),
    decreases items,
{
    if items.len() == 0 {
        assert(items =~= Seq::<ValueModel>::empty());
    } else {
        let el = spec_encode_list(items);
        let first = items.first();
        let rest = items.drop_first();
        let e0 = spec_encode(first);
        let er = spec_encode_list(rest);
        assert(el == e0 + er);
        assert forall|x: int| i <= x < i + el.len() implies #[trigger] s[x] == el[x - i] by {
            lemma_spell(s, i, el, x - i);
        }
        assert(s.subrange(i, i + e0.len()) =~= e0) by {
            assert(forall|y: int| 0 <= y < e0.len() ==> #[trigger] s.subrange(i, i
                + e0.len() as int)[y] == s[i + y] && el[i + y - i] == e0[y]);
        }
        assert(s.subrange(i + e0.len(), i + e0.len() + er.len()) =~= er) by {
            assert(forall|y: int| 0 <= y < er.len() ==> #[trigger] s.subrange(i + e0.len() as int,
                i + e0.len() + er.len() as int)[y] == s[i + e0.len() + y] && el[i + e0.len() + y
                - i] == er[y]);
        }
        assert(wf_model(first));
        lemma_decode_encode_at(s, i, first);
        assert(e0.len() >= 1);
        assert(forall|x: int| 0 <= x < rest.len() ==> wf_model(#[trigger] rest[x])) by {
            assert(forall|x: int| 0 <= x < rest.len() ==> rest[x] == items[x + 1]);
        }
        lemma_decode_encode_list(s, i + e0.len(), rest);
        assert(seq![first] + rest =~= items);
    }
}

/// A decoded value ends inside `s`, after where it began.
pub proof fn lemma_decode_value_bounds(s: Seq<u8>, i: int)
    ensures
        spec_decode_value(s, i) matches Some((v, j)) ==> i < j <= s.len(),
    decreases s.len() - i, 0int,
{
    if 0 <= i && i < s.len() {
        if s[i] == 43 || s[i] == 45 {
            lemma_scan_line_end(s, i + 1);
        } else if s[i] == 36 {
            lemma_parse_line_bounds(s, i + 1);
        } else if s[i] == 42 {
            lemma_parse_line_bounds(s, i + 1);
            match parse_line(s, i + 1) {
                LineRes::Num { val: n, next } => {
                    if i < next <= s.len() {
                        lemma_decode_list_bounds(s, next, n);
                    }
                },
                _ => {},
            }
        }
    }
}

/// A decoded value run ends inside `s`, at or after where it began.
pub proof fn lemma_decode_list_bounds(s: Seq<u8>, i: int, n: int)
    requires
        0 <= i <= s.len(),
    ensures
        spec_decode_list(s, i, n) matches Some((items, fin)) ==> i <= fin <= s.len(),
    decreases s.len() - i, n + 1,
{
    if n > 0 {
        lemma_decode_value_bounds(s, i);
        match spec_decode_value(s, i) {
            Some((v, j)) => {
                if i < j <= s.len() {
                    lemma_decode_list_bounds(s, j, n - 1);
                }
            },
            None => {},
        }
    }
}

/// More values were declared than buffered bytes could hold: decoding the
/// run fails.
pub proof fn lemma_decode_list_short(s: Seq<u8>, i: int, n: int)
    requires
        0 <= i <= s.len(),
        n > s.len() - i,
    ensures
        spec_decode_list(s, i, n) is None,
    decreases n,
{
    lemma_decode_value_bounds(s, i);
    match spec_decode_value(s, i) {
        Some((v, j)) => {
            lemma_decode_list_short(s, j, n - 1);
        },
        None => {},
    }
}

/// Decoding an encoded well-formed value yields the value back, consuming
/// exactly its encoding: the codec loses nothing.
pub proof fn lemma_decode_encode(m: ValueModel)
    requires
        wf_model(m),
    ensures
        spec_decode_value(spec_encode(m), 0) == Some((m, spec_encode(m).len() as int)),
{
    let s = spec_encode(m);
    assert(s.subrange(0, s.len() as int) =~= s);
    lemma_decode_encode_at(s, 0, m);
}

/// The concatenated bulk-string encodings of a command's arguments.
pub open spec fn spec_encode_bulks(args: Seq<Seq<u8>>) -> Seq<u8>
    decreases args,
{
    if args.len() == 0 {
        Seq::empty()
    } else {
        spec_encode(ValueModel::Bulk(args.first())) + spec_encode_bulks(args.drop_first())
    }
}

/// The wire form of one request: an array frame of bulk strings.
pub open spec fn spec_encode_cmd(args: Seq<Seq<u8>>) -> Seq<u8> {
    seq![42u8] + dec_rep(args.len()) + crlf() + spec_encode_bulks(args)
}

/// A run of encoded bulk strings is at least one byte per element.
pub proof fn lemma_encode_bulks_len(args: Seq<Seq<u8>>)
    ensures
        spec_encode_bulks(args).len() >= args.len(),
    decreases args,
{
    if args.len() != 0 {
        lemma_encode_bulks_len(args.drop_first());
    }
}

/// The request decoder reads a run of encoded bulk strings back, whatever
/// bytes follow, as long as the run ends within the size guard.
pub proof fn lemma_decode_elems_of_bulks(s: Seq<u8>, i: int, args: Seq<Seq<u8>>, max: int)
    requires
        0 <= i,
        i + spec_encode_bulks(args).len() <= s.len(),
        s.subrange(i, i + spec_encode_bulks(args).len()) == spec_encode_bulks(args),
        i + spec_encode_bulks(args).len() <= max,
    ensures
        spec_decode_elems(s, i, args.len() as int, max) == (ElemsRes::Done {
            args,
            next: i + spec_encode_bulks(args).len(),
        }),
    decreases args,
{
    let eb = spec_encode_bulks(args);
    if args.len() == 0 {
        assert(args =~= Seq::<Seq<u8>>::empty());
    } else {
        let b = args.first();
        let rest = args.drop_first();
        let e0 = spec_encode(ValueModel::Bulk(b));
        let er = spec_encode_bulks(rest);
        assert(eb == e0 + er);
        assert forall|x: int| i <= x < i + eb.len() implies #[trigger] s[x] == eb[x - i] by {
            lemma_spell(s, i, eb, x - i);
        }
        let rep = dec_rep(b.len());
        let next = i + 1 + rep.len() + 2;
        assert(s[i] == 36);
        assert(s.subrange(i + 1, i + 1 + rep.len()) =~= rep) by {
            assert(forall|y: int| 0 <= y < rep.len() ==> #[trigger] s.subrange(i + 1, i + 1
                + rep.len() as int)[y] == s[i + 1 + y] && eb[i + 1 + y - i] == rep[y]);
        }
        assert(s[i + 1 + rep.len()] == CR);
        assert(s[i + 1 + rep.len() + 1] == LF);
        lemma_parse_line_of_dec_rep(s, i + 1, b.len());
        assert(s.subrange(next, next + b.len()) =~= b) by {
            assert(forall|y: int| 0 <= y < b.len() ==> #[trigger] s.subrange(next, next
                + b.len() as int)[y] == s[next + y] && eb[next + y - i] == b[y]);
        }
        assert(s[next + b.len()] == CR);
        assert(s[next + b.len() + 1] == LF);
        assert(spec_decode_bulk(s, i, max) == (BulkRes::Done {
            data: b,
            next: i + e0.len(),
        }));
        assert(s.subrange(i + e0.len(), i + e0.len() + er.len()) =~= er) by {
            assert(forall|y: int| 0 <= y < er.len() ==> #[trigger] s.subrange(i + e0.len() as int,
                i + e0.len() + er.len() as int)[y] == s[i + e0.len() + y] && eb[i + e0.len() + y
                - i] == er[y]);
        }
        lemma_decode_elems_of_bulks(s, i + e0.len(), rest, max);
        assert(seq![b] + rest =~= args);
    }
}

/// The request decoder reads one encoded command frame back, whatever
/// bytes follow, as long as the frame fits the size guard.
pub proof fn lemma_decode_frame_of_cmd(s: Seq<u8>, args: Seq<Seq<u8>>, max: int)
    requires
        spec_encode_cmd(args).len() <= s.len(),
        s.subrange(0, spec_encode_cmd(args).len() as int) == spec_encode_cmd(args),
        spec_encode_cmd(args).len() <= max,
    ensures
        spec_decode_frame(s, max) == (FrameRes::Done {
            args,
            used: spec_encode_cmd(args).len() as int,
        }),
{
    let enc = spec_encode_cmd(args);
    let rep = dec_rep(args.len());
    let rl: int = rep.len() as int;
    let next: int = 1 + rl + 2;
    let eb = spec_encode_bulks(args);
    assert forall|x: int| 0 <= x < enc.len() implies #[trigger] s[x] == enc[x] by {
        lemma_spell(s, 0, enc, x);
    }
    assert(s[0] == 42);
    assert(s.subrange(1, 1 + rl) =~= rep) by {
        assert(forall|y: int| 0 <= y < rep.len() ==> #[trigger] s.subrange(1, 1 + rl)[y] == s[1
            + y] && enc[1 + y] == rep[y]);
    }
    assert(s[1 + rl] == CR);
    assert(s[1 + rl + 1] == LF);
    lemma_parse_line_of_dec_rep(s, 1, args.len());
    lemma_encode_bulks_len(args);
    assert(args.len() <= max);
    assert(s.subrange(next, next + eb.len()) =~= eb) by {
        assert(forall|y: int| 0 <= y < eb.len() ==> #[trigger] s.subrange(next as int, next
            + eb.len() as int)[y] == s[next + y] && enc[next + y] == eb[y]);
    }
    lemma_decode_elems_of_bulks(s, next, args, max);
}

/// Prefix the value list of a successful outcome; `None` passes through.
pub open spec fn list_prepend(prefix: Seq<ValueModel>, r: Option<(Seq<ValueModel>, int)>) -> Option<
    (Seq<ValueModel>, int),
> {
    match r {
        Some((rest, fin)) => Some((prefix + rest, fin)),
        None => None,
    }
}

/// Decode one encoded value at `i`: the value and the index just past it.
fn decode_value_at(buf: &[u8], i: usize) -> (r: Option<(Value, usize)>)
    requires
        i <= buf@.len(),
    ensures
        match r {
            Some((v, next)) => i < next <= buf@.len() && spec_decode_value(buf@, i as int)
                == Some((v.model(), next as int)),
            None => spec_decode_value(buf@, i as int) is None,
        },
    decreases buf@.len() - i, 0int,
{
    if i >= buf.len() {
        return None;
    }
    let b = buf[i];
    if b == 43 || b == 45 {
        // one line, CR-LF terminated
        let mut j = i + 1;
        while j < buf.len() && buf[j] != CR && buf[j] != LF
            invariant
                i + 1 <= j <= buf@.len(),
                scan_line_end(buf@, i as int + 1) == scan_line_end(buf@, j as int),
            decreases buf@.len() - j,
        {
            j = j + 1;
        }
        if j >= buf.len() {
            return None;
        }
        if buf[j] != CR {
            return None;
        }
        if j + 1 >= buf.len() {
            return None;
        }
        if buf[j + 1] != LF {
            return None;
        }
        if b == 43 {
            let text = copy_range(buf, i + 1, j);
            proof {
                assert(text@ =~= buf@.subrange(i as int + 1, j as int));
            }
            Some((Value::Simple(text), j + 2))
        } else {
            let mut p = i + 1;
            while p < buf.len() && buf[p] != 32
                invariant
                    i + 1 <= p <= buf@.len(),
                    scan_space(buf@, i as int + 1) == scan_space(buf@, p as int),
                decreases buf@.len() - p,
            {
                p = p + 1;
            }
            if p >= j {
                return None;
            }
            let kind = copy_range(buf, i + 1, p);
            let msg = copy_range(buf, p + 1, j);
            proof {
                assert(kind@ =~= buf@.subrange(i as int + 1, p as int));
                assert(msg@ =~= buf@.subrange(p as int + 1, j as int));
            }
            Some((Value::Error(kind, msg), j + 2))
        }
    } else if b == 36 {
        if i + 1 < buf.len() && buf[i + 1] == 45 {
            if buf.len() - i > 4 && buf[i + 2] == 49 && buf[i + 3] == CR && buf[i + 4] == LF {
                Some((Value::Null, i + 5))
            } else {
                None
            }
        } else {
            proof {
                lemma_parse_line_bounds(buf@, i as int + 1);
            }
            match parse_line_exec(buf, i + 1, buf.len()) {
                LineOut::Num(l, next) => {
                    if buf.len() - next < 2 || l > buf.len() - next - 2 {
                        return None;
                    }
                    let end = next + l + 2;
                    if buf[next + l] != CR || buf[next + l + 1] != LF {
                        return None;
                    }
                    let body = copy_range(buf, next, next + l);
                    proof {
                        assert(body@ =~= buf@.subrange(next as int, next as int + l as int));
                    }
                    Some((Value::Bulk(body), end))
                },
                LineOut::Big => None,
                _ => None,
            }
        }
    } else if b == 42 {
        proof {
            lemma_parse_line_bounds(buf@, i as int + 1);
        }
        match parse_line_exec(buf, i + 1, buf.len()) {
            LineOut::Num(n, next) => {
                let mut items: Vec<Value> = Vec::new();
                let mut pos = next;
                let mut k: usize = 0;
                proof {
                    lemma_models_of(items@);
                    assert(models_of(items@) =~= Seq::<ValueModel>::empty());
                    match spec_decode_list(buf@, next as int, n as int) {
                        Some((rest, fin)) => {
                            assert(models_of(items@) + rest =~= rest);
                        },
                        None => {},
                    }
                    assert(spec_decode_list(buf@, next as int, n as int) == list_prepend(
                        models_of(items@),
                        spec_decode_list(buf@, next as int, n as int),
                    ));
                }
                while k < n
                    invariant
                        i < buf@.len(),
                        buf@[i as int] == 42,
                        parse_line(buf@, i as int + 1) == (LineRes::Num {
                            val: n as int,
                            next: next as int,
                        }),
                        i as int + 1 < next as int,
                        next as int <= buf@.len(),
                        i < pos <= buf@.len(),
                        k <= n,
                        spec_decode_list(buf@, next as int, n as int) == list_prepend(
                            models_of(items@),
                            spec_decode_list(buf@, pos as int, n as int - k as int),
                        ),
                    decreases n - k,
                {
                    match decode_value_at(buf, pos) {
                        None => {
                            return None;
                        },
                        Some((v, np)) => {
                            proof {
                                let m = n as int - k as int;
                                let rec = spec_decode_list(buf@, np as int, m - 1);
                                assert(spec_decode_list(buf@, pos as int, m) == list_prepend(
                                    seq![v.model()],
                                    rec,
                                ));
                                lemma_models_of(items@);
                                lemma_models_of(items@.push(v));
                                assert(models_of(items@.push(v)) =~= models_of(items@)
                                    + seq![v.model()]);
                                match rec {
                                    Some((rest, fin)) => {
                                        assert((models_of(items@) + (seq![v.model()] + rest))
                                            =~= (models_of(items@) + seq![v.model()]) + rest);
                                    },
                                    None => {},
                                }
                                assert(list_prepend(
                                    models_of(items@),
                                    spec_decode_list(buf@, pos as int, m),
                                ) == list_prepend(models_of(items@.push(v)), rec));
                            }
                            items.push(v);
                            pos = np;
                            k = k + 1;
                        },
                    }
                }
                proof {
                    assert(spec_decode_list(buf@, pos as int, 0) == Some((
                        Seq::<ValueModel>::empty(),
                        pos as int,
                    )));
                    assert(models_of(items@) + Seq::<ValueModel>::empty() =~= models_of(items@));
                    assert(spec_decode_list(buf@, next as int, n as int) == Some((
                        models_of(items@),
                        pos as int,
                    )));
                }
                Some((Value::Array(items), pos))
            },
            LineOut::Big => {
                proof {
                    match parse_line(buf@, i as int + 1) {
                        LineRes::Num { val, next } => {
                            if next <= i as int || next > buf@.len() {
                            } else {
                                lemma_decode_list_short(buf@, next, val);
                            }
                        },
                        _ => {},
                    }
                }
                None
            },
            _ => None,
        }
    } else {
        None
    }
}

/// Decode one encoded value from the start of `buf`: the value, and how
/// many bytes its encoding occupied.
pub fn decode(buf: &[u8]) -> (r: Option<(Value, usize)>)
    ensures
        match r {
            Some((v, used)) => spec_decode_value(buf@, 0) == Some((v.model(), used as int)),
            None => spec_decode_value(buf@, 0) is None,
        },
{
    decode_value_at(buf, 0)
}

} // verus!
