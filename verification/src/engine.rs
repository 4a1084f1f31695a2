//! The per-connection processing step: run the decoder over the buffered
//! bytes, dispatch each complete frame in arrival order, and collect the
//! encoded replies. Pipelined frames are answered strictly in the order
//! they complete decoding.

use vstd::prelude::*;
use vstd::slice::slice_subrange;

use crate::codec::{lemma_decode_frame_of_cmd, spec_encode_cmd};
use crate::decode::{decode_frame, spec_decode_frame, lemma_decode_frame_bounds, DecodeResult,
    FrameRes, ProtoError};
use crate::dispatch::{dispatch, kind_err, lemma_set_then_get, msg_ok, spec_dispatch, vec_err};
use crate::store::Store;
use crate::value::{spec_encode, Value, ValueModel};

verus! {

/// Message text of each protocol error reply.
pub open spec fn proto_msg(e: ProtoError) -> Seq<u8> {
    match e {
        // `unknown frame type`
        ProtoError::UnknownFrameType => seq![117u8, 110, 107, 110, 111, 119, 110, 32, 102, 114,
            97, 109, 101, 32, 116, 121, 112, 101],
        // `malformed length`
        ProtoError::MalformedLength => seq![109u8, 97, 108, 102, 111, 114, 109, 101, 100, 32, 108,
            101, 110, 103, 116, 104],
        // `invalid null in request`
        ProtoError::InvalidNullInRequest => seq![105u8, 110, 118, 97, 108, 105, 100, 32, 110, 117,
            108, 108, 32, 105, 110, 32, 114, 101, 113, 117, 101, 115, 116],
        // `frame too large`
        ProtoError::FrameTooLarge => seq![102u8, 114, 97, 109, 101, 32, 116, 111, 111, 32, 108,
            97, 114, 103, 101],
    }
}

/// The one final error reply written before a connection closes on a
/// protocol error.
pub open spec fn proto_reply(e: ProtoError) -> ValueModel {
    ValueModel::Error(kind_err(), proto_msg(e))
}

/// What processing the buffered bytes leaves behind, at the model level.
#[verifier::ext_equal]
pub struct ProcRes {
    /// The reply bytes written, in order.
    pub out: Seq<u8>,
    /// The store mapping afterwards.
    pub store: Map<Seq<u8>, Seq<u8>>,
    /// How many buffered bytes were consumed.
    pub used: int,
    /// Whether the connection must close (a protocol error was hit).
    pub close: bool,
}

/// Process every complete frame at the front of `s`, in order: each one is
/// dispatched and its encoded reply appended. An incomplete tail is left
/// unconsumed for the caller to extend; a protocol error appends one final
/// error reply and closes the connection.
pub open spec fn spec_process(s: Seq<u8>, m: Map<Seq<u8>, Seq<u8>>, max: int) -> ProcRes
    decreases s.len(),
{
    match spec_decode_frame(s, max) {
        FrameRes::NeedMore => ProcRes { out: Seq::empty(), store: m, used: 0, close: false },
        FrameRes::Fail(e) => ProcRes {
            out: spec_encode(proto_reply(e)),
            store: m,
            used: 0,
            close: true,
        },
        FrameRes::Done { args, used } => {
            if 1 <= used <= s.len() {
                let reply = spec_dispatch(args, m).0;
                let m1 = spec_dispatch(args, m).1;
                let rest = spec_process(s.skip(used), m1, max);
                ProcRes {
                    out: spec_encode(reply) + rest.out,
                    store: rest.store,
                    used: used + rest.used,
                    close: rest.close,
                }
            } else {
                // never reached: a decoded frame consumes 1..=s.len() bytes
                ProcRes { out: Seq::empty(), store: m, used: 0, close: true }
            }
        },
    }
}

/// What one processing pass returned.
pub struct Processed {
    /// The reply bytes to write, in order.
    pub output: Vec<u8>,
    /// How many buffered bytes were consumed; the caller drops them and
    /// keeps the rest for the next pass.
    pub consumed: usize,
    /// Whether the connection must close after writing the output.
    pub close: bool,
}

fn proto_error_reply(e: ProtoError) -> (r: Value)
    ensures
        r.model() == proto_reply(e),
{
    let msg: Vec<u8> = match e {
        ProtoError::UnknownFrameType => vec![117, 110, 107, 110, 111, 119, 110, 32, 102, 114, 97,
            109, 101, 32, 116, 121, 112, 101],
        ProtoError::MalformedLength => vec![109, 97, 108, 102, 111, 114, 109, 101, 100, 32, 108,
            101, 110, 103, 116, 104],
        ProtoError::InvalidNullInRequest => vec![105, 110, 118, 97, 108, 105, 100, 32, 110, 117,
            108, 108, 32, 105, 110, 32, 114, 101, 113, 117, 101, 115, 116],
        ProtoError::FrameTooLarge => vec![102, 114, 97, 109, 101, 32, 116, 111, 111, 32, 108, 97,
            114, 103, 101],
    };
    proof {
        assert(msg@ =~= proto_msg(e));
    }
    Value::Error(vec_err(), msg)
}

/// Process the buffered bytes `buf` against the store: decode and dispatch
/// every complete frame in order, and return the concatenated replies, the
/// count of consumed bytes, and whether the connection must close.
pub fn process_input(buf: &[u8], store: &mut Store, max: usize) -> (r: Processed)
    requires
        old(store).wf(),
    ensures
        final(store).wf(),
        ({
            let p = spec_process(buf@, old(store)@, max as int);
            r.output@ == p.out && final(store)@ == p.store && r.consumed == p.used
                && r.close == p.close
        }),
{
    let ghost m0 = store@;
    let mut out: Vec<u8> = Vec::new();
    let mut cursor: usize = 0;
    proof {
        assert(buf@.skip(0) =~= buf@);
        assert(Seq::<u8>::empty() + spec_process(buf@, m0, max as int).out
            =~= spec_process(buf@, m0, max as int).out);
    }
    loop
        invariant
            store.wf(),
            m0 == old(store)@,
            cursor <= buf@.len(),
            ({
                let rest = spec_process(buf@.skip(cursor as int), store@, max as int);
                spec_process(buf@, m0, max as int) == (ProcRes {
                    out: out@ + rest.out,
                    store: rest.store,
                    used: cursor + rest.used,
                    close: rest.close,
                })
            }),
        decreases buf@.len() - cursor,
    {
        let tail = slice_subrange(buf, cursor, buf.len());
        proof {
            assert(tail@ =~= buf@.skip(cursor as int));
        }
        let d = decode_frame(tail, max);
        proof {
            lemma_decode_frame_bounds(tail@, max as int);
        }
        match d {
            DecodeResult::NeedMore => {
                proof {
                    let rest = spec_process(buf@.skip(cursor as int), store@, max as int);
                    assert(spec_decode_frame(buf@.skip(cursor as int), max as int) is NeedMore);
                    assert(rest == (ProcRes {
                        out: Seq::<u8>::empty(),
                        store: store@,
                        used: 0,
                        close: false,
                    }));
                    assert(out@ + Seq::<u8>::empty() =~= out@);
                }
                return Processed { output: out, consumed: cursor, close: false };
            },
            DecodeResult::Fail(e) => {
                let ghost o0 = out@;
                let reply = proto_error_reply(e);
                let mut rb = reply.serialize();
                let ghost rbv = rb@;
                out.append(&mut rb);
                proof {
                    let rest = spec_process(buf@.skip(cursor as int), store@, max as int);
                    assert(spec_decode_frame(buf@.skip(cursor as int), max as int)
                        == FrameRes::Fail(e));
                    assert(rest == (ProcRes {
                        out: spec_encode(proto_reply(e)),
                        store: store@,
                        used: 0,
                        close: true,
                    }));
                    assert(out@ =~= o0 + rest.out);
                }
                return Processed { output: out, consumed: cursor, close: true };
            },
            DecodeResult::Done(args, used) => {
                let ghost m_before = store@;
                let ghost old_cursor = cursor as int;
                let ghost o0 = out@;
                let reply = dispatch(store, &args);
                let mut rb = reply.serialize();
                let ghost rbv = rb@;
                out.append(&mut rb);
                cursor = cursor + used;
                proof {
                    let s_tail = buf@.skip(old_cursor);
                    let fargs = crate::decode::seqs_of(args@);
                    let m1 = spec_dispatch(fargs, m_before).1;
                    let enc = spec_encode(spec_dispatch(fargs, m_before).0);
                    assert(rbv == enc);
                    assert(store@ == m1);
                    assert(s_tail.skip(used as int) =~= buf@.skip(cursor as int));
                    let rest2 = spec_process(buf@.skip(cursor as int), m1, max as int);
                    assert(spec_decode_frame(s_tail, max as int) == (FrameRes::Done {
                        args: fargs,
                        used: used as int,
                    }));
                    assert(1 <= used as int <= s_tail.len());
                    assert(spec_process(s_tail, m_before, max as int) == (ProcRes {
                        out: enc + rest2.out,
                        store: rest2.store,
                        used: used + rest2.used,
                        close: rest2.close,
                    }));
                    assert(out@ == o0 + enc);
                    assert((o0 + (enc + rest2.out)) =~= (out@ + rest2.out));
                    assert(old_cursor + (used + rest2.used) == cursor + rest2.used);
                }
            },
        }
    }
}

/// Pipelining: a `SET k v` immediately followed by `GET k` in one buffer
/// is answered in that order — the `OK` status, then the bulk value —
/// with the whole buffer consumed, the key bound to the value, and the
/// connection left open. Holds for any byte strings `k` and `v` whose two
/// frames fit the size guard.
pub proof fn lemma_pipelined_set_get(k: Seq<u8>, v: Seq<u8>, m: Map<Seq<u8>, Seq<u8>>, max: int)
    requires
        spec_encode_cmd(seq![seq![83u8, 69, 84], k, v]).len() + spec_encode_cmd(
            seq![seq![71u8, 69, 84], k],
        ).len() <= max,
    ensures
        ({
            let s = spec_encode_cmd(seq![seq![83u8, 69, 84], k, v]) + spec_encode_cmd(
                seq![seq![71u8, 69, 84], k],
            );
            let p = spec_process(s, m, max);
            &&& p.out == spec_encode(ValueModel::Simple(msg_ok())) + spec_encode(
                ValueModel::Bulk(v),
            )
            &&& p.store == m.insert(k, v)
            &&& p.used == s.len()
            &&& p.close == false
        }),
{
    let set_args = seq![seq![83u8, 69, 84], k, v];
    let get_args = seq![seq![71u8, 69, 84], k];
    let s1 = spec_encode_cmd(set_args);
    let s2 = spec_encode_cmd(get_args);
    let s = s1 + s2;
    lemma_set_then_get(k, v, m);
    let m1 = spec_dispatch(set_args, m).1;
    let enc1 = spec_encode(spec_dispatch(set_args, m).0);
    let enc2 = spec_encode(spec_dispatch(get_args, m1).0);
    assert(s.subrange(0, s1.len() as int) =~= s1);
    lemma_decode_frame_of_cmd(s, set_args, max);
    assert(s1.len() >= 1 && s2.len() >= 1);
    assert(s.skip(s1.len() as int) =~= s2);
    assert(s2.subrange(0, s2.len() as int) =~= s2);
    lemma_decode_frame_of_cmd(s2, get_args, max);
    let rest1 = spec_process(s2, m1, max);
    assert(spec_process(s, m, max) == (ProcRes {
        out: enc1 + rest1.out,
        store: rest1.store,
        used: s1.len() + rest1.used,
        close: rest1.close,
    }));
    assert(s2.skip(s2.len() as int) =~= Seq::<u8>::empty());
    let rest2 = spec_process(Seq::<u8>::empty(), m1, max);
    assert(spec_decode_frame(Seq::<u8>::empty(), max) is NeedMore);
    assert(Seq::<u8>::empty().len() < max);
    assert(rest2 == (ProcRes { out: Seq::<u8>::empty(), store: m1, used: 0, close: false }));
    assert(rest1 == (ProcRes {
        out: enc2 + rest2.out,
        store: rest2.store,
        used: s2.len() + rest2.used,
        close: rest2.close,
    }));
    assert(enc2 + Seq::<u8>::empty() =~= enc2);
    assert(enc1 + enc2 == spec_process(s, m, max).out);
    assert(spec_process(s, m, max).used == s1.len() + s2.len());
    assert(s.len() == s1.len() + s2.len());
}

} // verus!
