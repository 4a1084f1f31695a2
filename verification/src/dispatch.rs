//! Command dispatch: a pure function of (command name, arguments, store)
//! to a reply value, case-insensitive on the command name. Every input
//! yields a reply; dispatch never fails. `SET` is the only command that
//! mutates the store.

use vstd::prelude::*;

use crate::decode::seqs_of;
use crate::store::{bytes_eq, copy_bytes, Store};
use crate::value::{Value, ValueModel};

verus! {

/// ASCII lowercase of one byte.
pub open spec fn lower_byte(b: u8) -> u8 {
    if 65 <= b && b <= 90 {
        (b + 32) as u8
    } else {
        b
    }
}

/// ASCII lowercase of a byte string.
pub open spec fn lower(s: Seq<u8>) -> Seq<u8> {
    Seq::new(s.len(), |i: int| lower_byte(s[i]))
}

pub open spec fn cmd_ping() -> Seq<u8> {
    seq![112u8, 105, 110, 103]
}

pub open spec fn cmd_echo() -> Seq<u8> {
    seq![101u8, 99, 104, 111]
}

pub open spec fn cmd_set() -> Seq<u8> {
    seq![115u8, 101, 116]
}

pub open spec fn cmd_get() -> Seq<u8> {
    seq![103u8, 101, 116]
}

pub open spec fn msg_pong() -> Seq<u8> {
    seq![80u8, 79, 78, 71]
}

pub open spec fn msg_ok() -> Seq<u8> {
    seq![79u8, 75]
}

/// The generic error kind, `ERR`.
pub open spec fn kind_err() -> Seq<u8> {
    seq![69u8, 82, 82]
}

/// `empty command`
pub open spec fn msg_empty_command() -> Seq<u8> {
    seq![101u8, 109, 112, 116, 121, 32, 99, 111, 109, 109, 97, 110, 100]
}

/// `unknown command '<name>'`
pub open spec fn msg_unknown(name: Seq<u8>) -> Seq<u8> {
    seq![117u8, 110, 107, 110, 111, 119, 110, 32, 99, 111, 109, 109, 97, 110, 100, 32, 39]
        + name + seq![39u8]
}

/// `wrong number of arguments for '<name>' command`
pub open spec fn msg_wrong_args(name: Seq<u8>) -> Seq<u8> {
    seq![119u8, 114, 111, 110, 103, 32, 110, 117, 109, 98, 101, 114, 32, 111, 102, 32, 97, 114,
        103, 117, 109, 101, 110, 116, 115, 32, 102, 111, 114, 32, 39]
        + name
        + seq![39u8, 32, 99, 111, 109, 109, 97, 110, 100]
}

/// The reply to a frame and the store mapping it leaves behind.
///
/// `PING` answers `PONG`, or echoes its one argument; `ECHO` echoes its
/// argument; `SET` binds key to value and answers `OK`; `GET` answers the
/// bound value or `Null`. An empty frame, a wrong argument count and an
/// unknown command answer an error and leave the store unchanged.
pub open spec fn spec_dispatch(args: Seq<Seq<u8>>, m: Map<Seq<u8>, Seq<u8>>) -> (ValueModel, Map<
    Seq<u8>,
    Seq<u8>,
>) {
    if args.len() == 0 {
        (ValueModel::Error(kind_err(), msg_empty_command()), m)
    } else {
        let cmd = lower(args[0]);
        if cmd == cmd_ping() {
            if args.len() == 1 {
                (ValueModel::Simple(msg_pong()), m)
            } else if args.len() == 2 {
                (ValueModel::Bulk(args[1]), m)
            } else {
                (ValueModel::Error(kind_err(), msg_wrong_args(args[0])), m)
            }
        } else if cmd == cmd_echo() {
            if args.len() == 2 {
                (ValueModel::Bulk(args[1]), m)
            } else {
                (ValueModel::Error(kind_err(), msg_wrong_args(args[0])), m)
            }
        } else if cmd == cmd_set() {
            if args.len() == 3 {
                (ValueModel::Simple(msg_ok()), m.insert(args[1], args[2]))
            } else {
                (ValueModel::Error(kind_err(), msg_wrong_args(args[0])), m)
            }
        } else if cmd == cmd_get() {
            if args.len() == 2 {
                if m.contains_key(args[1]) {
                    (ValueModel::Bulk(m[args[1]]), m)
                } else {
                    (ValueModel::Null, m)
                }
            } else {
                (ValueModel::Error(kind_err(), msg_wrong_args(args[0])), m)
            }
        } else {
            (ValueModel::Error(kind_err(), msg_unknown(args[0])), m)
        }
    }
}

/// ASCII-lowercase a byte string.
pub fn to_lower(v: &Vec<u8>) -> (r: Vec<u8>)
    ensures
        r@ == lower(v@),
{
    let mut out: Vec<u8> = Vec::new();
    let mut i: usize = 0;
    while i < v.len()
        invariant
            i <= v@.len(),
            out@.len() == i,
            forall|k: int| 0 <= k < i ==> out@[k] == lower_byte(v@[k]),
        decreases v@.len() - i,
    {
        let b = v[i];
        if 65 <= b && b <= 90 {
            out.push(b + 32);
        } else {
            out.push(b);
        }
        i = i + 1;
    }
    proof {
        assert(out@ =~= lower(v@));
    }
    out
}

fn vec_ping() -> (r: Vec<u8>)
    ensures
        r@ == cmd_ping(),
{
    let r: Vec<u8> = vec![112, 105, 110, 103];
    proof {
        assert(r@ =~= cmd_ping());
    }
    r
}

fn vec_echo() -> (r: Vec<u8>)
    ensures
        r@ == cmd_echo(),
{
    let r: Vec<u8> = vec![101, 99, 104, 111];
    proof {
        assert(r@ =~= cmd_echo());
    }
    r
}

fn vec_set() -> (r: Vec<u8>)
    ensures
        r@ == cmd_set(),
{
    let r: Vec<u8> = vec![115, 101, 116];
    proof {
        assert(r@ =~= cmd_set());
    }
    r
}

fn vec_get() -> (r: Vec<u8>)
    ensures
        r@ == cmd_get(),
{
    let r: Vec<u8> = vec![103, 101, 116];
    proof {
        assert(r@ =~= cmd_get());
    }
    r
}

fn vec_pong() -> (r: Vec<u8>)
    ensures
        r@ == msg_pong(),
{
    let r: Vec<u8> = vec![80, 79, 78, 71];
    proof {
        assert(r@ =~= msg_pong());
    }
    r
}

fn vec_ok() -> (r: Vec<u8>)
    ensures
        r@ == msg_ok(),
{
    let r: Vec<u8> = vec![79, 75];
    proof {
        assert(r@ =~= msg_ok());
    }
    r
}

pub(crate) fn vec_err() -> (r: Vec<u8>)
    ensures
        r@ == kind_err(),
{
    let r: Vec<u8> = vec![69, 82, 82];
    proof {
        assert(r@ =~= kind_err());
    }
    r
}

fn vec_empty_command() -> (r: Vec<u8>)
    ensures
        r@ == msg_empty_command(),
{
    let r: Vec<u8> = vec![101, 109, 112, 116, 121, 32, 99, 111, 109, 109, 97, 110, 100];
    proof {
        assert(r@ =~= msg_empty_command());
    }
    r
}

/// The reply for an unknown command name.
fn unknown_reply(name: &Vec<u8>) -> (r: Value)
    ensures
        r.model() == ValueModel::Error(kind_err(), msg_unknown(name@)),
{
    let mut msg: Vec<u8> = vec![117, 110, 107, 110, 111, 119, 110, 32, 99, 111, 109, 109, 97, 110,
        100, 32, 39];
    let ghost prefix = msg@;
    crate::value::push_all(&mut msg, name);
    msg.push(39);
    proof {
        assert(prefix =~= seq![117u8, 110, 107, 110, 111, 119, 110, 32, 99, 111, 109, 109, 97,
            110, 100, 32, 39]);
        assert(msg@ =~= msg_unknown(name@));
    }
    Value::Error(vec_err(), msg)
}

/// The reply for a recognized command called with the wrong argument count.
fn wrong_args_reply(name: &Vec<u8>) -> (r: Value)
    ensures
        r.model() == ValueModel::Error(kind_err(), msg_wrong_args(name@)),
{
    let mut msg: Vec<u8> = vec![119, 114, 111, 110, 103, 32, 110, 117, 109, 98, 101, 114, 32, 111,
        102, 32, 97, 114, 103, 117, 109, 101, 110, 116, 115, 32, 102, 111, 114, 32, 39];
    let ghost prefix = msg@;
    crate::value::push_all(&mut msg, name);
    let suffix: Vec<u8> = vec![39, 32, 99, 111, 109, 109, 97, 110, 100];
    crate::value::push_all(&mut msg, &suffix);
    proof {
        assert(prefix =~= seq![119u8, 114, 111, 110, 103, 32, 110, 117, 109, 98, 101, 114, 32,
            111, 102, 32, 97, 114, 103, 117, 109, 101, 110, 116, 115, 32, 102, 111, 114, 32, 39]);
        assert(suffix@ =~= seq![39u8, 32, 99, 111, 109, 109, 97, 110, 100]);
        assert(msg@ =~= msg_wrong_args(name@));
    }
    Value::Error(vec_err(), msg)
}

/// Dispatch one decoded frame against the store and produce the reply.
/// Never fails: every argument list yields a reply value.
pub fn dispatch(store: &mut Store, args: &Vec<Vec<u8>>) -> (reply: Value)
    requires
        old(store).wf(),
    ensures
        final(store).wf(),
        reply.model() == spec_dispatch(seqs_of(args@), old(store)@).0,
        final(store)@ == spec_dispatch(seqs_of(args@), old(store)@).1,
{
    proof {
        assert(seqs_of(args@).len() == args@.len());
    }
    if args.len() == 0 {
        return Value::Error(vec_err(), vec_empty_command());
    }
    let cmd = to_lower(&args[0]);
    proof {
        assert(seqs_of(args@)[0] == args@[0]@);
    }
    if bytes_eq(cmd.as_slice(), vec_ping().as_slice()) {
        if args.len() == 1 {
            Value::Simple(vec_pong())
        } else if args.len() == 2 {
            proof {
                assert(seqs_of(args@)[1] == args@[1]@);
            }
            Value::Bulk(copy_bytes(&args[1]))
        } else {
            wrong_args_reply(&args[0])
        }
    } else if bytes_eq(cmd.as_slice(), vec_echo().as_slice()) {
        if args.len() == 2 {
            proof {
                assert(seqs_of(args@)[1] == args@[1]@);
            }
            Value::Bulk(copy_bytes(&args[1]))
        } else {
            wrong_args_reply(&args[0])
        }
    } else if bytes_eq(cmd.as_slice(), vec_set().as_slice()) {
        if args.len() == 3 {
            proof {
                assert(seqs_of(args@)[1] == args@[1]@);
                assert(seqs_of(args@)[2] == args@[2]@);
            }
            store.set(copy_bytes(&args[1]), copy_bytes(&args[2]));
            Value::Simple(vec_ok())
        } else {
            wrong_args_reply(&args[0])
        }
    } else if bytes_eq(cmd.as_slice(), vec_get().as_slice()) {
        if args.len() == 2 {
            proof {
                assert(seqs_of(args@)[1] == args@[1]@);
            }
            match store.get(&args[1]) {
                Some(v) => Value::Bulk(v),
                None => Value::Null,
            }
        } else {
            wrong_args_reply(&args[0])
        }
    } else {
        unknown_reply(&args[0])
    }
}

/// For any byte strings `k` and `v` — CR and LF included — dispatching
/// `SET k v` and then `GET k` answers `OK` and then exactly `v`.
pub proof fn lemma_set_then_get(k: Seq<u8>, v: Seq<u8>, m: Map<Seq<u8>, Seq<u8>>)
    ensures
        spec_dispatch(seq![seq![83u8, 69, 84], k, v], m).0 == ValueModel::Simple(msg_ok()),
        spec_dispatch(seq![seq![83u8, 69, 84], k, v], m).1 == m.insert(k, v),
        spec_dispatch(
            seq![seq![71u8, 69, 84], k],
            spec_dispatch(seq![seq![83u8, 69, 84], k, v], m).1,
        ).0 == ValueModel::Bulk(v),
        spec_dispatch(
            seq![seq![71u8, 69, 84], k],
            spec_dispatch(seq![seq![83u8, 69, 84], k, v], m).1,
        ).1 == m.insert(k, v),
{
    let set_args = seq![seq![83u8, 69, 84], k, v];
    let get_args = seq![seq![71u8, 69, 84], k];
    assert(lower(set_args[0]) =~= cmd_set());
    assert(lower(get_args[0]) =~= cmd_get());
    assert(lower(set_args[0]) != cmd_ping() && lower(set_args[0]) != cmd_echo()) by {
        assert(cmd_set().len() == 3 && cmd_ping().len() == 4);
        assert(cmd_set()[0] == 115 && cmd_echo()[0] == 101);
    }
    assert(lower(get_args[0]) != cmd_ping() && lower(get_args[0]) != cmd_echo()
        && lower(get_args[0]) != cmd_set()) by {
        assert(cmd_get().len() == 3 && cmd_ping().len() == 4);
        assert(cmd_get()[0] == 103 && cmd_echo()[0] == 101 && cmd_set()[0] == 115);
    }
    let m1 = spec_dispatch(set_args, m).1;
    assert(m1 == m.insert(k, v));
    assert(m1.contains_key(k) && m1[k] == v);
}

} // verus!
