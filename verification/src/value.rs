//! Protocol values and their wire encoding.

use vstd::prelude::*;

verus! {

broadcast use vstd::std_specs::vec::group_vec_axioms;

pub const CR: u8 = 13;
pub const LF: u8 = 10;

/// A protocol value: a decoded argument or a reply to be encoded.
#[derive(PartialEq, Eq, Debug)]
pub enum Value {
    /// Status text; by construction it must not contain CR or LF.
    Simple(Vec<u8>),
    /// Binary-safe byte string of declared length; may contain any byte.
    Bulk(Vec<u8>),
    /// Absence marker (for example, a missing key).
    Null,
    /// A failure reply: an error kind (for example `ERR`) and a message.
    Error(Vec<u8>, Vec<u8>),
    /// Ordered container of values.
    Array(Vec<Value>),
}

/// Mathematical model of a `Value`: the same shape over `Seq<u8>`.
#[verifier::ext_equal]
pub enum ValueModel {
    Simple(Seq<u8>),
    Bulk(Seq<u8>),
    Null,
    Error(Seq<u8>, Seq<u8>),
    Array(Seq<ValueModel>),
}

/// The models of a list of values, element by element, in order.
pub open spec fn models_of(items: Seq<Value>) -> Seq<ValueModel>
    decreases items,
    via models_of_decreases
{
    if items.len() == 0 {
        Seq::empty()
    } else {
        seq![items.first().model()] + models_of(items.drop_first())
    }
}

#[via_fn]
proof fn models_of_decreases(items: Seq<Value>) {
    if items.len() != 0 {
        assert(decreases_to!(items => items[0]));
        assert(items.drop_first() == items.subrange(1, items.len() as int));
        assert(decreases_to!(items => items.subrange(1, items.len() as int)));
    }
}

/// Model and element lookup agree, index by index.
pub proof fn lemma_models_of(items: Seq<Value>)
    ensures
        models_of(items).len() == items.len(),
        forall|i: int| 0 <= i < items.len() ==> #[trigger] models_of(items)[i]
            == items[i].model(),
    decreases items.len(),
{
    if items.len() != 0 {
        lemma_models_of(items.drop_first());
        assert forall|i: int| 0 <= i < items.len() implies #[trigger] models_of(items)[i]
            == items[i].model() by {
            if i == 0 {
                assert(models_of(items)[0] == items.first().model());
            } else {
                assert(models_of(items)[i] == models_of(items.drop_first())[i - 1]);
                assert(items.drop_first()[i - 1] == items[i]);
            }
        }
    }
}

impl Value {
    /// The mathematical model of this value.
    pub open spec fn model(self) -> ValueModel
        decreases self,
        via Self::model_decreases
    {
        match self {
            Value::Simple(s) => ValueModel::Simple(s@),
            Value::Bulk(b) => ValueModel::Bulk(b@),
            Value::Null => ValueModel::Null,
            Value::Error(k, m) => ValueModel::Error(k@, m@),
            Value::Array(items) => ValueModel::Array(models_of(items@)),
        }
    }

    #[via_fn]
    proof fn model_decreases(self) {
        match self {
            Value::Array(items) => {
                assert(decreases_to!(self => self->Array_0));
                assert(self->Array_0 == items);
                assert(decreases_to!(items => items@));
                assert(decreases_to!(self => items@));
            },
            _ => {},
        }
    }
}

/// No byte of `s` is CR or LF.
pub open spec fn no_crlf(s: Seq<u8>) -> bool {
    forall|i: int| 0 <= i < s.len() ==> s[i] != CR && s[i] != LF
}

/// A value is well formed when every simple string and error text is free
/// of CR/LF and every error kind is free of spaces, so that its encoding
/// frames it unambiguously.
pub open spec fn wf_model(m: ValueModel) -> bool
    decreases m,
{
    match m {
        ValueModel::Simple(s) => no_crlf(s),
        ValueModel::Bulk(_) => true,
        ValueModel::Null => true,
        ValueModel::Error(k, msg) => no_crlf(k) && no_crlf(msg)
            && (forall|i: int| 0 <= i < k.len() ==> k[i] != 32),
        ValueModel::Array(items) => forall|i: int| 0 <= i < items.len() ==> wf_model(#[trigger] items[i]),
    }
}

/// Decimal representation of `n`, most significant digit first.
pub open spec fn dec_rep(n: nat) -> Seq<u8>
    decreases n,
{
    if n < 10 {
        seq![(48 + n) as u8]
    } else {
        dec_rep(n / 10).push((48 + n % 10) as u8)
    }
}

pub open spec fn crlf() -> Seq<u8> {
    seq![CR, LF]
}

/// The wire encoding of a value, bit-exact:
/// `+s\r\n`, `${len}\r\n{bytes}\r\n`, `$-1\r\n`, `-{kind} {msg}\r\n`,
/// `*{len}\r\n` followed by each element's encoding.
pub open spec fn spec_encode(m: ValueModel) -> Seq<u8>
    decreases m,
{
    match m {
        ValueModel::Simple(s) => seq![43u8] + s + crlf(),
        ValueModel::Bulk(b) => seq![36u8] + dec_rep(b.len()) + crlf() + b + crlf(),
        ValueModel::Null => seq![36u8, 45u8, 49u8] + crlf(),
        ValueModel::Error(k, msg) => seq![45u8] + k + seq![32u8] + msg + crlf(),
        ValueModel::Array(items) => seq![42u8] + dec_rep(items.len()) + crlf() + spec_encode_list(items),
    }
}

/// The concatenated encodings of a list of values, in order.
pub open spec fn spec_encode_list(items: Seq<ValueModel>) -> Seq<u8>
    decreases items,
{
    if items.len() == 0 {
        Seq::empty()
    } else {
        spec_encode(items.first()) + spec_encode_list(items.drop_first())
    }
}

/// Appending one element extends the encoding of a list prefix by the
/// element's encoding.
pub proof fn lemma_encode_list_take(items: Seq<ValueModel>, i: int)
    requires
        0 <= i < items.len(),
    ensures
        spec_encode_list(items.take(i + 1)) == spec_encode_list(items.take(i)) + spec_encode(items[i]),
    decreases i,
{
    if i == 0 {
        assert(items.take(1).drop_first() =~= Seq::<ValueModel>::empty());
        assert(items.take(0) =~= Seq::<ValueModel>::empty());
        assert(items.take(1).first() == items[0]);
        assert(items.take(1).len() == 1);
        assert(spec_encode_list(items.take(1))
            == spec_encode(items[0]) + spec_encode_list(Seq::<ValueModel>::empty()));
        assert(spec_encode(items[0]) + Seq::<u8>::empty() =~= spec_encode(items[0]));
        assert(spec_encode_list(items.take(0)) + spec_encode(items[0]) =~= spec_encode(items[0]));
    } else {
        lemma_encode_list_take(items.drop_first(), i - 1);
        assert(items.take(i + 1).drop_first() =~= items.drop_first().take(i));
        assert(items.take(i).drop_first() =~= items.drop_first().take(i - 1));
        assert(items.take(i + 1).first() == items.first());
        assert(items.take(i).first() == items.first());
        assert(items.drop_first()[i - 1] == items[i]);
        assert(spec_encode(items.first()) + (spec_encode_list(items.drop_first().take(i - 1)) + spec_encode(items[i]))
            =~= (spec_encode(items.first()) + spec_encode_list(items.drop_first().take(i - 1))) + spec_encode(items[i]));
    }
}

/// Append every byte of `s` to `out`.
pub fn push_all(out: &mut Vec<u8>, s: &Vec<u8>)
    ensures
        final(out)@ == old(out)@ + s@,
{
    let mut i: usize = 0;
    while i < s.len()
        invariant
            i <= s.len(),
            out@ == old(out)@ + s@.take(i as int),
        decreases s.len() - i,
    {
        out.push(s[i]);
        assert(old(out)@ + s@.take(i as int + 1) =~= (old(out)@ + s@.take(i as int)).push(s@[i as int]));
        i = i + 1;
    }
    assert(s@.take(s@.len() as int) =~= s@);
}

/// Append the decimal representation of `n` to `out`.
pub fn push_dec(out: &mut Vec<u8>, n: u64)
    ensures
        final(out)@ == old(out)@ + dec_rep(n as nat),
    decreases n,
{
    if n < 10 {
        out.push((48 + n) as u8);
        assert(old(out)@ + dec_rep(n as nat) =~= old(out)@.push((48 + n) as u8));
    } else {
        push_dec(out, n / 10);
        out.push((48 + n % 10) as u8);
        assert(old(out)@ + dec_rep(n as nat) =~= (old(out)@ + dec_rep((n / 10) as nat)).push((48 + n % 10) as u8));
    }
}

/// Append the wire encoding of `v` to `out`.
pub fn encode_into(v: &Value, out: &mut Vec<u8>)
    ensures
        final(out)@ == old(out)@ + spec_encode(v.model()),
    decreases v,
{
    match v {
        Value::Simple(s) => {
            out.push(43);
            push_all(out, s);
            out.push(CR);
            out.push(LF);
            assert(old(out)@ + spec_encode(v.model()) =~= ((old(out)@.push(43) + s@).push(CR)).push(LF));
        },
        Value::Bulk(b) => {
            out.push(36);
            push_dec(out, b.len() as u64);
            out.push(CR);
            out.push(LF);
            push_all(out, b);
            out.push(CR);
            out.push(LF);
            assert(old(out)@ + spec_encode(v.model())
                =~= ((((old(out)@.push(36) + dec_rep(b@.len())).push(CR).push(LF)) + b@).push(CR)).push(LF));
        },
        Value::Null => {
            out.push(36);
            out.push(45);
            out.push(49);
            out.push(CR);
            out.push(LF);
            assert(old(out)@ + spec_encode(v.model())
                =~= old(out)@.push(36).push(45).push(49).push(CR).push(LF));
        },
        Value::Error(k, msg) => {
            out.push(45);
            push_all(out, k);
            out.push(32);
            push_all(out, msg);
            out.push(CR);
            out.push(LF);
            assert(old(out)@ + spec_encode(v.model())
                =~= ((((old(out)@.push(45) + k@).push(32)) + msg@).push(CR)).push(LF));
        },
        Value::Array(items) => {
            out.push(42);
            push_dec(out, items.len() as u64);
            out.push(CR);
            out.push(LF);
            let ghost header_done = out@;
            let ghost ms = models_of(items@);
            proof {
                lemma_models_of(items@);
            }
            assert(header_done =~= old(out)@ + seq![42u8] + dec_rep(items@.len()) + crlf());
            let mut i: usize = 0;
            while i < items.len()
                invariant
                    i <= items.len(),
                    *v == Value::Array(*items),
                    ms == models_of(items@),
                    ms.len() == items@.len(),
                    out@ == header_done + spec_encode_list(ms.take(i as int)),
                decreases items.len() - i,
            {
                proof {
                    lemma_models_of(items@);
                    assert(items@[i as int].model() == ms[i as int]);
                    assert(decreases_to!(*v => (*v)->Array_0));
                    assert((*v)->Array_0 == *items);
                    assert(decreases_to!(*items => items@));
                    assert(decreases_to!(items@ => items@[i as int]));
                    assert(decreases_to!(*v => items@[i as int]));
                }
                encode_into(&items[i], out);
                proof {
                    lemma_encode_list_take(ms, i as int);
                    assert(header_done + spec_encode_list(ms.take(i as int + 1))
                        =~= (header_done + spec_encode_list(ms.take(i as int))) + spec_encode(ms[i as int]));
                }
                i = i + 1;
            }
            proof {
                assert(ms.take(ms.len() as int) =~= ms);
                assert(v.model() == ValueModel::Array(ms));
                assert(old(out)@ + spec_encode(v.model())
                    =~= ((old(out)@ + seq![42u8] + dec_rep(items@.len()) + crlf()) + spec_encode_list(ms)));
            }
        },
    }
}

impl Value {
    /// Serialize this value to its wire bytes. Encoding is total: every
    /// value, arrays included, has an encoding.
    pub fn serialize(&self) -> (r: Vec<u8>)
        ensures
            r@ == spec_encode(self.model()),
    {
        let mut out: Vec<u8> = Vec::new();
        encode_into(self, &mut out);
        out
    }
}

} // verus!
