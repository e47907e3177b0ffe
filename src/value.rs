use vstd::prelude::*;

verus! {

/// The mathematical content of a wire value.
pub enum Resp {
    Array(Seq<Resp>),
    Integer(int),
    SimpleString(Seq<u8>),
    BulkString(Seq<u8>),
    NullBulkString,
    NullArray,
    Error(Seq<u8>),
}

/// A value of the wire protocol. Strings are byte strings.
#[derive(Debug, PartialEq, Eq)]
pub enum Value {
    Array(Vec<Value>),
    Integer(i64),
    SimpleString(Vec<u8>),
    BulkString(Vec<u8>),
    NullBulkString,
    NullArray,
    Error(Vec<u8>),
}

pub open spec fn value_model(v: Value) -> Resp
    decreases v,
{
    match v {
        Value::Array(items) => Resp::Array(items_model(items@)),
        Value::Integer(n) => Resp::Integer(n as int),
        Value::SimpleString(s) => Resp::SimpleString(s@),
        Value::BulkString(s) => Resp::BulkString(s@),
        Value::NullBulkString => Resp::NullBulkString,
        Value::NullArray => Resp::NullArray,
        Value::Error(s) => Resp::Error(s@),
    }
}

pub open spec fn items_model(items: Seq<Value>) -> Seq<Resp>
    decreases items,
{
    if items.len() == 0 {
        Seq::empty()
    } else {
        items_model(items.drop_last()).push(value_model(items.last()))
    }
}

impl View for Value {
    type V = Resp;

    open spec fn view(&self) -> Resp {
        value_model(*self)
    }
}

pub open spec fn crlf() -> Seq<u8> {
    seq![13u8, 10u8]
}

/// The decimal digits of `n`, most significant first, without leading zeros.
pub open spec fn decimal(n: nat) -> Seq<u8>
    decreases n,
{
    if n < 10 {
        seq![(48 + n) as u8]
    } else {
        decimal(n / 10).push((48 + n % 10) as u8)
    }
}

/// `n` in decimal, with a leading `-` when negative.
pub open spec fn signed_decimal(n: int) -> Seq<u8> {
    if n < 0 {
        seq![45u8] + decimal((-n) as nat)
    } else {
        decimal(n as nat)
    }
}

/// The canonical byte encoding of a wire value.
pub open spec fn encode(v: Resp) -> Seq<u8>
    decreases v,
{
    match v {
        Resp::Integer(n) => seq![58u8] + signed_decimal(n) + crlf(),
        Resp::SimpleString(s) => seq![43u8] + s + crlf(),
        Resp::Error(s) => seq![45u8] + s + crlf(),
        Resp::BulkString(s) => seq![36u8] + decimal(s.len()) + crlf() + s + crlf(),
        Resp::NullBulkString => seq![36u8, 45u8, 49u8] + crlf(),
        Resp::NullArray => seq![42u8, 45u8, 49u8] + crlf(),
        Resp::Array(items) => seq![42u8] + decimal(items.len()) + crlf() + encode_all(items),
    }
}

/// The encodings of `items`, one after another.
pub open spec fn encode_all(items: Seq<Resp>) -> Seq<u8>
    decreases items,
{
    if items.len() == 0 {
        Seq::empty()
    } else {
        encode_all(items.drop_last()) + encode(items.last())
    }
}

pub proof fn lemma_items_model(items: Seq<Value>)
    ensures
        items_model(items).len() == items.len(),
        forall|i: int| 0 <= i < items.len() ==> #[trigger] items_model(items)[i] == value_model(items[i]),
    decreases items.len(),
{
    if items.len() > 0 {
        lemma_items_model(items.drop_last());
    }
}

/// Appends the bytes of `s`.
pub fn push_all(out: &mut Vec<u8>, s: &[u8])
    ensures
        final(out)@ == old(out)@ + s@,
{
    let ghost start = out@;
    let mut i: usize = 0;
    while i < s.len()
        invariant
            i <= s.len(),
            out@ == start + s@.subrange(0, i as int),
        decreases s.len() - i,
    {
        out.push(s[i]);
        i = i + 1;
        assert(out@ =~= start + s@.subrange(0, i as int));
    }
    assert(s@.subrange(0, i as int) =~= s@);
}

fn push_crlf(out: &mut Vec<u8>)
    ensures
        final(out)@ == old(out)@ + crlf(),
{
    out.push(13u8);
    out.push(10u8);
    assert(out@ =~= old(out)@ + crlf());
}

/// Appends the decimal digits of `n`.
fn write_decimal(out: &mut Vec<u8>, n: u64)
    ensures
        final(out)@ == old(out)@ + decimal(n as nat),
    decreases n,
{
    let ghost start = out@;
    if n >= 10 {
        write_decimal(out, n / 10);
    }
    out.push(48u8 + (n % 10) as u8);
    proof {
        if n >= 10 {
            assert(out@ =~= start + decimal(n as nat));
        } else {
            assert(out@ =~= start + decimal(n as nat));
        }
    }
}

impl Value {
    /// Appends the canonical encoding of this value.
    pub fn write_to(&self, out: &mut Vec<u8>)
        ensures
            final(out)@ == old(out)@ + encode(self@),
        decreases self,
    {
        let ghost start = out@;
        match self {
            Value::Integer(n) => {
                out.push(58u8);
                if *n < 0 {
                    out.push(45u8);
                    let m: u64 = (-(*n as i128)) as u64;
                    write_decimal(out, m);
                } else {
                    write_decimal(out, *n as u64);
                }
                push_crlf(out);
                assert(out@ =~= start + encode(self@));
            },
            Value::SimpleString(s) => {
                out.push(43u8);
                push_all(out, s.as_slice());
                push_crlf(out);
                assert(out@ =~= start + encode(self@));
            },
            Value::Error(s) => {
                out.push(45u8);
                push_all(out, s.as_slice());
                push_crlf(out);
                assert(out@ =~= start + encode(self@));
            },
            Value::BulkString(s) => {
                out.push(36u8);
                write_decimal(out, s.len() as u64);
                push_crlf(out);
                push_all(out, s.as_slice());
                push_crlf(out);
                assert(out@ =~= start + encode(self@));
            },
            Value::NullBulkString => {
                out.push(36u8);
                out.push(45u8);
                out.push(49u8);
                push_crlf(out);
                assert(out@ =~= start + encode(self@));
            },
            Value::NullArray => {
                out.push(42u8);
                out.push(45u8);
                out.push(49u8);
                push_crlf(out);
                assert(out@ =~= start + encode(self@));
            },
            Value::Array(items) => {
                proof {
                    lemma_items_model(items@);
                }
                let ghost models = items_model(items@);
                out.push(42u8);
                write_decimal(out, items.len() as u64);
                push_crlf(out);
                let ghost header = out@;
                let mut i: usize = 0;
                while i < items.len()
                    invariant
                        i <= items.len(),
                        *self == Value::Array(*items),
                        models == items_model(items@),
                        models.len() == items@.len(),
                        forall|j: int| 0 <= j < items@.len() ==> #[trigger] models[j] == value_model(items@[j]),
                        out@ == header + encode_all(models.take(i as int)),
                    decreases items.len() - i,
                {
                    proof {
                        assert(decreases_to!(*self => self->Array_0));
                        assert(decreases_to!(*items => items@));
                        assert(decreases_to!(items@ => items@[i as int]));
                    }
                    items[i].write_to(out);
                    proof {
                        assert(models.take(i + 1).drop_last() =~= models.take(i as int));
                        assert(models.take(i + 1).last() == models[i as int]);
                    }
                    i = i + 1;
                    assert(out@ =~= header + encode_all(models.take(i as int)));
                }
                assert(models.take(i as int) =~= models);
                assert(out@ =~= start + encode(self@));
            },
        }
    }

    /// The canonical encoding of this value.
    pub fn to_bytes(&self) -> (r: Vec<u8>)
        ensures
            r@ == encode(self@),
    {
        let mut out: Vec<u8> = Vec::new();
        self.write_to(&mut out);
        assert(out@ =~= encode(self@));
        out
    }
}

} // verus!
