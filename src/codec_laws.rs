use vstd::prelude::*;

use crate::parse::{digits_value, find_crlf, int_line_value, is_digits, length_line_value, parse_at, parse_items, ParseError, MAX_LEN};
use crate::value::{crlf, decimal, encode, encode_all, signed_decimal, Resp};

verus! {

/// A byte string that holds neither CR nor LF.
pub open spec fn line_text(t: Seq<u8>) -> bool {
    forall|i: int| 0 <= i < t.len() ==> #[trigger] t[i] != 13 && t[i] != 10
}

/// A value that the wire format can carry: simple strings and errors hold no
/// line break, integers fit in 64 bits, lengths within the largest length.
pub open spec fn well_formed(v: Resp) -> bool
    decreases v,
{
    match v {
        Resp::Integer(n) => i64::MIN <= n <= i64::MAX,
        Resp::SimpleString(t) => line_text(t),
        Resp::Error(t) => line_text(t),
        Resp::BulkString(t) => t.len() <= MAX_LEN,
        Resp::NullBulkString => true,
        Resp::NullArray => true,
        Resp::Array(items) => items.len() <= MAX_LEN && all_well_formed(items),
    }
}

pub open spec fn all_well_formed(items: Seq<Resp>) -> bool
    decreases items,
{
    if items.len() == 0 {
        true
    } else {
        all_well_formed(items.drop_last()) && well_formed(items.last())
    }
}

proof fn lemma_decimal(n: nat)
    ensures
        is_digits(decimal(n)),
        digits_value(decimal(n)) == n,
        line_text(decimal(n)),
    decreases n,
{
    let d = decimal(n);
    if n >= 10 {
        lemma_decimal(n / 10);
        assert(d.drop_last() =~= decimal(n / 10));
        assert(d.last() == (48 + n % 10) as u8);
        assert(n == (n / 10) * 10 + n % 10);
        assert(digits_value(d) == digits_value(d.drop_last()) * 10 + (d.last() - 48) as nat);
        assert forall|i: int| 0 <= i < d.len() implies crate::parse::is_digit(#[trigger] d[i]) && d[i] != 13 && d[i] != 10 by {
            if i < d.len() - 1 {
                assert(d[i] == decimal(n / 10)[i]);
            }
        }
    } else {
        assert(d.drop_last() =~= Seq::<u8>::empty());
        assert(digits_value(d) == digits_value(d.drop_last()) * 10 + (d.last() - 48) as nat);
    }
}

proof fn lemma_find_crlf_at(s: Seq<u8>, from: nat, e: nat)
    requires
        from <= e,
        e + 1 < s.len(),
        s[e as int] == 13,
        s[(e + 1) as int] == 10,
        forall|i: int| from <= i < e ==> #[trigger] s[i] != 13,
    ensures
        find_crlf(s, from) == Some(e),
    decreases e - from,
{
    if from < e {
        lemma_find_crlf_at(s, from + 1, e);
    }
}

/// The encoding of `v` placed at `pos` in `s`.
pub open spec fn placed(s: Seq<u8>, pos: nat, b: Seq<u8>) -> bool {
    pos + b.len() <= s.len() && s.subrange(pos as int, (pos + b.len()) as int) == b
}

proof fn lemma_placed_split(s: Seq<u8>, pos: nat, a: Seq<u8>, b: Seq<u8>)
    requires
        placed(s, pos, a + b),
    ensures
        placed(s, pos, a),
        placed(s, pos + a.len(), b),
{
    let big = s.subrange(pos as int, (pos + a.len() + b.len()) as int);
    assert(big == a + b);
    assert forall|i: int| 0 <= i < a.len() implies #[trigger] s.subrange(pos as int, (pos + a.len()) as int)[i] == a[i] by {
        assert(s[pos + i] == big[i]);
    }
    assert forall|i: int| 0 <= i < b.len() implies #[trigger] s.subrange((pos + a.len()) as int, (pos + a.len() + b.len()) as int)[i] == b[i] by {
        assert(s[pos + a.len() + i] == big[a.len() + i]);
    }
    assert(s.subrange(pos as int, (pos + a.len()) as int) =~= a);
    assert(s.subrange((pos + a.len()) as int, (pos + a.len() + b.len()) as int) =~= b);
}

/// A line `text` CR LF placed after a tag byte at `pos` is found by the line search.
proof fn lemma_line(s: Seq<u8>, pos: nat, tag: u8, text: Seq<u8>)
    requires
        placed(s, pos, seq![tag] + text + crlf()),
        line_text(text),
    ensures
        s[pos as int] == tag,
        find_crlf(s, pos + 1) == Some((pos + 1 + text.len()) as nat),
        s.subrange((pos + 1) as int, (pos + 1 + text.len()) as int) == text,
{
    let b = seq![tag] + text + crlf();
    assert(s[pos as int] == s.subrange(pos as int, (pos + b.len()) as int)[0]);
    let e = (pos + 1 + text.len()) as nat;
    assert(s[e as int] == s.subrange(pos as int, (pos + b.len()) as int)[e - pos]);
    assert(s[(e + 1) as int] == s.subrange(pos as int, (pos + b.len()) as int)[e + 1 - pos]);
    assert forall|i: int| pos + 1 <= i < e implies #[trigger] s[i] != 13 by {
        assert(s[i] == s.subrange(pos as int, (pos + b.len()) as int)[i - pos]);
        assert(b[i - pos] == text[i - pos - 1]);
    }
    lemma_find_crlf_at(s, pos + 1, e);
    assert(s.subrange((pos + 1) as int, (pos + 1 + text.len()) as int) =~= b.subrange(1, 1 + text.len() as int));
}

proof fn lemma_encode_all_first(items: Seq<Resp>)
    requires
        items.len() > 0,
    ensures
        encode_all(items) == encode(items[0]) + encode_all(items.drop_first()),
        all_well_formed(items) ==> well_formed(items[0]) && all_well_formed(items.drop_first()),
    decreases items.len(),
{
    if items.len() == 1 {
        assert(items.drop_last() =~= Seq::<Resp>::empty());
        assert(items.drop_first() =~= Seq::<Resp>::empty());
        assert(encode_all(items) =~= encode(items[0]) + encode_all(items.drop_first()));
    } else {
        lemma_encode_all_first(items.drop_last());
        assert(items.drop_last().drop_first() =~= items.drop_first().drop_last());
        assert(items.drop_last()[0] == items[0]);
        assert(items.drop_first().last() == items.last());
        assert(encode_all(items) =~= encode(items[0]) + encode_all(items.drop_first()));
    }
}

/// Reading the values encoded one after another at `pos` gives them back.
pub proof fn parse_items_of_encoding(s: Seq<u8>, pos: nat, items: Seq<Resp>)
    requires
        all_well_formed(items),
        placed(s, pos, encode_all(items)),
    ensures
        parse_items(s, pos, items.len()) == Ok::<(Seq<Resp>, nat), ParseError>((items, pos + encode_all(items).len())),
    decreases items, 0int,
{
    if items.len() == 0 {
        assert(items =~= Seq::<Resp>::empty());
    } else {
        lemma_encode_all_first(items);
        let first = encode(items[0]);
        let rest = encode_all(items.drop_first());
        lemma_placed_split(s, pos, first, rest);
        assert(decreases_to!(items => items[0]));
        parse_of_encoding(s, pos, items[0]);
        parse_items_of_encoding(s, (pos + first.len()) as nat, items.drop_first());
        lemma_encode_nonempty(items[0]);
        assert(seq![items[0]] + items.drop_first() =~= items);
    }
}

proof fn lemma_encode_nonempty(v: Resp)
    ensures
        encode(v).len() > 0,
{
}

proof fn lemma_parse_integer(s: Seq<u8>, pos: nat, n: int)
    requires
        i64::MIN <= n <= i64::MAX,
        placed(s, pos, encode(Resp::Integer(n))),
    ensures
        parse_at(s, pos) == Ok::<(Resp, nat), ParseError>((Resp::Integer(n), pos + encode(Resp::Integer(n)).len())),
{
    let sd = signed_decimal(n);
    if n < 0 {
        lemma_decimal((-n) as nat);
        assert(sd.drop_first() =~= decimal((-n) as nat));
        assert(line_text(sd)) by {
            assert forall|i: int| 0 <= i < sd.len() implies #[trigger] sd[i] != 13 && sd[i] != 10 by {
                if i > 0 {
                    assert(sd[i] == decimal((-n) as nat)[i - 1]);
                }
            }
        }
    } else {
        lemma_decimal(n as nat);
        assert(is_digits(sd));
        assert(crate::parse::is_digit(sd[0]));
    }
    assert(int_line_value(sd) == Some(n));
    lemma_line(s, pos, 58, sd);
}

proof fn lemma_parse_null(s: Seq<u8>, pos: nat, v: Resp)
    requires
        v is NullBulkString || v is NullArray,
        placed(s, pos, encode(v)),
    ensures
        parse_at(s, pos) == Ok::<(Resp, nat), ParseError>((v, pos + encode(v).len())),
{
    let text = seq![45u8, 49u8];
    let tag: u8 = if v is NullBulkString { 36 } else { 42 };
    assert(encode(v) =~= seq![tag] + text + crlf());
    lemma_line(s, pos, tag, text);
    let one = text.drop_first();
    assert(one =~= seq![49u8]);
    assert(one.drop_last() =~= Seq::<u8>::empty());
    assert(digits_value(one.drop_last()) == 0);
    assert(one.last() == 49u8);
    assert(digits_value(one) == digits_value(one.drop_last()) * 10 + (one.last() - 48) as nat);
    assert(length_line_value(text) == Some(-1int));
}

proof fn lemma_parse_bulk(s: Seq<u8>, pos: nat, t: Seq<u8>)
    requires
        t.len() <= MAX_LEN,
        placed(s, pos, encode(Resp::BulkString(t))),
    ensures
        parse_at(s, pos) == Ok::<(Resp, nat), ParseError>((Resp::BulkString(t), pos + encode(Resp::BulkString(t)).len())),
{
    let d = decimal(t.len());
    lemma_decimal(t.len());
    assert(crate::parse::is_digit(d[0]));
    assert(length_line_value(d) == Some(t.len() as int));
    let head = seq![36u8] + d + crlf();
    assert(encode(Resp::BulkString(t)) =~= head + (t + crlf()));
    lemma_placed_split(s, pos, head, t + crlf());
    lemma_line(s, pos, 36, d);
    let next = (pos + head.len()) as nat;
    lemma_placed_split(s, next, t, crlf());
    let stop = next + t.len();
    assert(s[stop as int] == s.subrange(stop as int, (stop + 2) as int)[0]);
    assert(s[(stop + 1) as int] == s.subrange(stop as int, (stop + 2) as int)[1]);
}

/// Parsing the encoding of a well-formed value, wherever it stands, gives
/// the value back and ends exactly where the encoding ends.
pub proof fn parse_of_encoding(s: Seq<u8>, pos: nat, v: Resp)
    requires
        well_formed(v),
        placed(s, pos, encode(v)),
    ensures
        parse_at(s, pos) == Ok::<(Resp, nat), ParseError>((v, pos + encode(v).len())),
    decreases v, 1int,
{
    match v {
        Resp::SimpleString(t) => {
            lemma_line(s, pos, 43, t);
        },
        Resp::Error(t) => {
            lemma_line(s, pos, 45, t);
        },
        Resp::Integer(n) => {
            lemma_parse_integer(s, pos, n);
        },
        Resp::NullBulkString => {
            lemma_parse_null(s, pos, v);
        },
        Resp::NullArray => {
            lemma_parse_null(s, pos, v);
        },
        Resp::BulkString(t) => {
            lemma_parse_bulk(s, pos, t);
        },
        Resp::Array(items) => {
            let d = decimal(items.len());
            lemma_decimal(items.len());
            assert(crate::parse::is_digit(d[0]));
            assert(length_line_value(d) == Some(items.len() as int));
            let head = seq![42u8] + d + crlf();
            assert(encode(v) =~= head + encode_all(items));
            lemma_placed_split(s, pos, head, encode_all(items));
            lemma_line(s, pos, 42, d);
            assert(decreases_to!(v => items));
            parse_items_of_encoding(s, (pos + head.len()) as nat, items);
        },
    }
}

/// The canonical encoding of a well-formed value parses back to it and is
/// consumed whole.
pub proof fn codec_round_trip(v: Resp)
    requires
        well_formed(v),
    ensures
        parse_at(encode(v), 0) == Ok::<(Resp, nat), ParseError>((v, encode(v).len())),
{
    assert(encode(v).subrange(0, encode(v).len() as int) =~= encode(v));
    parse_of_encoding(encode(v), 0, v);
}

} // verus!
