use vstd::prelude::*;

use crate::value::{items_model, Resp, Value};

verus! {

/// Why no value could be read.
#[derive(Debug, Clone, Copy, PartialEq, Eq)]
pub enum ParseError {
    /// The bytes so far are the start of a value; more are needed.
    Incomplete,
    /// The bytes cannot start any value.
    InvalidInput,
}

pub open spec fn is_digit(b: u8) -> bool {
    48 <= b <= 57
}

/// One or more decimal digits.
pub open spec fn is_digits(d: Seq<u8>) -> bool {
    d.len() > 0 && forall|i: int| 0 <= i < d.len() ==> is_digit(#[trigger] d[i])
}

/// The number that a run of decimal digits denotes.
pub open spec fn digits_value(d: Seq<u8>) -> nat
    decreases d.len(),
{
    if d.len() == 0 {
        0
    } else {
        digits_value(d.drop_last()) * 10 + (d.last() - 48) as nat
    }
}

pub open spec fn i64_magnitude_limit(negative: bool) -> nat {
    if negative {
        9223372036854775808
    } else {
        9223372036854775807
    }
}

/// The integer on an integer line: digits with an optional leading `-`,
/// within the range of a signed 64-bit integer.
pub open spec fn int_line_value(line: Seq<u8>) -> Option<int> {
    if line.len() > 0 && line[0] == 45 {
        let d = line.drop_first();
        if is_digits(d) && digits_value(d) <= i64_magnitude_limit(true) {
            Some(-(digits_value(d) as int))
        } else {
            None
        }
    } else if is_digits(line) && digits_value(line) <= i64_magnitude_limit(false) {
        Some(digits_value(line) as int)
    } else {
        None
    }
}

/// The largest length a bulk string or array header may announce.
pub const MAX_LEN: u64 = 2147483647;

/// The length on a header line: digits up to the largest length, or `-`
/// and digits whose value is 0 or 1, giving 0 or -1; every other negative
/// length is refused.
pub open spec fn length_line_value(line: Seq<u8>) -> Option<int> {
    if line.len() > 0 && line[0] == 45 {
        let d = line.drop_first();
        if is_digits(d) && digits_value(d) <= 1 {
            Some(-(digits_value(d) as int))
        } else {
            None
        }
    } else if is_digits(line) && digits_value(line) <= MAX_LEN {
        Some(digits_value(line) as int)
    } else {
        None
    }
}

/// The first position at or after `from` where CR LF begins.
pub open spec fn find_crlf(s: Seq<u8>, from: nat) -> Option<nat>
    decreases s.len() - from,
{
    if from + 1 >= s.len() {
        None
    } else if s[from as int] == 13 && s[(from + 1) as int] == 10 {
        Some(from)
    } else {
        find_crlf(s, from + 1)
    }
}

pub open spec fn is_tag(b: u8) -> bool {
    b == 58 || b == 43 || b == 45 || b == 36 || b == 42
}

/// The value that starts at `pos` in `s`, and the position just past it.
pub open spec fn parse_at(s: Seq<u8>, pos: nat) -> Result<(Resp, nat), ParseError>
    decreases s.len() - pos, 0int,
{
    if pos >= s.len() {
        Err(ParseError::Incomplete)
    } else if !is_tag(s[pos as int]) {
        Err(ParseError::InvalidInput)
    } else {
        let tag = s[pos as int];
        match find_crlf(s, pos + 1) {
            None => Err(ParseError::Incomplete),
            Some(e) => {
                let line = s.subrange((pos + 1) as int, e as int);
                let next = e + 2;
                if tag == 43 {
                    Ok((Resp::SimpleString(line), next))
                } else if tag == 45 {
                    Ok((Resp::Error(line), next))
                } else if tag == 58 {
                    match int_line_value(line) {
                        Some(n) => Ok((Resp::Integer(n), next)),
                        None => Err(ParseError::InvalidInput),
                    }
                } else {
                    match length_line_value(line) {
                        None => Err(ParseError::InvalidInput),
                        Some(l) => {
                            if l == -1 {
                                if tag == 36 {
                                    Ok((Resp::NullBulkString, next))
                                } else {
                                    Ok((Resp::NullArray, next))
                                }
                            } else if tag == 36 {
                                let stop = next + l;
                                if stop + 2 > s.len() {
                                    Err(ParseError::Incomplete)
                                } else if s[stop] == 13 && s[stop + 1] == 10 {
                                    Ok((Resp::BulkString(s.subrange(next as int, stop)), (stop + 2) as nat))
                                } else {
                                    Err(ParseError::InvalidInput)
                                }
                            } else if pos < next <= s.len() {
                                match parse_items(s, next, l as nat) {
                                    Ok((items, end)) => Ok((Resp::Array(items), end)),
                                    Err(x) => Err(x),
                                }
                            } else {
                                Err(ParseError::Incomplete)
                            }
                        },
                    }
                }
            },
        }
    }
}

/// `count` values one after another from `pos`, and the position just past them.
pub open spec fn parse_items(s: Seq<u8>, pos: nat, count: nat) -> Result<(Seq<Resp>, nat), ParseError>
    decreases s.len() - pos, 1int,
{
    if count == 0 {
        Ok((Seq::empty(), pos))
    } else if pos > s.len() {
        Err(ParseError::Incomplete)
    } else {
        match parse_at(s, pos) {
            Err(x) => Err(x),
            Ok((v, e)) => {
                if pos < e <= s.len() {
                    match parse_items(s, e, (count - 1) as nat) {
                        Ok((rest, end)) => Ok((seq![v] + rest, end)),
                        Err(x) => Err(x),
                    }
                } else {
                    Err(ParseError::InvalidInput)
                }
            },
        }
    }
}

/// What a parse of `s` from its start must return.
pub open spec fn parse_outcome(s: Seq<u8>, r: Result<(Value, usize), ParseError>) -> bool {
    match r {
        Ok((v, n)) => parse_at(s, 0) == Ok::<(Resp, nat), ParseError>((v@, n as nat)),
        Err(x) => parse_at(s, 0) == Err::<(Resp, nat), ParseError>(x),
    }
}

proof fn lemma_digits_value_prefix(d: Seq<u8>, k: int)
    requires
        0 <= k <= d.len(),
    ensures
        digits_value(d.take(k)) <= digits_value(d) || exists|i: int| 0 <= i < d.len() && !is_digit(#[trigger] d[i]),
    decreases d.len() - k,
{
    if k < d.len() {
        if forall|i: int| 0 <= i < d.len() ==> is_digit(#[trigger] d[i]) {
            lemma_digits_value_prefix(d.drop_last(), k);
            assert(d.drop_last().take(k) =~= d.take(k));
            assert(is_digit(d[d.len() - 1]));
        }
    } else {
        assert(d.take(k) =~= d);
    }
}

/// The bytes of `s` from `start` up to `end`.
fn copy_range(s: &[u8], start: usize, end: usize) -> (r: Vec<u8>)
    requires
        start <= end <= s.len(),
    ensures
        r@ == s@.subrange(start as int, end as int),
{
    let mut out: Vec<u8> = Vec::new();
    let mut i: usize = start;
    while i < end
        invariant
            start <= i <= end,
            end <= s.len(),
            out@ == s@.subrange(start as int, i as int),
        decreases end - i,
    {
        out.push(s[i]);
        i = i + 1;
        assert(out@ =~= s@.subrange(start as int, i as int));
    }
    out
}

/// The position of the first CR LF at or after `from`.
fn read_until_crlf(s: &[u8], from: usize) -> (r: Option<usize>)
    requires
        from <= s.len(),
    ensures
        match r {
            Some(e) => find_crlf(s@, from as nat) == Some(e as nat),
            None => find_crlf(s@, from as nat) == None::<nat>,
        },
{
    let mut i: usize = from;
    while i < s.len() && s.len() - i > 1
        invariant
            from <= i <= s.len(),
            find_crlf(s@, from as nat) == find_crlf(s@, i as nat),
        decreases s.len() - i,
    {
        if s[i] == 13 && s[i + 1] == 10 {
            return Some(i);
        }
        i = i + 1;
    }
    None
}

/// The value of the digits of `s` from `start` up to `end`, if they are one
/// or more digits whose value is at most `limit`.
pub(crate) fn parse_digits(s: &[u8], start: usize, end: usize, limit: u64) -> (r: Option<u64>)
    requires
        start <= end <= s.len(),
    ensures
        ({
            let d = s@.subrange(start as int, end as int);
            r == if is_digits(d) && digits_value(d) <= limit {
                Some(digits_value(d) as u64)
            } else {
                None::<u64>
            }
        }),
{
    let ghost d = s@.subrange(start as int, end as int);
    if start == end {
        return None;
    }
    let mut acc: u64 = 0;
    let mut i: usize = start;
    while i < end
        invariant
            start <= i <= end,
            end <= s.len(),
            d == s@.subrange(start as int, end as int),
            acc as nat == digits_value(d.take(i - start)),
            acc <= limit,
            forall|j: int| 0 <= j < i - start ==> is_digit(#[trigger] d[j]),
        decreases end - i,
    {
        let b = s[i];
        if b < 48 || b > 57 {
            assert(!is_digit(d[i - start]));
            return None;
        }
        assert(d.take(i - start + 1).drop_last() =~= d.take(i - start));
        let next: u128 = acc as u128 * 10 + (b - 48) as u128;
        if next > limit as u128 {
            proof {
                lemma_digits_value_prefix(d, i - start + 1);
            }
            return None;
        }
        acc = next as u64;
        i = i + 1;
    }
    assert(d.take(i - start) =~= d);
    Some(acc)
}

/// The integer on the line of `s` from `start` up to `end`.
fn parse_integer(s: &[u8], start: usize, end: usize) -> (r: Option<i64>)
    requires
        start <= end <= s.len(),
    ensures
        match r {
            Some(n) => int_line_value(s@.subrange(start as int, end as int)) == Some(n as int),
            None => int_line_value(s@.subrange(start as int, end as int)) == None::<int>,
        },
{
    let ghost line = s@.subrange(start as int, end as int);
    if start < end && s[start] == 45 {
        assert(line.drop_first() =~= s@.subrange(start + 1, end as int));
        match parse_digits(s, start + 1, end, 9223372036854775808u64) {
            Some(m) => {
                let n: i64 = (-(m as i128)) as i64;
                Some(n)
            },
            None => None,
        }
    } else {
        match parse_digits(s, start, end, 9223372036854775807u64) {
            Some(m) => Some(m as i64),
            None => None,
        }
    }
}

/// The length on the header line of `s` from `start` up to `end`.
fn parse_len(s: &[u8], start: usize, end: usize) -> (r: Option<i64>)
    requires
        start <= end <= s.len(),
    ensures
        match r {
            Some(n) => length_line_value(s@.subrange(start as int, end as int)) == Some(n as int),
            None => length_line_value(s@.subrange(start as int, end as int)) == None::<int>,
        },
{
    let ghost line = s@.subrange(start as int, end as int);
    if start < end && s[start] == 45 {
        assert(line.drop_first() =~= s@.subrange(start + 1, end as int));
        match parse_digits(s, start + 1, end, 1) {
            Some(m) => Some(-(m as i64)),
            None => None,
        }
    } else {
        match parse_digits(s, start, end, MAX_LEN) {
            Some(m) => Some(m as i64),
            None => None,
        }
    }
}

/// What a parse of `s` from its start must return when no byte will follow
/// `s`: a value cut short is then malformed.
pub open spec fn parse_ended(s: Seq<u8>) -> Result<(Resp, nat), ParseError> {
    match parse_at(s, 0) {
        Err(ParseError::Incomplete) => Err(ParseError::InvalidInput),
        other => other,
    }
}

/// Reads wire values from bytes.
pub trait RedisParser {
    /// The value at the start of `input`, and how many bytes it takes.
    fn parse(&self, input: &[u8]) -> (r: Result<(Value, usize), ParseError>)
        ensures
            parse_outcome(input@, r),
    ;
}

/// The parser of the wire format.
pub struct RespParser;

impl RespParser {
    pub fn new() -> (r: Self) {
        RespParser
    }

    /// The value at the start of `input`, when the source of `input` has
    /// ended: bytes that stop inside a value, or no bytes at all, are
    /// `InvalidInput`.
    pub fn parse_final(&self, input: &[u8]) -> (r: Result<(Value, usize), ParseError>)
        ensures
            match r {
                Ok((v, n)) => parse_ended(input@) == Ok::<(Resp, nat), ParseError>((v@, n as nat)),
                Err(x) => parse_ended(input@) == Err::<(Resp, nat), ParseError>(x),
            },
    {
        match self.parse_value(input, 0) {
            Err(ParseError::Incomplete) => Err(ParseError::InvalidInput),
            other => other,
        }
    }

    /// The value that starts at `pos`, and the position just past it.
    fn parse_value(&self, s: &[u8], pos: usize) -> (r: Result<(Value, usize), ParseError>)
        requires
            pos <= s.len(),
        ensures
            match r {
                Ok((v, e)) => parse_at(s@, pos as nat) == Ok::<(Resp, nat), ParseError>((v@, e as nat)),
                Err(x) => parse_at(s@, pos as nat) == Err::<(Resp, nat), ParseError>(x),
            },
        decreases s.len() - pos,
    {
        if pos >= s.len() {
            return Err(ParseError::Incomplete);
        }
        let tag = s[pos];
        if !(tag == 58 || tag == 43 || tag == 45 || tag == 36 || tag == 42) {
            return Err(ParseError::InvalidInput);
        }
        let e = match read_until_crlf(s, pos + 1) {
            None => {
                return Err(ParseError::Incomplete);
            },
            Some(e) => e,
        };
        proof {
            lemma_find_crlf_bounds(s@, (pos + 1) as nat);
        }
        let next = e + 2;
        if tag == 43 {
            Ok((Value::SimpleString(copy_range(s, pos + 1, e)), next))
        } else if tag == 45 {
            Ok((Value::Error(copy_range(s, pos + 1, e)), next))
        } else if tag == 58 {
            match parse_integer(s, pos + 1, e) {
                Some(n) => Ok((Value::Integer(n), next)),
                None => Err(ParseError::InvalidInput),
            }
        } else {
            match parse_len(s, pos + 1, e) {
                None => Err(ParseError::InvalidInput),
                Some(l) => {
                    if l == -1 {
                        if tag == 36 {
                            Ok((Value::NullBulkString, next))
                        } else {
                            Ok((Value::NullArray, next))
                        }
                    } else if tag == 36 {
                        self.parse_bulk_string(s, next, l as usize)
                    } else {
                        self.parse_array(s, pos, next, l as usize)
                    }
                },
            }
        }
    }

    /// A bulk string body of `len` bytes from `start`, then CR LF.
    fn parse_bulk_string(&self, s: &[u8], start: usize, len: usize) -> (r: Result<(Value, usize), ParseError>)
        requires
            start <= s.len(),
        ensures
            match r {
                Ok((v, e)) => start + len + 2 <= s.len()
                    && s@[start + len] == 13 && s@[start + len + 1] == 10
                    && v@ == Resp::BulkString(s@.subrange(start as int, start + len))
                    && e == start + len + 2,
                Err(x) => if start + len + 2 > s.len() {
                    x == ParseError::Incomplete
                } else {
                    x == ParseError::InvalidInput && !(s@[start + len] == 13 && s@[start + len + 1] == 10)
                },
            },
    {
        if len > s.len() - start || s.len() - start - len < 2 {
            return Err(ParseError::Incomplete);
        }
        let stop = start + len;
        if s[stop] == 13 && s[stop + 1] == 10 {
            Ok((Value::BulkString(copy_range(s, start, stop)), stop + 2))
        } else {
            Err(ParseError::InvalidInput)
        }
    }

    /// `len` values from `start`, the header of the array having begun at `pos`.
    fn parse_array(&self, s: &[u8], pos: usize, start: usize, len: usize) -> (r: Result<(Value, usize), ParseError>)
        requires
            pos < start <= s.len(),
        ensures
            match r {
                Ok((v, e)) => parse_items(s@, start as nat, len as nat) == Ok::<(Seq<Resp>, nat), ParseError>((v@->Array_0, e as nat))
                    && v@ is Array,
                Err(x) => parse_items(s@, start as nat, len as nat) == Err::<(Seq<Resp>, nat), ParseError>(x),
            },
        decreases s.len() - pos, 1int,
    {
        let mut items: Vec<Value> = Vec::new();
        let mut p: usize = start;
        let mut k: usize = 0;
        while k < len
            invariant
                pos < start <= p <= s.len(),
                k <= len,
                items@.len() == k,
                parse_items(s@, start as nat, len as nat) == match parse_items(s@, p as nat, (len - k) as nat) {
                    Ok((rest, end)) => Ok::<(Seq<Resp>, nat), ParseError>((items_model(items@) + rest, end)),
                    Err(x) => Err::<(Seq<Resp>, nat), ParseError>(x),
                },
            decreases len - k,
        {
            let ghost before = items_model(items@);
            let ghost old_items = items@;
            match self.parse_value(s, p) {
                Err(x) => {
                    return Err(x);
                },
                Ok((v, e)) => {
                    if !(p < e && e <= s.len()) {
                        return Err(ParseError::InvalidInput);
                    }
                    let ghost vm = v@;
                    items.push(v);
                    proof {
                        assert(items@.drop_last() =~= old_items);
                        assert(items_model(items@) == before.push(vm));
                        match parse_items(s@, e as nat, (len - k - 1) as nat) {
                            Ok((rest, end)) => {
                                assert(before + (seq![vm] + rest) =~= before.push(vm) + rest);
                            },
                            Err(_) => {},
                        }
                    }
                    p = e;
                    k = k + 1;
                },
            }
        }
        assert(items_model(items@) + Seq::<Resp>::empty() =~= items_model(items@));
        Ok((Value::Array(items), p))
    }
}

proof fn lemma_find_crlf_bounds(s: Seq<u8>, from: nat)
    ensures
        find_crlf(s, from) matches Some(e) ==> from <= e && e + 2 <= s.len() && s[e as int] == 13 && s[(e + 1) as int] == 10,
    decreases s.len() - from,
{
    if from + 1 < s.len() && !(s[from as int] == 13 && s[(from + 1) as int] == 10) {
        lemma_find_crlf_bounds(s, from + 1);
    }
}

impl RedisParser for RespParser {
    fn parse(&self, input: &[u8]) -> (r: Result<(Value, usize), ParseError>) {
        self.parse_value(input, 0)
    }
}

} // verus!
