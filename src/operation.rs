use vstd::prelude::*;

use crate::parse::{digits_value, is_digits, parse_digits};
use crate::value::{items_model, Resp, Value};

verus! {

/// Options of a SET: how long the entry lives, in milliseconds.
#[derive(Debug, Clone, Copy, PartialEq, Eq)]
pub struct SetOptions {
    pub expiration: Option<u128>,
}

/// A command read from a client.
#[derive(Debug, PartialEq, Eq)]
pub enum Operation {
    Ping,
    Echo(Vec<u8>),
    Get(Vec<u8>),
    SetEntry(Vec<u8>, Vec<u8>, SetOptions),
    /// A malformed command, with a description for the client.
    Invalid(Vec<u8>),
}

/// The mathematical content of a command.
pub enum OpModel {
    Ping,
    Echo(Seq<u8>),
    Get(Seq<u8>),
    SetEntry(Seq<u8>, Seq<u8>, Option<nat>),
    Invalid(Seq<u8>),
}

impl View for Operation {
    type V = OpModel;

    open spec fn view(&self) -> OpModel {
        match self {
            Operation::Ping => OpModel::Ping,
            Operation::Echo(s) => OpModel::Echo(s@),
            Operation::Get(k) => OpModel::Get(k@),
            Operation::SetEntry(k, v, o) => OpModel::SetEntry(
                k@,
                v@,
                match o.expiration {
                    Some(ms) => Some(ms as nat),
                    None => None,
                },
            ),
            Operation::Invalid(m) => OpModel::Invalid(m@),
        }
    }
}

pub open spec fn ascii_lower(b: u8) -> u8 {
    if 65 <= b <= 90 {
        (b + 32) as u8
    } else {
        b
    }
}

/// `s` equals the lower-case `word` when ASCII letters are lowered.
pub open spec fn same_word(s: Seq<u8>, word: Seq<u8>) -> bool {
    s.len() == word.len() && forall|i: int| 0 <= i < s.len() ==> ascii_lower(#[trigger] s[i]) == word[i]
}

/// ASCII letters of `s` in lower case.
pub open spec fn lower_all(s: Seq<u8>) -> Seq<u8> {
    s.map_values(|b: u8| ascii_lower(b))
}

/// `Invalid or corrupt input`: the reply to a value that is not a command.
pub open spec fn corrupt_msg() -> Seq<u8> {
    seq![73u8, 110u8, 118u8, 97u8, 108u8, 105u8, 100u8, 32u8, 111u8, 114u8, 32u8, 99u8, 111u8, 114u8, 114u8, 117u8, 112u8, 116u8, 32u8, 105u8, 110u8, 112u8, 117u8, 116u8]
}

/// `Unknown operation `, followed in the reply by the lowered name.
pub open spec fn unknown_prefix() -> Seq<u8> {
    seq![85u8, 110u8, 107u8, 110u8, 111u8, 119u8, 110u8, 32u8, 111u8, 112u8, 101u8, 114u8, 97u8, 116u8, 105u8, 111u8, 110u8, 32u8]
}

/// `Invalid syntax for `, followed in the reply by the command's name.
pub open spec fn syntax_prefix() -> Seq<u8> {
    seq![73u8, 110u8, 118u8, 97u8, 108u8, 105u8, 100u8, 32u8, 115u8, 121u8, 110u8, 116u8, 97u8, 120u8, 32u8, 102u8, 111u8, 114u8, 32u8]
}

/// The reply to a known command `word` with the wrong arguments.
pub open spec fn syntax_msg(word: Seq<u8>) -> Seq<u8> {
    syntax_prefix() + word
}

pub open spec fn word_ping() -> Seq<u8> {
    seq![112u8, 105u8, 110u8, 103u8]
}

pub open spec fn word_echo() -> Seq<u8> {
    seq![101u8, 99u8, 104u8, 111u8]
}

pub open spec fn word_get() -> Seq<u8> {
    seq![103u8, 101u8, 116u8]
}

pub open spec fn word_set() -> Seq<u8> {
    seq![115u8, 101u8, 116u8]
}

pub open spec fn word_ex() -> Seq<u8> {
    seq![101u8, 120u8]
}

pub open spec fn word_px() -> Seq<u8> {
    seq![112u8, 120u8]
}

pub open spec fn all_bulk(items: Seq<Resp>) -> bool {
    forall|i: int| 0 <= i < items.len() ==> (#[trigger] items[i]) is BulkString
}

/// The time to live that a SET with unit `unit` and amount `amount` asks for, in milliseconds.
pub open spec fn ttl_of(unit: Seq<u8>, amount: Seq<u8>) -> Option<nat> {
    if !(is_digits(amount) && digits_value(amount) <= u64::MAX) {
        None
    } else if same_word(unit, word_ex()) {
        Some(digits_value(amount) * 1000)
    } else if same_word(unit, word_px()) {
        Some(digits_value(amount))
    } else {
        None
    }
}

pub open spec fn resolve_set(items: Seq<Resp>) -> OpModel {
    if !all_bulk(items) {
        OpModel::Invalid(syntax_msg(word_set()))
    } else if items.len() == 3 {
        OpModel::SetEntry(items[1]->BulkString_0, items[2]->BulkString_0, None)
    } else if items.len() == 5 {
        match ttl_of(items[3]->BulkString_0, items[4]->BulkString_0) {
            Some(ms) => OpModel::SetEntry(items[1]->BulkString_0, items[2]->BulkString_0, Some(ms)),
            None => OpModel::Invalid(syntax_msg(word_set())),
        }
    } else {
        OpModel::Invalid(syntax_msg(word_set()))
    }
}

/// The command that a wire value asks for.
pub open spec fn resolve(v: Resp) -> OpModel {
    match v {
        Resp::Array(items) => {
            if items.len() == 0 || !(items[0] is BulkString) {
                OpModel::Invalid(corrupt_msg())
            } else {
                let op = items[0]->BulkString_0;
                if same_word(op, word_ping()) {
                    if items.len() == 1 {
                        OpModel::Ping
                    } else {
                        OpModel::Invalid(syntax_msg(word_ping()))
                    }
                } else if same_word(op, word_echo()) {
                    if items.len() == 2 && items[1] is BulkString {
                        OpModel::Echo(items[1]->BulkString_0)
                    } else {
                        OpModel::Invalid(syntax_msg(word_echo()))
                    }
                } else if same_word(op, word_get()) {
                    if items.len() == 2 && all_bulk(items) {
                        OpModel::Get(items[1]->BulkString_0)
                    } else {
                        OpModel::Invalid(syntax_msg(word_get()))
                    }
                } else if same_word(op, word_set()) {
                    resolve_set(items)
                } else {
                    OpModel::Invalid(unknown_prefix() + lower_all(op))
                }
            }
        },
        _ => OpModel::Invalid(corrupt_msg()),
    }
}

/// Whether `s` is `word` up to ASCII case; `word` is lower case.
fn is_word(s: &[u8], word: &[u8]) -> (r: bool)
    ensures
        r == same_word(s@, word@),
{
    if s.len() != word.len() {
        return false;
    }
    let mut i: usize = 0;
    while i < s.len()
        invariant
            i <= s.len(),
            s.len() == word.len(),
            forall|j: int| 0 <= j < i ==> ascii_lower(#[trigger] s@[j]) == word@[j],
        decreases s.len() - i,
    {
        let b = s[i];
        let lower = if 65 <= b && b <= 90 { b + 32 } else { b };
        if lower != word[i] {
            return false;
        }
        i = i + 1;
    }
    true
}

/// ASCII letters of `s` in lower case.
fn lowercase(s: &[u8]) -> (r: Vec<u8>)
    ensures
        r@ == lower_all(s@),
{
    let mut out: Vec<u8> = Vec::new();
    let mut i: usize = 0;
    while i < s.len()
        invariant
            i <= s.len(),
            out@.len() == i,
            forall|j: int| 0 <= j < i ==> out@[j] == ascii_lower(#[trigger] s@[j]),
        decreases s.len() - i,
    {
        let b = s[i];
        out.push(if 65 <= b && b <= 90 { b + 32 } else { b });
        i = i + 1;
    }
    assert(out@ =~= lower_all(s@));
    out
}

fn corrupt_input() -> (r: Operation)
    ensures
        r@ == OpModel::Invalid(corrupt_msg()),
{
    let m: Vec<u8> = vec![73u8, 110u8, 118u8, 97u8, 108u8, 105u8, 100u8, 32u8, 111u8, 114u8, 32u8, 99u8, 111u8, 114u8, 114u8, 117u8, 112u8, 116u8, 32u8, 105u8, 110u8, 112u8, 117u8, 116u8];
    assert(m@ =~= corrupt_msg());
    Operation::Invalid(m)
}

/// The command is `word`, but its arguments do not fit it.
fn syntax_error(word: &[u8]) -> (r: Operation)
    ensures
        r@ == OpModel::Invalid(syntax_msg(word@)),
{
    let mut m: Vec<u8> = vec![73u8, 110u8, 118u8, 97u8, 108u8, 105u8, 100u8, 32u8, 115u8, 121u8, 110u8, 116u8, 97u8, 120u8, 32u8, 102u8, 111u8, 114u8, 32u8];
    assert(m@ =~= syntax_prefix());
    crate::value::push_all(&mut m, word);
    Operation::Invalid(m)
}

/// No command is named `op`.
fn unknown_operation(op: &[u8]) -> (r: Operation)
    ensures
        r@ == OpModel::Invalid(unknown_prefix() + lower_all(op@)),
{
    let mut m: Vec<u8> = vec![85u8, 110u8, 107u8, 110u8, 111u8, 119u8, 110u8, 32u8, 111u8, 112u8, 101u8, 114u8, 97u8, 116u8, 105u8, 111u8, 110u8, 32u8];
    assert(m@ =~= unknown_prefix());
    let mut lowered = lowercase(op);
    m.append(&mut lowered);
    Operation::Invalid(m)
}

/// Turns wire values into commands.
pub trait OperationDeducer {
    fn deduce_operation(&self, value: &Value) -> (r: Operation)
        ensures
            r@ == resolve(value@),
    ;
}

/// The resolver of PING, ECHO, GET and SET.
pub struct StandardOperationDeducer;

impl StandardOperationDeducer {
    pub fn new() -> (r: Self) {
        StandardOperationDeducer
    }

    fn deduce_echo(&self, tokens: &Vec<Value>, word: &Vec<u8>) -> (r: Operation)
        requires
            tokens@.len() > 0,
            word@ == word_echo(),
        ensures
            r@ == (if tokens@.len() == 2 && items_model(tokens@)[1] is BulkString {
                OpModel::Echo(items_model(tokens@)[1]->BulkString_0)
            } else {
                OpModel::Invalid(syntax_msg(word_echo()))
            }),
    {
        proof {
            crate::value::lemma_items_model(tokens@);
        }
        if tokens.len() == 2 {
            if let Value::BulkString(s) = &tokens[1] {
                return Operation::Echo(s.clone());
            }
        }
        syntax_error(word.as_slice())
    }

    fn deduce_get(&self, tokens: &Vec<Value>, word: &Vec<u8>) -> (r: Operation)
        requires
            tokens@.len() > 0,
            word@ == word_get(),
        ensures
            r@ == (if tokens@.len() == 2 && all_bulk(items_model(tokens@)) {
                OpModel::Get(items_model(tokens@)[1]->BulkString_0)
            } else {
                OpModel::Invalid(syntax_msg(word_get()))
            }),
    {
        proof {
            crate::value::lemma_items_model(tokens@);
        }
        if tokens.len() == 2 {
            match (&tokens[0], &tokens[1]) {
                (Value::BulkString(_), Value::BulkString(key)) => {
                    return Operation::Get(key.clone());
                },
                _ => {
                    proof {
                        let m = items_model(tokens@);
                        assert(!(m[0] is BulkString) || !(m[1] is BulkString));
                    }
                },
            }
        }
        syntax_error(word.as_slice())
    }

    fn deduce_set(&self, tokens: &Vec<Value>, word: &Vec<u8>) -> (r: Operation)
        requires
            word@ == word_set(),
        ensures
            r@ == resolve_set(items_model(tokens@)),
    {
        proof {
            crate::value::lemma_items_model(tokens@);
        }
        let ghost m = items_model(tokens@);
        let n = tokens.len();
        if n != 3 && n != 5 {
            return syntax_error(word.as_slice());
        }
        let mut i: usize = 0;
        while i < n
            invariant
                i <= n,
                n == tokens@.len(),
                m == items_model(tokens@),
                m.len() == n,
                forall|j: int| 0 <= j < n ==> #[trigger] m[j] == crate::value::value_model(tokens@[j]),
                forall|j: int| 0 <= j < i ==> (#[trigger] m[j]) is BulkString,
                word@ == word_set(),
            decreases n - i,
        {
            if let Value::BulkString(_) = &tokens[i] {
                i = i + 1;
            } else {
                proof {
                    assert(!(m[i as int] is BulkString));
                }
                return syntax_error(word.as_slice());
            }
        }
        let (key, val) = match (&tokens[1], &tokens[2]) {
            (Value::BulkString(k), Value::BulkString(v)) => (k.clone(), v.clone()),
            _ => {
                return syntax_error(word.as_slice());
            },
        };
        if n == 3 {
            return Operation::SetEntry(key, val, SetOptions { expiration: None });
        }
        let (unit, amount) = match (&tokens[3], &tokens[4]) {
            (Value::BulkString(u), Value::BulkString(a)) => (u, a),
            _ => {
                return syntax_error(word.as_slice());
            },
        };
        let count = match parse_digits(amount.as_slice(), 0, amount.len(), u64::MAX) {
            Some(c) => c,
            None => {
                proof {
                    assert(amount@.subrange(0, amount@.len() as int) =~= amount@);
                }
                return syntax_error(word.as_slice());
            },
        };
        proof {
            assert(amount@.subrange(0, amount@.len() as int) =~= amount@);
        }
        let ex: Vec<u8> = vec![101u8, 120u8];
        let px: Vec<u8> = vec![112u8, 120u8];
        proof {
            assert(ex@ =~= word_ex());
            assert(px@ =~= word_px());
        }
        if is_word(unit.as_slice(), ex.as_slice()) {
            Operation::SetEntry(key, val, SetOptions { expiration: Some(count as u128 * 1000) })
        } else if is_word(unit.as_slice(), px.as_slice()) {
            Operation::SetEntry(key, val, SetOptions { expiration: Some(count as u128) })
        } else {
            syntax_error(word.as_slice())
        }
    }
}

impl OperationDeducer for StandardOperationDeducer {
    fn deduce_operation(&self, input: &Value) -> (r: Operation) {
        let tokens = match input {
            Value::Array(tokens) => tokens,
            _ => {
                return corrupt_input();
            },
        };
        proof {
            crate::value::lemma_items_model(tokens@);
        }
        if tokens.len() == 0 {
            return corrupt_input();
        }
        let op = match &tokens[0] {
            Value::BulkString(op) => op,
            _ => {
                return corrupt_input();
            },
        };
        let ping: Vec<u8> = vec![112u8, 105u8, 110u8, 103u8];
        let echo: Vec<u8> = vec![101u8, 99u8, 104u8, 111u8];
        let get: Vec<u8> = vec![103u8, 101u8, 116u8];
        let set: Vec<u8> = vec![115u8, 101u8, 116u8];
        proof {
            assert(ping@ =~= word_ping());
            assert(echo@ =~= word_echo());
            assert(get@ =~= word_get());
            assert(set@ =~= word_set());
        }
        if is_word(op.as_slice(), ping.as_slice()) {
            if tokens.len() == 1 {
                Operation::Ping
            } else {
                syntax_error(ping.as_slice())
            }
        } else if is_word(op.as_slice(), echo.as_slice()) {
            self.deduce_echo(tokens, &echo)
        } else if is_word(op.as_slice(), get.as_slice()) {
            self.deduce_get(tokens, &get)
        } else if is_word(op.as_slice(), set.as_slice()) {
            self.deduce_set(tokens, &set)
        } else {
            unknown_operation(op.as_slice())
        }
    }
}

} // verus!
