use rand::seq::IteratorRandom;
use vstd::prelude::*;

use crate::dataframe::{frame_data, frame_expired, DataFrame, FrameModel};
use crate::operation::{resolve, OpModel, Operation, OperationDeducer, SetOptions, StandardOperationDeducer};
use crate::parse::{parse_at, parse_ended, ParseError, RedisParser, RespParser};
use crate::store::{ConcurrentHashtable, Store};
use crate::value::{encode, Resp, Value};

verus! {

/// How many shards the store of a server has.
pub const DEFAULT_SHARDS: usize = 100000;

/// Milliseconds between two runs of the expiration sweep.
pub const CLEANER_TASK_FREQUENCY: u64 = 10;

/// How many expiring entries one sweep round samples.
pub const CLEANER_TASK_SAMPLE_SIZE: usize = 20;

/// A round is repeated while more than one in this many samples was removed.
pub const CLEANER_TASK_SUCCESS_FACTOR: usize = 4;

pub open spec fn pong() -> Seq<u8> {
    seq![80u8, 79u8, 78u8, 71u8]
}

pub open spec fn ok() -> Seq<u8> {
    seq![79u8, 75u8]
}

/// The reply to a GET that found `found` at clock reading `now`, and whether
/// the entry is to be dropped as expired.
pub open spec fn get_reply(found: Option<FrameModel>, now: nat) -> (Resp, bool) {
    match found {
        None => (Resp::NullBulkString, false),
        Some(f) => if frame_expired(f, now) {
            (Resp::NullBulkString, true)
        } else {
            (Resp::BulkString(frame_data(f)), false)
        },
    }
}

/// What a reply to `op` may be. A GET reads the shared store, so its reply is
/// the value found there or null; every other command has one reply, an
/// invalid one its message as an error.
pub open spec fn reply_fits(op: OpModel, reply: Resp) -> bool {
    match op {
        OpModel::Ping => reply == Resp::SimpleString(pong()),
        OpModel::Echo(s) => reply == Resp::BulkString(s),
        OpModel::SetEntry(..) => reply == Resp::SimpleString(ok()),
        OpModel::Get(_) => reply is NullBulkString || reply is BulkString,
        OpModel::Invalid(m) => reply == Resp::Error(m),
    }
}

/// The bytes of a reply to `op`: the encoding of a reply that fits it.
pub open spec fn reply_bytes_fit(op: OpModel, out: Seq<u8>) -> bool {
    exists|reply: Resp| reply_fits(op, reply) && out == encode(reply)
}

/// Unanswered bytes beyond which a connection that still lacks a whole
/// request is closed.
pub const MAX_PENDING: usize = 67108864;

/// What a connection does next.
#[derive(Debug, PartialEq, Eq)]
pub enum ConnAction {
    /// Write these bytes back, then drop this many bytes of the request.
    Reply(Vec<u8>, usize),
    /// Wait for more bytes.
    ReadMore,
    /// Close the connection without a reply.
    Close,
}

/// The next action of a connection holding the unanswered bytes `pending`,
/// `ended` telling whether its peer will send no more.
pub open spec fn step_fits(pending: Seq<u8>, ended: bool, a: ConnAction) -> bool {
    let outcome = if ended {
        parse_ended(pending)
    } else {
        parse_at(pending, 0)
    };
    match outcome {
        Ok((v, n)) => match a {
            ConnAction::Reply(out, m) => m == n && reply_bytes_fit(resolve(v), out@),
            _ => false,
        },
        Err(ParseError::Incomplete) => if pending.len() > MAX_PENDING {
            a is Close
        } else {
            a is ReadMore
        },
        Err(ParseError::InvalidInput) => a is Close,
    }
}

/// The outcome of one sweep round.
#[derive(Debug, Clone, Copy, PartialEq, Eq)]
pub struct SweepReport {
    /// Expiring entries seen in the store.
    pub candidates: usize,
    /// Expiring entries sampled.
    pub sampled: usize,
    /// Sampled entries found expired, whose keys went to the store for removal.
    pub due: usize,
    /// Sampled entries removed as expired.
    pub removed: usize,
    /// Whether enough were removed to run another round at once.
    pub repeat: bool,
}

/// Relies on rand's `IteratorRandom::choose_multiple` with the thread-local
/// generator over the indices `0..n`: it returns `amount` of them, or all when
/// there are fewer, each index taken from a distinct position of the range.
#[verifier::external_body]
fn sample_indices(n: usize, amount: usize) -> (r: Vec<usize>)
    ensures
        r@.len() == if n < amount {
            n
        } else {
            amount
        },
        forall|i: int| 0 <= i < r@.len() ==> #[trigger] r@[i] < n,
        r@.no_duplicates(),
{
    (0..n).choose_multiple(&mut rand::thread_rng(), amount)
}

/// The reply to a GET that found `found` at clock reading `now`, and whether
/// the entry is expired and to be dropped.
pub fn get_reply_for(found: Option<&DataFrame>, now: u64) -> (r: (Value, bool))
    ensures
        (r.0@, r.1) == get_reply(
            match found {
                Some(f) => Some(f@),
                None => None,
            },
            now as nat,
        ),
{
    match found {
        None => (Value::NullBulkString, false),
        Some(f) => {
            if f.has_expired(now) {
                (Value::NullBulkString, true)
            } else {
                (Value::BulkString(f.data().clone()), false)
            }
        },
    }
}

/// The key, time to live and write time of each expiring entry, in order.
pub open spec fn candidates_of(entries: Seq<(Vec<u8>, DataFrame)>) -> Seq<(Seq<u8>, nat, nat)>
    decreases entries.len(),
{
    if entries.len() == 0 {
        Seq::empty()
    } else {
        let rest = candidates_of(entries.drop_last());
        match entries.last().1@ {
            FrameModel::Expiring { expiration, created_at, .. } => rest.push(
                (entries.last().0@, expiration, created_at),
            ),
            FrameModel::Plain(_) => rest,
        }
    }
}

/// The expiring entries among `entries`: key, time to live and write time.
pub fn expiring_candidates(entries: &Vec<(Vec<u8>, DataFrame)>) -> (r: Vec<(Vec<u8>, u128, u64)>)
    ensures
        r@.map_values(|c: (Vec<u8>, u128, u64)| (c.0@, c.1 as nat, c.2 as nat)) == candidates_of(entries@),
{
    let mut out: Vec<(Vec<u8>, u128, u64)> = Vec::new();
    let mut i: usize = 0;
    while i < entries.len()
        invariant
            i <= entries.len(),
            out@.map_values(|c: (Vec<u8>, u128, u64)| (c.0@, c.1 as nat, c.2 as nat)) == candidates_of(entries@.take(i as int)),
        decreases entries.len() - i,
    {
        let ghost before = out@;
        assert(entries@.take(i + 1).drop_last() =~= entries@.take(i as int));
        match &entries[i].1 {
            DataFrame::Expiring { expiration, timestamp, .. } => {
                out.push((entries[i].0.clone(), *expiration, *timestamp));
                assert(out@.map_values(|c: (Vec<u8>, u128, u64)| (c.0@, c.1 as nat, c.2 as nat)) =~= before.map_values(
                    |c: (Vec<u8>, u128, u64)| (c.0@, c.1 as nat, c.2 as nat),
                ).push((entries@[i as int].0@, *expiration as nat, *timestamp as nat)));
            },
            DataFrame::Plain(_) => {},
        }
        i = i + 1;
    }
    assert(entries@.take(i as int) =~= entries@);
    out
}

/// The entry that a SET of `val` with `options` writes at clock reading `now`.
pub open spec fn frame_spec(val: Seq<u8>, expiration: Option<u128>, now: nat) -> FrameModel {
    match expiration {
        Some(ms) => FrameModel::Expiring { data: val, expiration: ms as nat, created_at: now },
        None => FrameModel::Plain(val),
    }
}

/// The entry that a SET of `val` with `options` writes at clock reading `now`.
pub fn frame_for(val: Vec<u8>, options: SetOptions, now: u64) -> (r: DataFrame)
    ensures
        r@ == frame_spec(val@, options.expiration, now as nat),
{
    match options.expiration {
        Some(expiration) => DataFrame::with_expiration(val, expiration, now),
        None => DataFrame::plain(val),
    }
}

/// The keys of the picked candidates that are expired at `now`, in the
/// order of `picks`.
pub open spec fn due_keys(candidates: Seq<(Vec<u8>, u128, u64)>, picks: Seq<usize>, now: nat) -> Seq<Seq<u8>>
    decreases picks.len(),
{
    if picks.len() == 0 {
        Seq::empty()
    } else {
        let rest = due_keys(candidates, picks.drop_last(), now);
        let c = candidates[picks.last() as int];
        if now >= c.2 + c.1 {
            rest.push(c.0@)
        } else {
            rest
        }
    }
}

/// The keys of the candidates at `picks` whose entries are expired at `now`,
/// in the order of `picks`.
pub fn keys_to_expire(candidates: &Vec<(Vec<u8>, u128, u64)>, picks: &Vec<usize>, now: u64) -> (r: Vec<Vec<u8>>)
    requires
        forall|j: int| 0 <= j < picks@.len() ==> #[trigger] picks@[j] < candidates@.len(),
    ensures
        r@.map_values(|k: Vec<u8>| k@) == due_keys(candidates@, picks@, now as nat),
{
    let mut out: Vec<Vec<u8>> = Vec::new();
    let mut i: usize = 0;
    while i < picks.len()
        invariant
            i <= picks@.len(),
            forall|j: int| 0 <= j < picks@.len() ==> #[trigger] picks@[j] < candidates@.len(),
            out@.map_values(|k: Vec<u8>| k@) == due_keys(candidates@, picks@.take(i as int), now as nat),
        decreases picks.len() - i,
    {
        assert(picks@.take(i + 1).drop_last() =~= picks@.take(i as int));
        let ghost before = out@;
        let (key, expiration, timestamp) = &candidates[picks[i]];
        if now >= *timestamp && (now - *timestamp) as u128 >= *expiration {
            out.push(key.clone());
            assert(out@.map_values(|k: Vec<u8>| k@) =~= before.map_values(|k: Vec<u8>| k@).push(key@));
        }
        i = i + 1;
    }
    assert(picks@.take(i as int) =~= picks@);
    out
}

/// What every sweep round reports.
pub open spec fn round_fits(r: SweepReport) -> bool {
    &&& r.removed <= r.due <= r.sampled <= CLEANER_TASK_SAMPLE_SIZE
    &&& r.sampled == if r.candidates < CLEANER_TASK_SAMPLE_SIZE {
        r.candidates
    } else {
        CLEANER_TASK_SAMPLE_SIZE
    }
    &&& r.sampled < CLEANER_TASK_SAMPLE_SIZE ==> r.due == 0
    &&& r.repeat == repeat_round(r.sampled as nat, r.removed as nat)
}

/// The outcome of the sweep of one tick.
#[derive(Debug, Clone, Copy, PartialEq, Eq)]
pub struct TickReport {
    pub first: SweepReport,
    pub last: SweepReport,
    pub rounds: usize,
}

/// Whether a tick that has run `rounds` rounds, the last reported by
/// `last`, runs another within `budget` rounds.
pub fn sweep_again(last: &SweepReport, rounds: usize, budget: usize) -> (r: bool)
    ensures
        r == (last.repeat && rounds < budget),
{
    last.repeat && rounds < budget
}

/// Whether a round that sampled `sampled` entries and removed `removed` of
/// them calls for another round at once.
pub open spec fn repeat_round(sampled: nat, removed: nat) -> bool {
    sampled == CLEANER_TASK_SAMPLE_SIZE && removed > CLEANER_TASK_SAMPLE_SIZE / CLEANER_TASK_SUCCESS_FACTOR
}

/// A key/value server: parser, command resolver and shared store.
pub struct Server {
    port: String,
    parser: RespParser,
    deducer: StandardOperationDeducer,
    store: ConcurrentHashtable,
}

impl Server {
    pub closed spec fn wf(&self) -> bool {
        self.store.wf()
    }

    /// How many shards the store has.
    pub closed spec fn shard_count(&self) -> nat {
        self.store.shard_count()
    }

    pub closed spec fn spec_port(&self) -> Seq<char> {
        self.port@
    }

    /// A server for `port` with an empty store of the default shard count.
    pub fn new(port: String) -> (r: Self)
        ensures
            r.wf(),
            r.spec_port() == port@,
            r.shard_count() == DEFAULT_SHARDS,
    {
        Server {
            port,
            parser: RespParser::new(),
            deducer: StandardOperationDeducer::new(),
            store: ConcurrentHashtable::with_shards(DEFAULT_SHARDS),
        }
    }

    /// The port to listen on.
    pub fn port(&self) -> (r: &String)
        ensures
            r@ == self.spec_port(),
    {
        &self.port
    }

    /// The shared store.
    pub fn store(&self) -> (r: &ConcurrentHashtable)
        requires
            self.wf(),
        ensures
            r.wf(),
    {
        &self.store
    }

    /// Answers a GET of `key` at clock reading `now`. An entry found expired is
    /// dropped, under its shard's lock and only if it is still expired there.
    fn handle_get(&self, key: &[u8], now: u64) -> (r: Value)
        requires
            self.wf(),
        ensures
            r@ is NullBulkString || r@ is BulkString,
    {
        let found = self.store.get(key);
        let (reply, expired) = get_reply_for(found.as_ref(), now);
        if expired {
            self.store.remove_if_expired(key, now);
        }
        reply
    }

    /// Carries out a SET at clock reading `now`.
    fn handle_set(&self, key: Vec<u8>, val: Vec<u8>, options: SetOptions, now: u64) -> (r: Value)
        requires
            self.wf(),
        ensures
            r@ == Resp::SimpleString(ok()),
    {
        self.store.set(key, frame_for(val, options, now));
        let text: Vec<u8> = vec![79u8, 75u8];
        assert(text@ =~= ok());
        Value::SimpleString(text)
    }

    /// Carries out a command at clock reading `now` and gives the reply.
    pub fn handle_input(&self, op: Operation, now: u64) -> (r: Value)
        requires
            self.wf(),
        ensures
            reply_fits(op@, r@),
    {
        match op {
            Operation::Ping => {
                let text: Vec<u8> = vec![80u8, 79u8, 78u8, 71u8];
                assert(text@ =~= pong());
                Value::SimpleString(text)
            },
            Operation::Echo(msg) => Value::BulkString(msg),
            Operation::Get(key) => self.handle_get(key.as_slice(), now),
            Operation::SetEntry(key, val, options) => self.handle_set(key, val, options, now),
            Operation::Invalid(msg) => Value::Error(msg),
        }
    }

    /// Reads one request from the start of `input`, carries it out at clock
    /// reading `now`, and gives the encoded reply with the number of bytes the
    /// request took. A request that is cut short or malformed is not carried out.
    pub fn handle_request(&self, input: &[u8], now: u64) -> (r: Result<(Vec<u8>, usize), ParseError>)
        requires
            self.wf(),
        ensures
            match r {
                Err(x) => parse_at(input@, 0) == Err::<(Resp, nat), ParseError>(x),
                Ok((out, n)) => parse_at(input@, 0) is Ok
                    && parse_at(input@, 0)->Ok_0.1 == n
                    && reply_bytes_fit(resolve(parse_at(input@, 0)->Ok_0.0), out@),
            },
    {
        let (value, n) = match self.parser.parse(input) {
            Ok(p) => p,
            Err(x) => {
                return Err(x);
            },
        };
        Ok((self.respond(&value, now), n))
    }

    /// Carries out the command that `value` asks for at clock reading `now`,
    /// and gives the encoded reply.
    fn respond(&self, value: &Value, now: u64) -> (r: Vec<u8>)
        requires
            self.wf(),
        ensures
            reply_bytes_fit(resolve(value@), r@),
    {
        let op = self.deducer.deduce_operation(value);
        let reply = self.handle_input(op, now);
        let out = reply.to_bytes();
        assert(reply_fits(resolve(value@), reply@) && out@ == encode(reply@));
        out
    }

    /// The next step of a connection that holds the unanswered bytes
    /// `pending`, at clock reading `now`; `ended` tells whether the peer has
    /// closed its side. A whole request is carried out and answered; a
    /// partial one waits for more bytes unless the peer has ended or too
    /// many bytes are waiting; malformed bytes close the connection.
    pub fn connection_step(&self, pending: &[u8], ended: bool, now: u64) -> (r: ConnAction)
        requires
            self.wf(),
        ensures
            step_fits(pending@, ended, r),
    {
        let parsed = if ended {
            self.parser.parse_final(pending)
        } else {
            self.parser.parse(pending)
        };
        match parsed {
            Ok((value, n)) => ConnAction::Reply(self.respond(&value, now), n),
            Err(ParseError::Incomplete) => {
                if pending.len() > MAX_PENDING {
                    ConnAction::Close
                } else {
                    ConnAction::ReadMore
                }
            },
            Err(ParseError::InvalidInput) => ConnAction::Close,
        }
    }

    /// One round of the expiration sweep at clock reading `now`: samples
    /// the expiring entries, and hands the key of each sampled entry that is
    /// expired at `now` to the store, which drops it if it is still expired.
    pub fn sweep_round(&self, now: u64) -> (r: SweepReport)
        requires
            self.wf(),
        ensures
            round_fits(r),
    {
        let entries = self.store.for_each();
        let candidates = expiring_candidates(&entries);
        let picks = sample_indices(candidates.len(), CLEANER_TASK_SAMPLE_SIZE);
        if picks.len() < CLEANER_TASK_SAMPLE_SIZE {
            return SweepReport { candidates: candidates.len(), sampled: picks.len(), due: 0, removed: 0, repeat: false };
        }
        let due = keys_to_expire(&candidates, &picks, now);
        proof {
            lemma_due_keys_len(candidates@, picks@, now as nat);
        }
        let mut removed: usize = 0;
        let mut i: usize = 0;
        while i < due.len()
            invariant
                self.wf(),
                i <= due@.len(),
                removed <= i,
            decreases due.len() - i,
        {
            if self.store.remove_if_expired(due[i].as_slice(), now) {
                removed = removed + 1;
            }
            i = i + 1;
        }
        SweepReport {
            candidates: candidates.len(),
            sampled: picks.len(),
            due: due.len(),
            removed,
            repeat: removed > CLEANER_TASK_SAMPLE_SIZE / CLEANER_TASK_SUCCESS_FACTOR,
        }
    }
}

proof fn lemma_due_keys_len(candidates: Seq<(Vec<u8>, u128, u64)>, picks: Seq<usize>, now: nat)
    ensures
        due_keys(candidates, picks, now).len() <= picks.len(),
    decreases picks.len(),
{
    if picks.len() > 0 {
        lemma_due_keys_len(candidates, picks.drop_last(), now);
    }
}

impl Server {
    /// The expiration sweep of one tick at clock reading `now`: rounds run
    /// while each removes more than one in `CLEANER_TASK_SUCCESS_FACTOR` of
    /// its samples. A round that repeats has removed more than
    /// `CLEANER_TASK_SAMPLE_SIZE / CLEANER_TASK_SUCCESS_FACTOR` entries, so
    /// the expiring entries seen by the first round can call for no more
    /// rounds than `sweep_budget` gives; that bound ends the tick even when
    /// other tasks keep writing expiring entries. Reports the first and the
    /// last round and how many rounds ran.
    pub fn clean_expired(&self, now: u64) -> (r: TickReport)
        requires
            self.wf(),
        ensures
            round_fits(r.first),
            round_fits(r.last),
            1 <= r.rounds <= sweep_budget_spec(r.first.candidates as nat),
            r.rounds == 1 ==> r.last == r.first,
            r.rounds > 1 ==> r.first.repeat,
            r.first.sampled < CLEANER_TASK_SAMPLE_SIZE ==> r.rounds == 1,
            !(r.last.repeat && r.rounds < sweep_budget_spec(r.first.candidates as nat)),
    {
        let first = self.sweep_round(now);
        let budget = sweep_budget(first.candidates);
        let mut rounds: usize = 1;
        let mut last = first;
        while sweep_again(&last, rounds, budget)
            invariant
                self.wf(),
                1 <= rounds <= budget,
                budget == sweep_budget_spec(first.candidates as nat),
                round_fits(first),
                round_fits(last),
                rounds == 1 ==> last == first,
                rounds > 1 ==> first.repeat,
            decreases budget - rounds,
        {
            last = self.sweep_round(now);
            rounds = rounds + 1;
        }
        TickReport { first, last, rounds }
    }
}

/// The most rounds that `candidates` expiring entries can call for in a
/// store nobody else writes to: each repeating round removes more than
/// `CLEANER_TASK_SAMPLE_SIZE / CLEANER_TASK_SUCCESS_FACTOR` of them.
pub open spec fn sweep_budget_spec(candidates: nat) -> nat {
    candidates / (CLEANER_TASK_SAMPLE_SIZE / CLEANER_TASK_SUCCESS_FACTOR + 1) as nat + 1
}

pub fn sweep_budget(candidates: usize) -> (r: usize)
    ensures
        r == sweep_budget_spec(candidates as nat),
{
    let per_round: usize = CLEANER_TASK_SAMPLE_SIZE / CLEANER_TASK_SUCCESS_FACTOR + 1;
    assert(per_round == 6);
    let q = candidates / per_round;
    assert(q <= candidates / 6);
    assert(candidates / 6 < usize::MAX) by (nonlinear_arith)
        requires
            candidates <= usize::MAX,
    ;
    q + 1
}

/// A round that asks to repeat has removed more entries than the share that
/// `CLEANER_TASK_SUCCESS_FACTOR` sets; so in a store nobody else writes to,
/// the expiring entries fall by at least `sweep_budget` steps' worth before
/// the sweep of a tick ends.
pub proof fn repeating_round_removes(r: SweepReport)
    requires
        r.repeat == repeat_round(r.sampled as nat, r.removed as nat),
        r.repeat,
    ensures
        r.removed >= CLEANER_TASK_SAMPLE_SIZE / CLEANER_TASK_SUCCESS_FACTOR + 1,
{
}

} // verus!
