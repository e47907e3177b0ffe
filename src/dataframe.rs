use vstd::prelude::*;

verus! {

/// The mathematical content of a stored entry.
pub enum FrameModel {
    Plain(Seq<u8>),
    Expiring { data: Seq<u8>, expiration: nat, created_at: nat },
}

/// An entry of the store: a value, with or without a time to live.
///
/// Times are milliseconds of a monotonic clock; `timestamp` is the clock
/// reading taken when the entry was written.
#[derive(Debug, Clone, PartialEq, Eq)]
pub enum DataFrame {
    Plain(Vec<u8>),
    Expiring { data: Vec<u8>, expiration: u128, timestamp: u64 },
}

/// An entry is expired at `now` once at least `expiration` has passed since it was written.
pub open spec fn frame_expired(f: FrameModel, now: nat) -> bool {
    match f {
        FrameModel::Plain(_) => false,
        FrameModel::Expiring { expiration, created_at, .. } => now >= created_at + expiration,
    }
}

/// The stored bytes of an entry.
pub open spec fn frame_data(f: FrameModel) -> Seq<u8> {
    match f {
        FrameModel::Plain(d) => d,
        FrameModel::Expiring { data, .. } => data,
    }
}

impl View for DataFrame {
    type V = FrameModel;

    open spec fn view(&self) -> FrameModel {
        match self {
            DataFrame::Plain(d) => FrameModel::Plain(d@),
            DataFrame::Expiring { data, expiration, timestamp } => FrameModel::Expiring {
                data: data@,
                expiration: *expiration as nat,
                created_at: *timestamp as nat,
            },
        }
    }
}

impl DataFrame {
    /// An entry that never expires.
    pub fn plain(data: Vec<u8>) -> (r: Self)
        ensures
            r@ == FrameModel::Plain(data@),
    {
        DataFrame::Plain(data)
    }

    /// An entry written at clock reading `now` that lives for `expiration` milliseconds.
    pub fn with_expiration(data: Vec<u8>, expiration: u128, now: u64) -> (r: Self)
        ensures
            r@ == (FrameModel::Expiring {
                data: data@,
                expiration: expiration as nat,
                created_at: now as nat,
            }),
    {
        DataFrame::Expiring { data, expiration, timestamp: now }
    }

    /// Whether the entry is expired at clock reading `now`.
    pub fn has_expired(&self, now: u64) -> (r: bool)
        ensures
            r == frame_expired(self@, now as nat),
    {
        match self {
            DataFrame::Plain(_) => false,
            DataFrame::Expiring { expiration, timestamp, .. } => {
                now >= *timestamp && (now - *timestamp) as u128 >= *expiration
            },
        }
    }

    /// The stored bytes.
    pub fn data(&self) -> (r: &Vec<u8>)
        ensures
            r@ == frame_data(self@),
    {
        match self {
            DataFrame::Plain(d) => d,
            DataFrame::Expiring { data, .. } => data,
        }
    }

    /// A copy of the entry.
    pub fn duplicate(&self) -> (r: Self)
        ensures
            r@ == self@,
    {
        match self {
            DataFrame::Plain(d) => DataFrame::Plain(d.clone()),
            DataFrame::Expiring { data, expiration, timestamp } => DataFrame::Expiring {
                data: data.clone(),
                expiration: *expiration,
                timestamp: *timestamp,
            },
        }
    }
}

} // verus!
