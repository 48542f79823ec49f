use vstd::prelude::*;
use vstd::slice::{slice_subrange, slice_to_vec};

use crate::byte_map::key_views;
use crate::wish::util::{bytes_to_usize, crlf_at, find_crlf, unsigned_reading};

pub mod grant;
pub mod protocol;
pub mod util;

verus! {

broadcast use crate::byte_map::lemma_bytes_deep_view;

/// The commands that the server understands, by name.
#[derive(Clone, Copy, Debug, PartialEq, Eq, Structural)]
pub enum Command {
    PING,
    SET,
    GET,
    EX,
    INCR,
    DECR,
    APPEND,
    STRLEN,
    EXISTS,
    DEL,
    HSET,
    HGET,
    HMGET,
    HDEL,
    HEXISTS,
    HLEN,
    LPUSH,
    LPOP,
    RPUSH,
    RPOP,
    LLEN,
    LRANGE,
    LINDEX,
    LSET,
    LREM,
    EXPIRE,
    TTL,
    SUBSCRIBE,
    PUBLISH,
    MSET,
    MGET,
    SADD,
    SREM,
    SISMEMBER,
    HGETALL,
    SMEMBERS,
}

/// How a request offended the server.
#[derive(Clone, Copy, Debug, PartialEq, Eq, Structural)]
pub enum Sacrilege {
    IncorrectNumberOfArguments(Command),
    IncorrectUsage(Command),
    UnknownCommand,
    SubscriberOnlyMode,
}

/// The simple status replies.
#[derive(Clone, Copy, Debug, PartialEq, Eq, Structural)]
pub enum InfoType {
    OK,
    Pong,
}

/// A reply to one client request.
pub enum Response {
    Error(Sacrilege),
    Info(InfoType),
    BulkString(Option<Vec<u8>>),
    BulkStringArray(Option<Vec<Option<Vec<u8>>>>),
    Amount(u32),
    Number(i64),
    Length(usize),
    SubscribedChannels(Vec<(Vec<u8>, usize)>),
    UnsubscribedChannels(Option<Vec<(Vec<u8>, usize)>>),
}

/// Why reading a client's requests stopped.
#[derive(Clone, Copy, Debug, PartialEq, Eq, Structural)]
pub enum Sin {
    Utf8Error,
    ParseError,
    Disconnected,
    Blasphemy,
}

/// Where the reading of a request stands.
#[derive(Clone, Copy, Debug, PartialEq, Eq, Structural)]
pub enum Phase {
    Idle,
    AwaitingTermCount,
    GraspingMarker,
    AwaitingBulkStringLength,
    AwaitingBulkString(usize),
}

/// The size of the buffer that holds what a client sent but has not been
/// read yet.
pub const BACKLOG_SIZE: usize = 4096;

/// The headroom that a read wants at the end of the buffer; with less, the
/// unread bytes move to its start first.
pub const READ_HEADROOM: usize = 1024;

/// The parsing state of one client connection.
pub struct Virtue {
    backlog: Vec<u8>,
    read_idx: usize,
    write_idx: usize,
    terms: Vec<Vec<u8>>,
    expected_terms: usize,
    phase: Phase,
}

/// What the reading of a request has gathered so far.
pub struct Reading {
    pub phase: Phase,
    pub expected: nat,
    pub terms: Seq<Seq<u8>>,
}

/// What one step of reading does.
pub enum Step {
    /// Nothing more can be read until more bytes arrive.
    Stall,
    /// The bytes break the protocol.
    Fail(Sin),
    /// Some bytes were consumed; a request may be complete.
    Advance(nat, Reading, Option<Seq<Seq<u8>>>),
}

/// The position of the first `\r\n` in `w` at `i` or later.
pub open spec fn crlf_from(w: Seq<u8>, i: int) -> Option<int>
    decreases w.len() - i,
{
    if i < 0 || i + 1 >= w.len() {
        None
    } else if crlf_at(w, i) {
        Some(i)
    } else {
        crlf_from(w, i + 1)
    }
}

/// The position of the first `\r\n` in `w`.
pub open spec fn first_crlf(w: Seq<u8>) -> Option<int> {
    crlf_from(w, 0)
}

/// One step of reading the bytes `w` in the state `r`.
pub open spec fn step(r: Reading, w: Seq<u8>) -> Step {
    if w.len() == 0 {
        Step::Stall
    } else {
        match r.phase {
            Phase::Idle => if w[0] == 42 {
                Step::Advance(1, Reading { phase: Phase::AwaitingTermCount, ..r }, None)
            } else {
                Step::Fail(Sin::Blasphemy)
            },
            Phase::AwaitingTermCount => match first_crlf(w) {
                Some(i) => match unsigned_reading(w.take(i), usize::MAX as nat) {
                    Some(n) => Step::Advance((i + 2) as nat, Reading { phase: Phase::GraspingMarker, expected: n, terms: r.terms }, None),
                    None => Step::Fail(Sin::ParseError),
                },
                None => Step::Stall,
            },
            Phase::GraspingMarker => if w[0] == 36 {
                Step::Advance(1, Reading { phase: Phase::AwaitingBulkStringLength, ..r }, None)
            } else {
                Step::Stall
            },
            Phase::AwaitingBulkStringLength => match first_crlf(w) {
                Some(i) => match unsigned_reading(w.take(i), usize::MAX as nat) {
                    Some(n) => Step::Advance((i + 2) as nat, Reading { phase: Phase::AwaitingBulkString(n as usize), ..r }, None),
                    None => Step::Fail(Sin::ParseError),
                },
                None => Step::Stall,
            },
            Phase::AwaitingBulkString(len) => if w.len() >= len + 2 {
                if w[len as int] != 13 || w[len + 1] != 10 {
                    Step::Fail(Sin::Blasphemy)
                } else {
                    let terms = r.terms.push(w.take(len as int));
                    if terms.len() == r.expected {
                        Step::Advance((len + 2) as nat, Reading { phase: Phase::Idle, expected: r.expected, terms: Seq::empty() }, Some(terms))
                    } else {
                        Step::Advance((len + 2) as nat, Reading { phase: Phase::GraspingMarker, expected: r.expected, terms }, None)
                    }
                }
            } else {
                Step::Stall
            },
        }
    }
}

/// Reads as much of `w` as can be read: the requests completed, the state
/// and the unread bytes at the end, and whether the bytes broke the
/// protocol.
pub open spec fn run(r: Reading, w: Seq<u8>) -> (Seq<Seq<Seq<u8>>>, Reading, Seq<u8>, Result<(), Sin>)
    decreases w.len(),
{
    match step(r, w) {
        Step::Advance(consumed, next, request) => if 0 < consumed <= w.len() {
            let (requests, last, rest, outcome) = run(next, w.skip(consumed as int));
            (
                match request {
                    Some(t) => seq![t] + requests,
                    None => requests,
                },
                last,
                rest,
                outcome,
            )
        } else {
            (Seq::empty(), r, w, Ok(()))
        },
        Step::Fail(e) => (Seq::empty(), r, w, Err(e)),
        Step::Stall => (Seq::empty(), r, w, Ok(())),
    }
}

proof fn lemma_first_crlf(w: Seq<u8>, i: int)
    requires
        crlf_at(w, i),
        forall|j: int| 0 <= j < i ==> !crlf_at(w, j),
    ensures
        first_crlf(w) == Some(i),
{
    lemma_crlf_from(w, 0, i);
}

proof fn lemma_crlf_from(w: Seq<u8>, k: int, i: int)
    requires
        0 <= k <= i,
        crlf_at(w, i),
        forall|j: int| k <= j < i ==> !crlf_at(w, j),
    ensures
        crlf_from(w, k) == Some(i),
    decreases i - k,
{
    if k < i {
        lemma_crlf_from(w, k + 1, i);
    }
}

proof fn lemma_no_crlf(w: Seq<u8>, k: int)
    requires
        0 <= k,
        forall|j: int| !crlf_at(w, j),
    ensures
        crlf_from(w, k) is None,
    decreases w.len() - k,
{
    if k + 1 < w.len() {
        lemma_no_crlf(w, k + 1);
    }
}

impl Virtue {
    /// The buffer bounds hold.
    pub closed spec fn wf(&self) -> bool {
        &&& self.backlog@.len() == BACKLOG_SIZE
        &&& self.read_idx <= self.write_idx <= self.backlog@.len()
    }

    /// The bytes received and not read yet.
    pub closed spec fn pending(&self) -> Seq<u8> {
        self.backlog@.subrange(self.read_idx as int, self.write_idx as int)
    }

    /// What the reading of the current request has gathered.
    pub closed spec fn reading(&self) -> Reading {
        Reading { phase: self.phase, expected: self.expected_terms as nat, terms: key_views(self.terms@) }
    }

    /// How many more bytes the buffer can take.
    pub closed spec fn spare(&self) -> nat {
        (self.backlog@.len() - self.write_idx) as nat
    }

    pub fn new() -> (virtue: Self)
        ensures
            virtue.wf(),
            virtue.pending() == Seq::<u8>::empty(),
            virtue.reading() == (Reading { phase: Phase::Idle, expected: 0, terms: Seq::empty() }),
            virtue.spare() == BACKLOG_SIZE,
    {
        let virtue = Self {
            backlog: vec![0u8; BACKLOG_SIZE],
            read_idx: 0,
            write_idx: 0,
            terms: Vec::new(),
            expected_terms: 0,
            phase: Phase::Idle,
        };
        assert(virtue.pending() =~= Seq::<u8>::empty());
        assert(key_views(virtue.terms@) =~= Seq::<Seq<u8>>::empty());
        virtue
    }

    /// Moves the unread bytes to the start of the buffer.
    pub fn compact(&mut self)
        requires
            old(self).wf(),
        ensures
            final(self).wf(),
            final(self).pending() == old(self).pending(),
            final(self).reading() == old(self).reading(),
            final(self).spare() == BACKLOG_SIZE - old(self).pending().len(),
    {
        if self.read_idx > 0 {
            let len = self.write_idx - self.read_idx;
            let ghost before = self.backlog@;
            let mut j: usize = 0;
            while j < len
                invariant
                    self.backlog@.len() == before.len(),
                    self.read_idx == old(self).read_idx,
                    self.write_idx == old(self).write_idx,
                    self.read_idx > 0,
                    self.terms@ == old(self).terms@,
                    self.phase == old(self).phase,
                    self.expected_terms == old(self).expected_terms,
                    self.read_idx <= self.write_idx <= before.len(),
                    len == self.write_idx - self.read_idx,
                    j <= len,
                    forall|k: int| 0 <= k < j ==> self.backlog@[k] == before[self.read_idx + k],
                    forall|k: int| j <= k < before.len() ==> self.backlog@[k] == before[k],
                decreases len - j,
            {
                let b = self.backlog[self.read_idx + j];
                self.backlog.set(j, b);
                j += 1;
            }
            self.read_idx = 0;
            self.write_idx = len;
            assert(self.pending() =~= old(self).pending());
        }
    }

    /// How many more bytes the buffer can take.
    pub fn spare_capacity(&self) -> (n: usize)
        requires
            self.wf(),
        ensures
            n == self.spare(),
    {
        self.backlog.len() - self.write_idx
    }

    /// Makes room for the next read: when less than the read headroom is
    /// left, the unread bytes move to the start of the buffer.
    pub fn make_room(&mut self)
        requires
            old(self).wf(),
        ensures
            final(self).wf(),
            final(self).pending() == old(self).pending(),
            final(self).reading() == old(self).reading(),
            old(self).spare() >= READ_HEADROOM ==> final(self).spare() == old(self).spare(),
            old(self).spare() < READ_HEADROOM ==> final(self).spare() == BACKLOG_SIZE - old(self).pending().len(),
    {
        if self.write_idx > self.backlog.len() - READ_HEADROOM {
            self.compact();
        }
    }

    /// Takes in bytes that arrived.
    pub fn fill(&mut self, data: &[u8])
        requires
            old(self).wf(),
            data@.len() <= old(self).spare(),
        ensures
            final(self).wf(),
            final(self).pending() == old(self).pending() + data@,
            final(self).reading() == old(self).reading(),
            final(self).spare() == old(self).spare() - data@.len(),
    {
        let mut j: usize = 0;
        let ghost before = self.backlog@;
        while j < data.len()
            invariant
                self.wf(),
                self.read_idx == old(self).read_idx,
                self.write_idx == old(self).write_idx,
                self.terms@ == old(self).terms@,
                self.phase == old(self).phase,
                self.expected_terms == old(self).expected_terms,
                self.backlog@.len() == before.len(),
                j <= data@.len(),
                data@.len() <= before.len() - self.write_idx,
                forall|k: int| 0 <= k < self.write_idx ==> self.backlog@[k] == before[k],
                forall|k: int| 0 <= k < j ==> self.backlog@[self.write_idx + k] == data@[k],
            decreases data@.len() - j,
        {
            self.backlog.set(self.write_idx + j, data[j]);
            j += 1;
        }
        self.write_idx = self.write_idx + data.len();
        assert(self.pending() =~= old(self).pending() + data@);
    }

    /// Reads the requests that the pending bytes complete.
    pub fn discern(&mut self) -> (outcome: (Vec<Vec<Vec<u8>>>, Result<(), Sin>))
        requires
            old(self).wf(),
        ensures
            final(self).wf(),
            (outcome.0.deep_view(), final(self).reading(), final(self).pending(), outcome.1)
                == run(old(self).reading(), old(self).pending()),
            final(self).spare() == old(self).spare(),
    {
        let mut requests: Vec<Vec<Vec<u8>>> = Vec::new();
        let ghost start = run(self.reading(), self.pending());
        assert(requests.deep_view() =~= Seq::<Seq<Seq<u8>>>::empty());
        loop
            invariant
                self.wf(),
                self.write_idx == old(self).write_idx,
                self.backlog@ == old(self).backlog@,
                start == run(old(self).reading(), old(self).pending()),
                ({
                    let now = run(self.reading(), self.pending());
                    start == (requests.deep_view() + now.0, now.1, now.2, now.3)
                }),
            ensures
                self.wf(),
                self.write_idx == old(self).write_idx,
                self.backlog@ == old(self).backlog@,
                start == (requests.deep_view(), self.reading(), self.pending(), Ok::<(), Sin>(())),
            decreases self.write_idx - self.read_idx,
        {
            let ghost r = self.reading();
            let ghost w = self.pending();
            if self.read_idx == self.write_idx {
                assert(w.len() == 0);
                assert(requests.deep_view() + Seq::<Seq<Seq<u8>>>::empty() =~= requests.deep_view());
                break;
            }
            let read = self.read_idx;
            match self.phase {
                Phase::Idle => {
                    if self.backlog[read] == 42u8 {
                        self.phase = Phase::AwaitingTermCount;
                        self.read_idx = read + 1;
                        proof {
                            assert(self.pending() =~= w.skip(1));
                            assert(key_views(self.terms@) == r.terms);
                        }
                    } else {
                        assert(requests.deep_view() + Seq::<Seq<Seq<u8>>>::empty() =~= requests.deep_view());
                        return (requests, Err(Sin::Blasphemy));
                    }
                },
                Phase::GraspingMarker => {
                    if self.backlog[read] == 36u8 {
                        self.phase = Phase::AwaitingBulkStringLength;
                        self.read_idx = read + 1;
                        proof {
                            assert(self.pending() =~= w.skip(1));
                        }
                    } else {
                        assert(requests.deep_view() + Seq::<Seq<Seq<u8>>>::empty() =~= requests.deep_view());
                        break;
                    }
                },
                Phase::AwaitingTermCount | Phase::AwaitingBulkStringLength => {
                    let window = slice_subrange(self.backlog.as_slice(), read, self.write_idx);
                    assert(window@ == w);
                    match find_crlf(window) {
                        Some(index) => {
                            proof {
                                lemma_first_crlf(w, index as int);
                            }
                            let digits = slice_subrange(window, 0, index);
                            assert(digits@ == w.take(index as int));
                            match bytes_to_usize(digits) {
                                Ok(n) => {
                                    if self.phase == Phase::AwaitingTermCount {
                                        self.expected_terms = n;
                                        self.phase = Phase::GraspingMarker;
                                    } else {
                                        self.phase = Phase::AwaitingBulkString(n);
                                    }
                                    self.read_idx = read + index + 2;
                                    proof {
                                        assert(self.pending() =~= w.skip(index + 2));
                                    }
                                },
                                Err(e) => {
                                    assert(requests.deep_view() + Seq::<Seq<Seq<u8>>>::empty() =~= requests.deep_view());
                                    return (requests, Err(e));
                                },
                            }
                        },
                        None => {
                            proof {
                                lemma_no_crlf(w, 0);
                            }
                            assert(requests.deep_view() + Seq::<Seq<Seq<u8>>>::empty() =~= requests.deep_view());
                            break;
                        },
                    }
                },
                Phase::AwaitingBulkString(len) => {
                    let available = self.write_idx - read;
                    if available >= 2 && available - 2 >= len {
                        if self.backlog[read + len] != 13u8 || self.backlog[read + len + 1] != 10u8 {
                            assert(requests.deep_view() + Seq::<Seq<Seq<u8>>>::empty() =~= requests.deep_view());
                            return (requests, Err(Sin::Blasphemy));
                        }
                        let term = slice_to_vec(slice_subrange(self.backlog.as_slice(), read, read + len));
                        let ghost t = term@;
                        assert(t == w.take(len as int));
                        self.terms.push(term);
                        assert(key_views(self.terms@) =~= r.terms.push(t));
                        self.read_idx = read + len + 2;
                        self.phase = Phase::GraspingMarker;
                        if self.terms.len() == self.expected_terms {
                            let mut finished: Vec<Vec<u8>> = Vec::new();
                            std::mem::swap(&mut finished, &mut self.terms);
                            let ghost f = finished.deep_view();
                            assert(f =~= r.terms.push(t));
                            let ghost before = requests.deep_view();
                            requests.push(finished);
                            self.phase = Phase::Idle;
                            proof {
                                assert(requests.deep_view() =~= before.push(f));
                                assert(key_views(self.terms@) =~= Seq::<Seq<u8>>::empty());
                                let now = run(self.reading(), self.pending());
                                assert(before + (seq![f] + now.0) =~= before.push(f) + now.0);
                            }
                        }
                        proof {
                            assert(self.pending() =~= w.skip(len + 2));
                        }
                    } else {
                        assert(requests.deep_view() + Seq::<Seq<Seq<u8>>>::empty() =~= requests.deep_view());
                        break;
                    }
                },
            }
        }
        (requests, Ok(()))
    }
}

} // verus!
