use vstd::prelude::*;

use crate::wish::util::{
    crlf_at, decimal, digits_value, is_digit, lemma_decimal_digits, lemma_unsigned_spelling_reads_back,
    unsigned_reading,
};
use crate::wish::{crlf_from, first_crlf, run, step, Phase, Reading, Step};

verus! {

/// The line ending of the protocol.
pub open spec fn crlf() -> Seq<u8> {
    seq![13u8, 10u8]
}

/// A bulk string: `$`, the length in decimal, a line ending, the bytes and a
/// line ending.
pub open spec fn bulk(t: Seq<u8>) -> Seq<u8> {
    seq![36u8] + decimal(t.len()) + crlf() + t + crlf()
}

/// The bulk strings of `ts`, one after the other.
pub open spec fn bulks(ts: Seq<Seq<u8>>) -> Seq<u8>
    decreases ts.len(),
{
    if ts.len() == 0 {
        Seq::empty()
    } else {
        bulk(ts[0]) + bulks(ts.drop_first())
    }
}

/// A request as a client sends it: `*`, the number of terms in decimal, a
/// line ending, then each term as a bulk string.
pub open spec fn request_bytes(ts: Seq<Seq<u8>>) -> Seq<u8> {
    seq![42u8] + decimal(ts.len()) + crlf() + bulks(ts)
}

/// A decimal number ended by a line ending reads as that number.
proof fn lemma_number_line(n: nat, x: Seq<u8>)
    requires
        n <= usize::MAX,
    ensures
        ({
            let w = decimal(n) + crlf() + x;
            &&& first_crlf(w) == Some(decimal(n).len() as int)
            &&& unsigned_reading(w.take(decimal(n).len() as int), usize::MAX as nat) == Some(n)
        }),
{
    let d = decimal(n);
    let w = d + crlf() + x;
    lemma_decimal_digits(n);
    lemma_unsigned_spelling_reads_back(n, usize::MAX as nat);
    assert(w.take(d.len() as int) =~= d);
    assert(crlf_at(w, d.len() as int));
    assert forall|j: int| 0 <= j < d.len() implies !crlf_at(w, j) by {
        assert(w[j] == d[j]);
        assert(is_digit(d[j]));
    }
    crate::wish::lemma_first_crlf(w, d.len() as int);
}

/// Reading the bulk strings of the terms from position `k` on completes the
/// request.
proof fn lemma_bulks_complete(ts: Seq<Seq<u8>>, k: int, rest: Seq<u8>)
    requires
        0 <= k < ts.len(),
        ts.len() <= usize::MAX,
        forall|i: int| 0 <= i < ts.len() ==> #[trigger] ts[i].len() <= usize::MAX,
    ensures
        ({
            let r = run(Reading { phase: Phase::Idle, expected: ts.len(), terms: Seq::empty() }, rest);
            run(Reading { phase: Phase::GraspingMarker, expected: ts.len(), terms: ts.take(k) }, bulks(ts.skip(k)) + rest)
                == (seq![ts] + r.0, r.1, r.2, r.3)
        }),
    decreases ts.len() - k,
{
    let t = ts[k];
    let n = t.len();
    let later = bulks(ts.skip(k + 1)) + rest;
    assert(ts.skip(k).drop_first() =~= ts.skip(k + 1));
    assert(bulks(ts.skip(k)) == bulk(t) + bulks(ts.skip(k + 1)));
    let w0 = bulks(ts.skip(k)) + rest;
    let r0 = Reading { phase: Phase::GraspingMarker, expected: ts.len(), terms: ts.take(k) };
    assert(w0 =~= seq![36u8] + (decimal(n) + crlf() + (t + crlf() + later)));
    // `$`
    let r1 = Reading { phase: Phase::AwaitingBulkStringLength, expected: ts.len(), terms: ts.take(k) };
    let w1 = decimal(n) + crlf() + (t + crlf() + later);
    assert(w0.skip(1) =~= w1);
    assert(step(r0, w0) == Step::Advance(1, r1, None));
    assert(run(r0, w0) == run(r1, w1));
    // the length line
    lemma_number_line(n, t + crlf() + later);
    let dl = decimal(n).len();
    let r2 = Reading { phase: Phase::AwaitingBulkString(n as usize), expected: ts.len(), terms: ts.take(k) };
    let w2 = t + crlf() + later;
    assert(w1.skip((dl + 2) as int) =~= w2);
    assert(step(r1, w1) == Step::Advance((dl + 2) as nat, r2, None));
    assert(run(r1, w1) == run(r2, w2));
    // the term
    assert(w2[n as int] == 13 && w2[(n + 1) as int] == 10);
    assert(w2.take(n as int) =~= t);
    assert(ts.take(k).push(t) =~= ts.take(k + 1));
    assert(w2.skip((n + 2) as int) =~= later);
    if k + 1 == ts.len() {
        assert(ts.take(k + 1) =~= ts);
        let r3 = Reading { phase: Phase::Idle, expected: ts.len(), terms: Seq::empty() };
        assert(step(r2, w2) == Step::Advance((n + 2) as nat, r3, Some(ts)));
        assert(ts.skip(k + 1) =~= Seq::<Seq<u8>>::empty());
        assert(later =~= rest);
        let r = run(r3, rest);
        assert(run(r2, w2) == (seq![ts] + r.0, r.1, r.2, r.3));
    } else {
        let r3 = Reading { phase: Phase::GraspingMarker, expected: ts.len(), terms: ts.take(k + 1) };
        assert(step(r2, w2) == Step::Advance((n + 2) as nat, r3, None));
        lemma_bulks_complete(ts, k + 1, rest);
        assert(run(r2, w2) == run(r3, later));
    }
}

/// A request as a client sends it reads back as its terms, whatever follows
/// it and whatever state the reading was idle in.
pub proof fn law_request_reads_back(ts: Seq<Seq<u8>>, expected: nat, rest: Seq<u8>)
    requires
        0 < ts.len() <= usize::MAX,
        forall|i: int| 0 <= i < ts.len() ==> #[trigger] ts[i].len() <= usize::MAX,
    ensures
        ({
            let r = run(Reading { phase: Phase::Idle, expected: ts.len(), terms: Seq::empty() }, rest);
            run(Reading { phase: Phase::Idle, expected, terms: Seq::empty() }, request_bytes(ts) + rest)
                == (seq![ts] + r.0, r.1, r.2, r.3)
        }),
{
    let r0 = Reading { phase: Phase::Idle, expected, terms: Seq::empty() };
    let w0 = request_bytes(ts) + rest;
    let body = bulks(ts) + rest;
    assert(w0 =~= seq![42u8] + (decimal(ts.len()) + crlf() + body));
    let r1 = Reading { phase: Phase::AwaitingTermCount, expected, terms: Seq::empty() };
    let w1 = decimal(ts.len()) + crlf() + body;
    assert(w0.skip(1) =~= w1);
    assert(step(r0, w0) == Step::Advance(1, r1, None));
    assert(run(r0, w0) == run(r1, w1));
    lemma_number_line(ts.len(), body);
    let dl = decimal(ts.len()).len();
    let r2 = Reading { phase: Phase::GraspingMarker, expected: ts.len(), terms: Seq::empty() };
    assert(w1.skip((dl + 2) as int) =~= body);
    assert(step(r1, w1) == Step::Advance((dl + 2) as nat, r2, None));
    assert(run(r1, w1) == run(r2, body));
    assert(ts.take(0) =~= Seq::<Seq<u8>>::empty());
    assert(ts.skip(0) =~= ts);
    lemma_bulks_complete(ts, 0, rest);
}

/// A line ending found in `w` is found at the same place once more bytes
/// follow.
proof fn lemma_crlf_from_extends(w: Seq<u8>, more: Seq<u8>, k: int)
    requires
        crlf_from(w, k) is Some,
    ensures
        crlf_from(w + more, k) == crlf_from(w, k),
        k <= crlf_from(w, k).unwrap(),
        crlf_at(w, crlf_from(w, k).unwrap()),
    decreases w.len() - k,
{
    let x = w + more;
    if !crlf_at(w, k) {
        assert(!crlf_at(x, k));
        lemma_crlf_from_extends(w, more, k + 1);
    }
}

/// A step that reads or refuses some of `w` does the same once more bytes
/// follow, and reads no more than `w` holds.
proof fn lemma_step_extends(r: Reading, w: Seq<u8>, more: Seq<u8>)
    ensures
        step(r, w) matches Step::Advance(k, _, _) ==> step(r, w + more) == step(r, w) && 0 < k <= w.len(),
        step(r, w) matches Step::Fail(e) ==> step(r, w + more) == step(r, w),
{
    let x = w + more;
    if w.len() > 0 {
        assert(x[0] == w[0]);
        match r.phase {
            Phase::AwaitingTermCount | Phase::AwaitingBulkStringLength => {
                if first_crlf(w) is Some {
                    lemma_crlf_from_extends(w, more, 0);
                    let i = first_crlf(w).unwrap();
                    assert(x.take(i) =~= w.take(i));
                }
            },
            Phase::AwaitingBulkString(len) => {
                if w.len() >= len + 2 {
                    assert(x[len as int] == w[len as int]);
                    assert(x[len + 1] == w[len + 1]);
                    assert(x.take(len as int) =~= w.take(len as int));
                }
            },
            _ => {},
        }
    }
}

/// Reading bytes that arrive in two parts gives what reading them at once
/// gives. When the first part reads without breaking the protocol: the
/// requests that it completes, then those that its unread rest completes
/// together with the second part, ending in the same state with the same
/// unread bytes. When the first part breaks the protocol, reading both
/// breaks it at the same place, with the same requests completed before.
pub proof fn law_split_reads_agree(r: Reading, first: Seq<u8>, second: Seq<u8>)
    ensures
        run(r, first + second).3 is Ok ==> run(r, first).3 is Ok,
        ({
            let (done, r1, rest, outcome) = run(r, first);
            let later = run(r1, rest + second);
            run(r, first + second) == if outcome is Ok {
                (done + later.0, later.1, later.2, later.3)
            } else {
                (done, r1, rest + second, outcome)
            }
        }),
    decreases first.len(),
{
    let w = first + second;
    lemma_step_extends(r, first, second);
    match step(r, first) {
        Step::Advance(k, next, request) => {
            assert(w.skip(k as int) =~= first.skip(k as int) + second);
            law_split_reads_agree(next, first.skip(k as int), second);
            let (done, r1, rest, _) = run(next, first.skip(k as int));
            let later = run(r1, rest + second);
            match request {
                Some(t) => assert(seq![t] + (done + later.0) =~= (seq![t] + done) + later.0),
                None => {},
            }
        },
        Step::Fail(_) => {},
        Step::Stall => {
            let later = run(r, first + second);
            assert(Seq::<Seq<Seq<u8>>>::empty() + later.0 =~= later.0);
        },
    }
}

} // verus!
