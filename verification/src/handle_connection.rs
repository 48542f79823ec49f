use vstd::prelude::*;
use vstd::utf8::encode_utf8;

use crate::egress::text;
use crate::memory_database::{MemoryDatabase, Records};
use crate::temple::soul::is_expired;
use crate::wish::grant::{is_named, names};
use crate::wish::util::{
    decimal, digits_up_to, digits_value, is_numeral, signed_decimal, spell_signed, spell_unsigned, unsigned_reading,
};
use vstd::slice::{slice_subrange, slice_to_vec};

verus! {

/// The number that `s` spells as Rust reads an `i64`: an optional `+` or
/// `-`, then digits, within the range of `i64`.
pub open spec fn i64_reading(s: Seq<u8>) -> Option<int> {
    let signed = s.len() > 0 && (s[0] == 43 || s[0] == 45);
    let digits = if signed { s.drop_first() } else { s };
    let v = if signed && s[0] == 45 { -(digits_value(digits) as int) } else { digits_value(digits) as int };
    if is_numeral(digits) && i64::MIN <= v <= i64::MAX {
        Some(v)
    } else {
        None
    }
}

/// Reads `bytes` as Rust reads an `i64`.
pub fn parse_i64(bytes: &[u8]) -> (n: Option<i64>)
    ensures
        match n {
            Some(v) => i64_reading(bytes@) == Some(v as int),
            None => i64_reading(bytes@) is None,
        },
{
    let signed = bytes.len() > 0 && (bytes[0] == 43u8 || bytes[0] == 45u8);
    let negative = signed && bytes[0] == 45u8;
    let start: usize = if signed { 1 } else { 0 };
    let ghost digits = bytes@.subrange(start as int, bytes@.len() as int);
    assert(digits =~= if signed { bytes@.drop_first() } else { bytes@ });
    let limit: u64 = if negative { 9223372036854775808u64 } else { 9223372036854775807u64 };
    match digits_up_to(bytes, start, limit) {
        Ok(m) => {
            if negative {
                if m == 9223372036854775808u64 {
                    Some(i64::MIN)
                } else {
                    Some(-(m as i64))
                }
            } else {
                Some(m as i64)
            }
        },
        Err(_) => {
            proof {
                if is_numeral(digits) && digits_value(digits) <= limit {
                    assert(false);
                }
            }
            None
        },
    }
}

/// The bytes of a string key.
pub open spec fn key_of(k: String) -> Seq<u8> {
    encode_utf8(k@)
}

/// Removes each key in turn.
pub open spec fn without_keys(m: Records, keys: Seq<Seq<u8>>) -> Records
    decreases keys.len(),
{
    if keys.len() == 0 {
        m
    } else {
        without_keys(m, keys.drop_last()).remove(keys.last())
    }
}

/// How many keys were there when their turn to be removed came.
pub open spec fn deleted_count(m: Records, keys: Seq<Seq<u8>>) -> nat
    decreases keys.len(),
{
    if keys.len() == 0 {
        0
    } else {
        deleted_count(m, keys.drop_last()) + if without_keys(m, keys.drop_last()).contains_key(keys.last()) { 1nat } else { 0nat }
    }
}

/// Appends the bytes of `s`.
fn append_text(out: &mut Vec<u8>, s: &str)
    ensures
        final(out)@ == old(out)@ + text(s),
{
    let b = s.as_bytes();
    let mut i: usize = 0;
    while i < b.len()
        invariant
            i <= b@.len(),
            b@ == text(s),
            out@ == old(out)@ + b@.subrange(0, i as int),
        decreases b@.len() - i,
    {
        out.push(b[i]);
        i += 1;
        assert(out@ =~= old(out)@ + b@.subrange(0, i as int));
    }
    assert(b@.subrange(0, b@.len() as int) =~= b@);
}

/// Appends `bytes`.
fn append_bytes(out: &mut Vec<u8>, bytes: &Vec<u8>)
    ensures
        final(out)@ == old(out)@ + bytes@,
{
    let mut i: usize = 0;
    while i < bytes.len()
        invariant
            i <= bytes@.len(),
            out@ == old(out)@ + bytes@.subrange(0, i as int),
        decreases bytes@.len() - i,
    {
        out.push(bytes[i]);
        i += 1;
        assert(out@ =~= old(out)@ + bytes@.subrange(0, i as int));
    }
    assert(bytes@.subrange(0, bytes@.len() as int) =~= bytes@);
}

/// Answers a DEL of `keys`, the request being `count` terms long: the
/// number of keys that were there and are now removed, or a complaint when
/// the request names no key.
pub fn handle_del(db: &mut MemoryDatabase, count: usize, keys: Vec<String>) -> (reply: Vec<u8>)
    requires
        old(db).wf(),
    ensures
        final(db).wf(),
        count < 2 ==> reply@ == text("-ERR fuk are you playin at?\r\n") && final(db)@ == old(db)@,
        count >= 2 ==> {
            let ks = keys@.map_values(|k: String| key_of(k));
            &&& final(db)@ == without_keys(old(db)@, ks)
            &&& reply@ == text(":") + decimal(deleted_count(old(db)@, ks)) + text("\r\n")
        },
{
    let mut reply: Vec<u8> = Vec::new();
    if count < 2 {
        append_text(&mut reply, "-ERR fuk are you playin at?\r\n");
        return reply;
    }
    let ghost ks = keys@.map_values(|k: String| key_of(k));
    let mut keys_deleted: u64 = 0;
    let mut i: usize = 0;
    assert(ks.take(0) =~= Seq::<Seq<u8>>::empty());
    while i < keys.len()
        invariant
            db.wf(),
            i <= keys@.len(),
            ks == keys@.map_values(|k: String| key_of(k)),
            keys_deleted <= i,
            keys_deleted == deleted_count(old(db)@, ks.take(i as int)),
            db@ == without_keys(old(db)@, ks.take(i as int)),
        decreases keys@.len() - i,
    {
        assert(ks.take(i + 1).drop_last() =~= ks.take(i as int));
        let key = keys[i].as_str();
        assert(text(key) == ks[i as int]);
        if db.remove(key).is_some() {
            keys_deleted += 1;
        }
        i += 1;
    }
    assert(ks.take(keys@.len() as int) =~= ks);
    append_text(&mut reply, ":");
    let digits = spell_unsigned(keys_deleted);
    append_bytes(&mut reply, &digits);
    append_text(&mut reply, "\r\n");
    reply
}

/// Answers an INCR of `key` at `now`, the request being `count` terms long.
pub fn handle_incr(db: &mut MemoryDatabase, count: usize, key: &str, now: u64) -> (reply: Vec<u8>)
    requires
        old(db).wf(),
    ensures
        final(db).wf(),
        count != 2 ==> reply@ == text("-ERR Protocol Error\r\n") && final(db)@ == old(db)@,
        count == 2 ==> {
            let k = text(key);
            if old(db)@.contains_key(k) && !is_expired(old(db)@[k].1, now) {
                match i64_reading(old(db)@[k].0) {
                    Some(n) if n < i64::MAX => {
                        &&& final(db)@ == old(db)@.insert(k, (signed_decimal(n + 1), None))
                        &&& reply@ == text(":") + signed_decimal(n + 1) + text("\r\n")
                    },
                    _ => {
                        &&& final(db)@ == old(db)@
                        &&& reply@ == text("-ERR invalid use of INCR, value not in number form.\r\n")
                    },
                }
            } else {
                &&& final(db)@ == old(db)@.insert(k, (signed_decimal(1), None))
                &&& reply@ == text(":1\r\n")
            }
        },
{
    let mut reply: Vec<u8> = Vec::new();
    if count != 2 {
        append_text(&mut reply, "-ERR Protocol Error\r\n");
        return reply;
    }
    let got = db.get(key, now);
    match got {
        Some(value_bytes) => {
            let parsed = parse_i64(value_bytes.as_slice());
            let next = match parsed {
                Some(value) => value.checked_add(1),
                None => None,
            };
            match next {
                Some(n) => {
                    let digits = spell_signed(n);
                    append_text(&mut reply, ":");
                    append_bytes(&mut reply, &digits);
                    append_text(&mut reply, "\r\n");
                    let _ = db.insert(key, (digits, None));
                    reply
                },
                None => {
                    append_text(&mut reply, "-ERR invalid use of INCR, value not in number form.\r\n");
                    reply
                },
            }
        },
        None => {
            let ghost mid = db@;
            let _ = db.insert(key, (spell_signed(1), None));
            proof {
                assert(mid.insert(text(key), (signed_decimal(1), None)) =~= old(db)@.insert(text(key), (signed_decimal(1), None)));
            }
            append_text(&mut reply, ":1\r\n");
            reply
        },
    }
}

/// The byte `b` is ASCII white space.
pub open spec fn is_space(b: u8) -> bool {
    b == 32 || (9 <= b && b <= 13)
}

/// `s` without the white space at its start.
pub open spec fn trim_start(s: Seq<u8>) -> Seq<u8>
    decreases s.len(),
{
    if s.len() > 0 && is_space(s[0]) {
        trim_start(s.drop_first())
    } else {
        s
    }
}

/// `s` without the white space at its end.
pub open spec fn trim_end(s: Seq<u8>) -> Seq<u8>
    decreases s.len(),
{
    if s.len() > 0 && is_space(s.last()) {
        trim_end(s.drop_last())
    } else {
        s
    }
}

/// The count that `s` spells as Rust reads a `usize`: an optional `+`, then
/// digits, within the range of `usize`.
pub open spec fn count_reading(s: Seq<u8>) -> Option<nat> {
    if s.len() > 0 && s[0] == 43 {
        unsigned_reading(s.drop_first(), usize::MAX as nat)
    } else {
        unsigned_reading(s, usize::MAX as nat)
    }
}

/// What the first line of a request says.
pub enum Header {
    /// The request has this many terms.
    Terms(usize),
    /// The line does not start a request; it is answered with these bytes.
    Refused(Vec<u8>),
    /// The count cannot be read; the connection ends for this reason.
    Broken(String),
}

/// Reads the first line of a request: a `*`, then the number of terms,
/// with white space around it.
pub fn request_header(line: &str) -> (header: Header)
    ensures
        ({
            let l = text(line);
            if l.len() == 0 || l[0] != 42 {
                header matches Header::Refused(reply) && reply@ == text("-ERR Protocol Error\r\n")
            } else {
                match count_reading(trim_end(trim_start(l.drop_first()))) {
                    Some(n) => header matches Header::Terms(count) && count == n,
                    None => header matches Header::Broken(reason) && reason@ == "Failed to parse"@,
                }
            }
        }),
{
    let bytes = line.as_bytes();
    let ghost l = text(line);
    let n = bytes.len();
    if n == 0 || bytes[0] != 42u8 {
        let mut reply: Vec<u8> = Vec::new();
        append_text(&mut reply, "-ERR Protocol Error\r\n");
        return Header::Refused(reply);
    }
    let mut i: usize = 1;
    assert(l.subrange(1, n as int) =~= l.drop_first());
    while i < n && (bytes[i] == 32u8 || (9u8 <= bytes[i] && bytes[i] <= 13u8))
        invariant
            bytes@ == l,
            n == l.len(),
            1 <= i <= n,
            trim_start(l.drop_first()) == trim_start(l.subrange(i as int, n as int)),
        decreases n - i,
    {
        assert(l.subrange(i as int, n as int).drop_first() =~= l.subrange(i + 1, n as int));
        i += 1;
    }
    assert(trim_start(l.drop_first()) == l.subrange(i as int, n as int));
    let mut j: usize = n;
    while j > i && (bytes[j - 1] == 32u8 || (9u8 <= bytes[j - 1] && bytes[j - 1] <= 13u8))
        invariant
            bytes@ == l,
            n == l.len(),
            1 <= i <= j <= n,
            trim_end(l.subrange(i as int, n as int)) == trim_end(l.subrange(i as int, j as int)),
        decreases j - i,
    {
        assert(l.subrange(i as int, j as int).drop_last() =~= l.subrange(i as int, j - 1));
        j -= 1;
    }
    assert(trim_end(l.subrange(i as int, n as int)) == l.subrange(i as int, j as int));
    let digits = slice_subrange(bytes, i, j);
    let ghost t = digits@;
    let start: usize = if j > i && digits[0] == 43u8 { 1 } else { 0 };
    assert(digits@.subrange(start as int, digits@.len() as int) =~= if start == 1 { t.drop_first() } else { t });
    match digits_up_to(digits, start, usize::MAX as u64) {
        Ok(count) => Header::Terms(count as usize),
        Err(_) => Header::Broken("Failed to parse".to_owned()),
    }
}

/// Where a request goes, by its first term.
pub enum Route {
    /// It is answered at once with these bytes.
    Reply(Vec<u8>),
    /// It goes to the handler of its command.
    HandleGet,
    HandleSet,
    HandleDel,
    HandleExists,
    HandleIncr,
}

/// Where a request whose first term is `term` goes, by the name of its
/// command, up to ASCII case.
pub open spec fn routes(term: Seq<u8>, route: Route) -> bool {
    if names(term, "PING") {
        route matches Route::Reply(reply) && reply@ == text("+PONG\r\n")
    } else if names(term, "GET") {
        route is HandleGet
    } else if names(term, "SET") {
        route is HandleSet
    } else if names(term, "COMMAND") {
        route matches Route::Reply(reply) && reply@ == text("*0\r\n")
    } else if names(term, "DEL") {
        route is HandleDel
    } else if names(term, "EXISTS") {
        route is HandleExists
    } else if names(term, "INCR") {
        route is HandleIncr
    } else {
        route matches Route::Reply(reply) && reply@ == text("-ERR Unknown command ") + term + text("\r\n")
    }
}

/// Decides where a request goes by its first term.
pub fn route(term: &str) -> (route: Route)
    ensures
        routes(text(term), route),
{
    let name = slice_to_vec(term.as_bytes());
    let mut reply: Vec<u8> = Vec::new();
    if is_named(&name, "PING") {
        append_text(&mut reply, "+PONG\r\n");
        Route::Reply(reply)
    } else if is_named(&name, "GET") {
        Route::HandleGet
    } else if is_named(&name, "SET") {
        Route::HandleSet
    } else if is_named(&name, "COMMAND") {
        append_text(&mut reply, "*0\r\n");
        Route::Reply(reply)
    } else if is_named(&name, "DEL") {
        Route::HandleDel
    } else if is_named(&name, "EXISTS") {
        Route::HandleExists
    } else if is_named(&name, "INCR") {
        Route::HandleIncr
    } else {
        append_text(&mut reply, "-ERR Unknown command ");
        append_bytes(&mut reply, &name);
        append_text(&mut reply, "\r\n");
        Route::Reply(reply)
    }
}

} // verus!
