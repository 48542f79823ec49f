use vstd::prelude::*;
use vstd::string::StringSliceAdditionalSpecFns;

use crate::wish::protocol::{bulk, crlf};
use crate::wish::util::{decimal, signed_decimal, spell_signed, spell_unsigned};
use crate::wish::grant::Gift;
use crate::wish::{Command, InfoType, Response, Sacrilege};

verus! {

broadcast use crate::byte_map::lemma_bytes_deep_view;

/// The bytes of a piece of text.
pub open spec fn text(s: &str) -> Seq<u8> {
    s.spec_bytes()
}

/// The name of a command as error messages give it.
pub open spec fn command_name(c: Command) -> &'static str {
    match c {
        Command::PING => "ping",
        Command::SET => "set",
        Command::GET => "get",
        Command::EX => "ex",
        Command::INCR => "incr",
        Command::DECR => "decr",
        Command::APPEND => "append",
        Command::STRLEN => "strlen",
        Command::EXISTS => "exists",
        Command::DEL => "del",
        Command::HSET => "hset",
        Command::HGET => "hget",
        Command::HMGET => "hmget",
        Command::HDEL => "hdel",
        Command::HEXISTS => "hexists",
        Command::HLEN => "hlen",
        Command::LPUSH => "lpush",
        Command::LPOP => "lpop",
        Command::RPUSH => "rpush",
        Command::RPOP => "rpop",
        Command::LLEN => "llen",
        Command::LRANGE => "lrange",
        Command::LINDEX => "lindex",
        Command::LSET => "lset",
        Command::LREM => "lrem",
        Command::EXPIRE => "expire",
        Command::TTL => "ttl",
        Command::SUBSCRIBE => "subscribe",
        Command::PUBLISH => "publish",
        Command::MSET => "mset",
        Command::MGET => "mget",
        Command::SADD => "sadd",
        Command::SREM => "srem",
        Command::SISMEMBER => "sismember",
        Command::HGETALL => "hgetall",
        Command::SMEMBERS => "smembers",
    }
}

/// A bulk string, or the nil bulk string.
pub open spec fn bulk_or_nil(o: Option<Seq<u8>>) -> Seq<u8> {
    match o {
        Some(v) => bulk(v),
        None => text("$-1\r\n"),
    }
}

/// The items of an array reply, one after the other.
pub open spec fn bulk_items(items: Seq<Option<Seq<u8>>>) -> Seq<u8>
    decreases items.len(),
{
    if items.len() == 0 {
        Seq::empty()
    } else {
        bulk_items(items.drop_last()) + bulk_or_nil(items.last())
    }
}

/// An integer reply with the given digits.
pub open spec fn integer_reply(digits: Seq<u8>) -> Seq<u8> {
    text(":") + digits + crlf()
}

/// A push notice: the kind, the channel and the channel count.
pub open spec fn notice(kind: &str, channel: Seq<u8>, count: nat) -> Seq<u8> {
    text("*3\r\n") + bulk(text(kind)) + bulk(channel) + integer_reply(decimal(count))
}

/// One notice for each channel, one after the other.
pub open spec fn notices(kind: &str, channels: Seq<(Seq<u8>, nat)>) -> Seq<u8>
    decreases channels.len(),
{
    if channels.len() == 0 {
        Seq::empty()
    } else {
        notices(kind, channels.drop_last()) + notice(kind, channels.last().0, channels.last().1)
    }
}

/// The channels of a reply, each taken by its bytes.
pub open spec fn channel_views(channels: Seq<(Vec<u8>, usize)>) -> Seq<(Seq<u8>, nat)> {
    channels.map_values(|c: (Vec<u8>, usize)| (c.0@, c.1 as nat))
}

/// The error line of an offence.
pub open spec fn error_line(s: Sacrilege) -> Seq<u8> {
    match s {
        Sacrilege::UnknownCommand => text("-ERR unknown command\r\n"),
        Sacrilege::IncorrectUsage(Command::INCR) | Sacrilege::IncorrectUsage(Command::DECR) =>
            text("-ERR value is not an integer or out of range\r\n"),
        Sacrilege::IncorrectUsage(Command::LSET) | Sacrilege::IncorrectUsage(Command::LINDEX) =>
            text("-ERR index out of range\r\n"),
        Sacrilege::IncorrectUsage(_) =>
            text("-WRONGTYPE Operation against a key holding the wrong kind of value\r\n"),
        Sacrilege::IncorrectNumberOfArguments(c) =>
            text("-ERR wrong number of arguments for '") + text(command_name(c)) + text("' command\r\n"),
        Sacrilege::SubscriberOnlyMode =>
            text("-ERR only SUBSCRIBE / UNSUBSCRIBE / PING / QUIT allowed in this context\r\n"),
    }
}

/// The bytes that answer a client with `response`.
pub open spec fn render(response: &Response) -> Seq<u8> {
    match response {
        Response::Info(InfoType::OK) => text("+OK\r\n"),
        Response::Info(InfoType::Pong) => text("+PONG\r\n"),
        Response::BulkString(b) => bulk_or_nil(b.deep_view()),
        Response::BulkStringArray(Some(items)) => text("*") + decimal(items@.len()) + crlf() + bulk_items(items.deep_view()),
        Response::BulkStringArray(None) => text("$-1\r\n"),
        Response::Amount(a) => integer_reply(decimal(*a as nat)),
        Response::Number(n) => integer_reply(signed_decimal(*n as int)),
        Response::Length(l) => integer_reply(decimal(*l as nat)),
        Response::SubscribedChannels(channels) => notices("subscribe", channel_views(channels@)),
        Response::UnsubscribedChannels(Some(channels)) => notices("unsubscribe", channel_views(channels@)),
        Response::UnsubscribedChannels(None) =>
            text("*3\r\n") + bulk(text("unsubscribe")) + text("$-1\r\n") + text(":0\r\n"),
        Response::Error(s) => error_line(*s),
    }
}

/// Appends the bytes of `s`.
fn put_text(out: &mut Vec<u8>, s: &str)
    ensures
        final(out)@ == old(out)@ + text(s),
{
    let b = s.as_bytes();
    let mut i: usize = 0;
    while i < b.len()
        invariant
            i <= b@.len(),
            b@ == s.spec_bytes(),
            out@ == old(out)@ + b@.subrange(0, i as int),
        decreases b@.len() - i,
    {
        out.push(b[i]);
        i += 1;
        assert(out@ =~= old(out)@ + b@.subrange(0, i as int));
    }
    assert(b@.subrange(0, b@.len() as int) =~= b@);
}

/// Appends the bytes of `bytes`.
fn put_bytes(out: &mut Vec<u8>, bytes: &Vec<u8>)
    ensures
        final(out)@ == old(out)@ + bytes@,
{
    let mut i: usize = 0;
    while i < bytes.len()
        invariant
            i <= bytes@.len(),
            out@ == old(out)@ + bytes@.subrange(0, i as int),
        decreases bytes@.len() - i,
    {
        out.push(bytes[i]);
        i += 1;
        assert(out@ =~= old(out)@ + bytes@.subrange(0, i as int));
    }
    assert(bytes@.subrange(0, bytes@.len() as int) =~= bytes@);
}

/// Appends a line ending.
fn put_crlf(out: &mut Vec<u8>)
    ensures
        final(out)@ == old(out)@ + crlf(),
{
    out.push(13u8);
    out.push(10u8);
    assert(out@ =~= old(out)@ + crlf());
}

/// Appends `bytes` as a bulk string.
fn put_bulk(out: &mut Vec<u8>, bytes: &Vec<u8>)
    ensures
        final(out)@ == old(out)@ + bulk(bytes@),
{
    let ghost start = out@;
    out.push(36u8);
    let length = spell_unsigned(bytes.len() as u64);
    put_bytes(out, &length);
    put_crlf(out);
    put_bytes(out, bytes);
    put_crlf(out);
    assert(out@ =~= start + bulk(bytes@));
}

/// Appends the bytes of `s` as a bulk string.
fn put_bulk_text(out: &mut Vec<u8>, s: &str)
    ensures
        final(out)@ == old(out)@ + bulk(text(s)),
{
    let mut bytes: Vec<u8> = Vec::new();
    put_text(&mut bytes, s);
    assert(bytes@ =~= text(s));
    put_bulk(out, &bytes);
}

/// Appends an integer reply with the given digits.
fn put_integer(out: &mut Vec<u8>, digits: &Vec<u8>)
    ensures
        final(out)@ == old(out)@ + integer_reply(digits@),
{
    let ghost start = out@;
    put_text(out, ":");
    put_bytes(out, digits);
    put_crlf(out);
    assert(out@ =~= start + integer_reply(digits@));
}

/// The name of a command as error messages give it.
pub fn name_of(c: Command) -> (name: &'static str)
    ensures
        name == command_name(c),
{
    match c {
        Command::PING => "ping",
        Command::SET => "set",
        Command::GET => "get",
        Command::EX => "ex",
        Command::INCR => "incr",
        Command::DECR => "decr",
        Command::APPEND => "append",
        Command::STRLEN => "strlen",
        Command::EXISTS => "exists",
        Command::DEL => "del",
        Command::HSET => "hset",
        Command::HGET => "hget",
        Command::HMGET => "hmget",
        Command::HDEL => "hdel",
        Command::HEXISTS => "hexists",
        Command::HLEN => "hlen",
        Command::LPUSH => "lpush",
        Command::LPOP => "lpop",
        Command::RPUSH => "rpush",
        Command::RPOP => "rpop",
        Command::LLEN => "llen",
        Command::LRANGE => "lrange",
        Command::LINDEX => "lindex",
        Command::LSET => "lset",
        Command::LREM => "lrem",
        Command::EXPIRE => "expire",
        Command::TTL => "ttl",
        Command::SUBSCRIBE => "subscribe",
        Command::PUBLISH => "publish",
        Command::MSET => "mset",
        Command::MGET => "mget",
        Command::SADD => "sadd",
        Command::SREM => "srem",
        Command::SISMEMBER => "sismember",
        Command::HGETALL => "hgetall",
        Command::SMEMBERS => "smembers",
    }
}

/// Appends the notices for `channels`.
fn put_notices(out: &mut Vec<u8>, kind: &str, channels: &Vec<(Vec<u8>, usize)>)
    ensures
        final(out)@ == old(out)@ + notices(kind, channel_views(channels@)),
{
    let ghost cs = channel_views(channels@);
    let mut i: usize = 0;
    assert(cs.take(0) =~= Seq::<(Seq<u8>, nat)>::empty());
    assert(old(out)@ + notices(kind, cs.take(0)) =~= old(out)@);
    while i < channels.len()
        invariant
            i <= channels@.len(),
            cs == channel_views(channels@),
            out@ == old(out)@ + notices(kind, cs.take(i as int)),
        decreases channels@.len() - i,
    {
        let ghost before = out@;
        put_text(out, "*3\r\n");
        put_bulk_text(out, kind);
        put_bulk(out, &channels[i].0);
        let count = spell_unsigned(channels[i].1 as u64);
        put_integer(out, &count);
        assert(cs.take(i + 1).drop_last() =~= cs.take(i as int));
        assert(out@ =~= before + notice(kind, cs[i as int].0, cs[i as int].1));
        assert(out@ =~= old(out)@ + notices(kind, cs.take(i + 1)));
        i += 1;
    }
    assert(cs.take(channels@.len() as int) =~= cs);
}

/// Appends the error line of an offence.
fn put_error(out: &mut Vec<u8>, s: Sacrilege)
    ensures
        final(out)@ == old(out)@ + error_line(s),
{
    match s {
        Sacrilege::UnknownCommand => put_text(out, "-ERR unknown command\r\n"),
        Sacrilege::IncorrectUsage(command) => match command {
            Command::INCR | Command::DECR => put_text(out, "-ERR value is not an integer or out of range\r\n"),
            Command::LSET | Command::LINDEX => put_text(out, "-ERR index out of range\r\n"),
            _ => put_text(out, "-WRONGTYPE Operation against a key holding the wrong kind of value\r\n"),
        },
        Sacrilege::IncorrectNumberOfArguments(command) => {
            let ghost start = out@;
            put_text(out, "-ERR wrong number of arguments for '");
            put_text(out, name_of(command));
            put_text(out, "' command\r\n");
            assert(out@ =~= start + error_line(s));
        },
        Sacrilege::SubscriberOnlyMode => put_text(
            out,
            "-ERR only SUBSCRIBE / UNSUBSCRIBE / PING / QUIT allowed in this context\r\n",
        ),
    }
}

/// A message published on channel `event`, as each subscriber receives it.
pub open spec fn message_push(event: Seq<u8>, message: Seq<u8>) -> Seq<u8> {
    text("*3\r\n") + bulk(text("message")) + bulk(event) + bulk(message)
}

/// Writes the bytes of a broadcast: into `herald` what each subscriber of
/// `event` receives, into `receipt` the answer to the publisher, the number
/// of subscribers that the message `reached`.
pub fn proclaim(event: &Vec<u8>, message: &Vec<u8>, reached: usize, herald: &mut Vec<u8>, receipt: &mut Vec<u8>)
    ensures
        final(herald)@ == message_push(event@, message@),
        final(receipt)@ == render(&Response::Length(reached)),
{
    herald.clear();
    put_text(herald, "*3\r\n");
    put_bulk_text(herald, "message");
    put_bulk(herald, event);
    put_bulk(herald, message);
    assert(herald@ =~= message_push(event@, message@));
    receipt.clear();
    let digits = spell_unsigned(reached as u64);
    put_integer(receipt, &digits);
    assert(receipt@ =~= render(&Response::Length(reached)));
}

/// Writes into `response` the bytes that carry `gift` to its client.
pub fn egress(gift: &Gift, response: &mut Vec<u8>)
    ensures
        final(response)@ == render(&gift.response),
{
    put_response(&gift.response, response);
}

/// Writes into `out` the bytes that answer a client with `response`.
fn put_response(response: &Response, out: &mut Vec<u8>)
    ensures
        final(out)@ == render(response),
{
    out.clear();
    match response {
        Response::Info(InfoType::OK) => put_text(out, "+OK\r\n"),
        Response::Info(InfoType::Pong) => put_text(out, "+PONG\r\n"),
        Response::BulkString(bulk_string) => match bulk_string {
            Some(value) => put_bulk(out, value),
            None => put_text(out, "$-1\r\n"),
        },
        Response::BulkStringArray(bulk_string_array) => match bulk_string_array {
            Some(items) => {
                put_text(out, "*");
                let count = spell_unsigned(items.len() as u64);
                put_bytes(out, &count);
                put_crlf(out);
                let ghost head = out@;
                let ghost is = items.deep_view();
                let mut i: usize = 0;
                assert(is.take(0) =~= Seq::<Option<Seq<u8>>>::empty());
                assert(head + bulk_items(is.take(0)) =~= head);
                while i < items.len()
                    invariant
                        i <= items@.len(),
                        is == items.deep_view(),
                        out@ == head + bulk_items(is.take(i as int)),
                    decreases items@.len() - i,
                {
                    match &items[i] {
                        Some(value) => put_bulk(out, value),
                        None => put_text(out, "$-1\r\n"),
                    }
                    assert(is.take(i + 1).drop_last() =~= is.take(i as int));
                    assert(out@ =~= head + bulk_items(is.take(i + 1)));
                    i += 1;
                }
                assert(is.take(items@.len() as int) =~= is);
            },
            None => put_text(out, "$-1\r\n"),
        },
        Response::Amount(amount) => {
            let digits = spell_unsigned(*amount as u64);
            put_integer(out, &digits);
        },
        Response::Number(number) => {
            let digits = spell_signed(*number);
            put_integer(out, &digits);
        },
        Response::Length(length) => {
            let digits = spell_unsigned(*length as u64);
            put_integer(out, &digits);
        },
        Response::SubscribedChannels(channels) => put_notices(out, "subscribe", channels),
        Response::UnsubscribedChannels(unsubscribed) => match unsubscribed {
            Some(channels) => put_notices(out, "unsubscribe", channels),
            None => {
                put_text(out, "*3\r\n");
                put_bulk_text(out, "unsubscribe");
                put_text(out, "$-1\r\n");
                put_text(out, ":0\r\n");
            },
        },
        Response::Error(sacrilege) => put_error(out, *sacrilege),
    }
    assert(out@ =~= render(response));
}

} // verus!
