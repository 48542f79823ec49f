use jerusalem::temple::soul::{Soul, Value};
use jerusalem::temple::{
    serve, BroadcastCommand, ClientCommandType, ClientMap, DatabaseCommand, EventMap, Sanctum, TokenSet,
};
use jerusalem::wish::grant::Decree;
use jerusalem::wish::{InfoType, Response, Sacrilege};

fn b(s: &str) -> Vec<u8> {
    s.as_bytes().to_vec()
}

fn bs(items: &[&str]) -> Vec<Vec<u8>> {
    items.iter().map(|s| b(s)).collect()
}

fn delivered(decree: Decree, token: usize) -> Response {
    match decree {
        Decree::Deliver(gift) => {
            assert_eq!(gift.token, token);
            gift.response
        }
        Decree::Broadcast(..) => panic!("expected a reply to one client"),
    }
}

fn database(command: DatabaseCommand) -> ClientCommandType {
    ClientCommandType::Database(command)
}

fn subscribe(events: &[&str]) -> ClientCommandType {
    ClientCommandType::Broadcast(BroadcastCommand::Subscribe { events: bs(events) })
}

fn unsubscribe(terms: &[&str]) -> ClientCommandType {
    ClientCommandType::Broadcast(BroadcastCommand::Unsubscribe { terms: bs(terms) })
}

fn publish(event: &str, message: &str) -> ClientCommandType {
    ClientCommandType::Broadcast(BroadcastCommand::Publish { event: b(event), message: b(message) })
}

#[test]
fn token_set_holds_each_token_once() {
    let mut set = TokenSet::new();
    assert!(set.insert(3));
    assert!(!set.insert(3));
    assert!(set.insert(5));
    assert!(set.contains(3));
    assert_eq!(set.len(), 2);
    assert!(set.remove(3));
    assert!(!set.remove(3));
    assert_eq!(set.to_vec(), vec![5]);
}

#[test]
fn event_map_reports_new_channels_with_running_count() {
    let mut events = EventMap::default();
    assert_eq!(events.subscribe(1, bs(&["a", "a", "b"])), vec![(b("a"), 1), (b("b"), 2)]);
    assert_eq!(events.subscribe(1, bs(&["b", "c"])), vec![(b("c"), 3)]);
    let mut subscribed = TokenSet::new();
    subscribed.insert(1);
    assert_eq!(
        events.unsubscribe(bs(&["a", "x"]), 1, &mut subscribed),
        Some(vec![(b("a"), 2), (b("x"), 2)])
    );
    assert!(subscribed.contains(1));
    let mut rest = events.unsubscribe(vec![], 1, &mut subscribed).unwrap();
    rest.sort();
    assert!(rest == vec![(b("b"), 1), (b("c"), 0)] || rest == vec![(b("b"), 0), (b("c"), 1)]);
    assert!(!subscribed.contains(1));
    assert_eq!(events.unsubscribe(bs(&["a"]), 1, &mut subscribed), None);
}

#[test]
fn client_map_publishes_to_subscribers() {
    let mut clients = ClientMap::default();
    clients.subscribe(1, bs(&["news", "sport"]));
    clients.subscribe(2, bs(&["news"]));
    let mut to = clients.publish(b("news"));
    to.sort();
    assert_eq!(to, vec![1, 2]);
    clients.unsubscribe(1, &Some(vec![(b("news"), 1)]));
    assert_eq!(clients.publish(b("news")), vec![2]);
    assert_eq!(clients.publish(b("sport")), vec![1]);
    clients.unsubscribe(1, &None);
    assert_eq!(clients.publish(b("sport")), vec![1]);
    assert!(clients.publish(b("weather")).is_empty());
}

#[test]
fn serve_answers_each_request() {
    let mut soul = Soul::new();
    let r = serve(&mut soul, DatabaseCommand::Store { key: b("k"), value: (Value::String(b("v")), None) });
    assert!(matches!(r, Response::Info(InfoType::OK)));
    let r = serve(&mut soul, DatabaseCommand::Get { key: b("k"), time: 0 });
    assert!(matches!(r, Response::BulkString(Some(ref v)) if *v == b("v")));
    let r = serve(&mut soul, DatabaseCommand::Incr { key: b("k"), time: 0 });
    assert!(matches!(r, Response::Error(Sacrilege::IncorrectUsage(_))));
    let r = serve(&mut soul, DatabaseCommand::Incr { key: b("n"), time: 0 });
    assert!(matches!(r, Response::Number(1)));
    let r = serve(&mut soul, DatabaseCommand::Rpush { key: b("l"), elements: bs(&["a", "b"]), time: 0 });
    assert!(matches!(r, Response::Length(2)));
    let r = serve(&mut soul, DatabaseCommand::Lrange { key: b("l"), starting_index: 0, ending_index: -1, time: 0 });
    match r {
        Response::BulkStringArray(Some(items)) => assert_eq!(items, vec![Some(b("a")), Some(b("b"))]),
        _ => panic!("expected an array"),
    }
    let r = serve(&mut soul, DatabaseCommand::Lset { key: b("l"), index: 9, element: b("x"), time: 0 });
    assert!(matches!(r, Response::Error(Sacrilege::IncorrectUsage(_))));
    let r = serve(&mut soul, DatabaseCommand::Del { keys: bs(&["k", "n", "zz"]), time: 0 });
    assert!(matches!(r, Response::Amount(2)));
    let r = serve(&mut soul, DatabaseCommand::Ttl { key: b("l"), time: 0, nanos: 0 });
    assert!(matches!(r, Response::Number(-1)));
    let r = serve(&mut soul, DatabaseCommand::Mset { terms: bs(&["a", "1"]) });
    assert!(matches!(r, Response::Info(InfoType::OK)));
    let r = serve(&mut soul, DatabaseCommand::Mget { keys: bs(&["a", "l"]), time: 0 });
    match r {
        Response::BulkStringArray(Some(items)) => assert_eq!(items, vec![Some(b("1")), None]),
        _ => panic!("expected an array"),
    }
}

#[test]
fn sanctum_carries_out_database_requests() {
    let mut sanctum = Sanctum::new(Soul::new());
    let r = delivered(sanctum.fulfil(4, database(DatabaseCommand::Sadd { key: b("s"), values: bs(&["x"]), time: 0 })), 4);
    assert!(matches!(r, Response::Length(1)));
    let r = delivered(sanctum.fulfil(4, database(DatabaseCommand::Sismember { key: b("s"), value: b("x"), time: 0 })), 4);
    assert!(matches!(r, Response::Length(1)));
    assert_eq!(sanctum.soul().llen(b("s"), 0), Err(Sacrilege::IncorrectUsage(jerusalem::wish::Command::LLEN)));
}

#[test]
fn subscriber_hears_publish() {
    let mut sanctum = Sanctum::new(Soul::new());
    match delivered(sanctum.fulfil(1, subscribe(&["news", "sport"])), 1) {
        Response::SubscribedChannels(list) => assert_eq!(list, vec![(b("news"), 1), (b("sport"), 2)]),
        _ => panic!("expected the subscriptions"),
    }
    let _ = sanctum.fulfil(2, subscribe(&["news"]));
    match sanctum.fulfil(3, publish("news", "hello")) {
        Decree::Broadcast(from, event, message, mut to) => {
            assert_eq!(from, 3);
            assert_eq!(event, b("news"));
            assert_eq!(message, b("hello"));
            to.sort();
            assert_eq!(to, vec![1, 2]);
        }
        Decree::Deliver(_) => panic!("expected a broadcast"),
    }
    match sanctum.fulfil(3, publish("weather", "rain")) {
        Decree::Broadcast(_, _, _, to) => assert!(to.is_empty()),
        Decree::Deliver(_) => panic!("expected a broadcast"),
    }
}

#[test]
fn subscriber_may_only_handle_channels() {
    let mut sanctum = Sanctum::new(Soul::new());
    let _ = sanctum.fulfil(1, subscribe(&["news"]));
    let r = delivered(sanctum.fulfil(1, database(DatabaseCommand::Get { key: b("k"), time: 0 })), 1);
    assert!(matches!(r, Response::Error(Sacrilege::SubscriberOnlyMode)));
    let r = delivered(sanctum.fulfil(2, database(DatabaseCommand::Get { key: b("k"), time: 0 })), 2);
    assert!(matches!(r, Response::BulkString(None)));
}

#[test]
fn unsubscribed_client_hears_nothing() {
    let mut sanctum = Sanctum::new(Soul::new());
    let _ = sanctum.fulfil(1, subscribe(&["a", "b"]));
    match delivered(sanctum.fulfil(1, unsubscribe(&["a", "zz"])), 1) {
        Response::UnsubscribedChannels(Some(list)) => assert_eq!(list, vec![(b("a"), 1), (b("zz"), 1)]),
        _ => panic!("expected the unsubscriptions"),
    }
    match sanctum.fulfil(2, publish("a", "m")) {
        Decree::Broadcast(_, _, _, to) => assert!(to.is_empty()),
        Decree::Deliver(_) => panic!("expected a broadcast"),
    }
    match delivered(sanctum.fulfil(1, unsubscribe(&[])), 1) {
        Response::UnsubscribedChannels(Some(list)) => assert_eq!(list, vec![(b("b"), 0)]),
        _ => panic!("expected the unsubscriptions"),
    }
    match sanctum.fulfil(2, publish("b", "m")) {
        Decree::Broadcast(_, _, _, to) => assert!(to.is_empty()),
        Decree::Deliver(_) => panic!("expected a broadcast"),
    }
    assert!(matches!(delivered(sanctum.fulfil(1, unsubscribe(&["a"])), 1), Response::UnsubscribedChannels(None)));
    let r = delivered(sanctum.fulfil(1, database(DatabaseCommand::Incr { key: b("n"), time: 0 })), 1);
    assert!(matches!(r, Response::Number(1)));
}

#[test]
fn subscriber_mode_lasts_until_no_channel_is_left() {
    let mut sanctum = Sanctum::new(Soul::new());
    let _ = sanctum.fulfil(1, subscribe(&["a", "b"]));
    let _ = sanctum.fulfil(1, unsubscribe(&["a"]));
    let _ = sanctum.fulfil(2, publish("b", "m"));
    let r = delivered(sanctum.fulfil(1, database(DatabaseCommand::Get { key: b("k"), time: 0 })), 1);
    assert!(matches!(r, Response::Error(Sacrilege::SubscriberOnlyMode)));
    let _ = sanctum.fulfil(1, subscribe(&["c"]));
    let _ = sanctum.fulfil(1, unsubscribe(&["b", "c"]));
    let r = delivered(sanctum.fulfil(1, database(DatabaseCommand::Get { key: b("k"), time: 0 })), 1);
    assert!(matches!(r, Response::BulkString(None)));
}

#[test]
fn hgetall_and_smembers_of_absent_keys_are_empty_arrays() {
    let mut soul = Soul::new();
    match serve(&mut soul, DatabaseCommand::Hgetall { key: b("h"), time: 0 }) {
        Response::BulkStringArray(Some(items)) => assert!(items.is_empty()),
        _ => panic!("expected an empty array"),
    }
    match serve(&mut soul, DatabaseCommand::Smembers { key: b("s"), time: 0 }) {
        Response::BulkStringArray(Some(items)) => assert!(items.is_empty()),
        _ => panic!("expected an empty array"),
    }
    match serve(&mut soul, DatabaseCommand::Hmget { key: b("h"), fields: bs(&["a", "b"]), time: 0 }) {
        Response::BulkStringArray(Some(items)) => assert_eq!(items, vec![None, None]),
        _ => panic!("expected one nil per field"),
    }
}
