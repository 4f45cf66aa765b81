use dashchat::relay::MemRelay;
use dashchat::topic::{LogId, Topic};

fn b(s: &'static str) -> Vec<u8> {
    s.as_bytes().to_vec()
}

#[test]
fn test_mem_relay() {
    let mut relay = MemRelay::new();
    let mut client = relay.client();

    let tt: [LogId; 2] = [Topic::random().log_id(), Topic::random().log_id()];

    assert!(client.fetch(&relay, &tt[0]).is_empty());
    assert!(client.fetch(&relay, &tt[1]).is_empty());

    client.publish(&mut relay, &tt[0], b("0"));
    client.publish(&mut relay, &tt[0], b("1"));

    client.publish(&mut relay, &tt[1], b("2"));
    client.publish(&mut relay, &tt[1], b("3"));

    assert_eq!(client.fetch(&relay, &tt[0]), vec![b("0"), b("1")]);
    assert_eq!(client.fetch(&relay, &tt[1]), vec![b("2"), b("3")]);
    assert!(client.fetch(&relay, &tt[0]).is_empty());
    assert!(client.fetch(&relay, &tt[1]).is_empty());

    client.publish(&mut relay, &tt[0], b("4"));
    client.publish(&mut relay, &tt[0], b("5"));

    client.publish(&mut relay, &tt[1], b("6"));
    client.publish(&mut relay, &tt[1], b("7"));

    assert_eq!(client.fetch(&relay, &tt[0]), vec![b("4"), b("5")]);
    assert_eq!(client.fetch(&relay, &tt[1]), vec![b("6"), b("7")]);
    assert!(client.fetch(&relay, &tt[0]).is_empty());
    assert!(client.fetch(&relay, &tt[1]).is_empty());
}

#[test]
fn clients_have_their_own_positions() {
    let mut relay = MemRelay::new();
    let mut first = relay.client();
    let mut second = relay.client();
    let t = Topic::untyped([3u8; 32]).log_id();
    first.publish(&mut relay, &t, b("x"));
    assert_eq!(first.fetch(&relay, &t), vec![b("x")]);
    second.publish(&mut relay, &t, b("y"));
    assert_eq!(second.fetch(&relay, &t), vec![b("x"), b("y")]);
    assert_eq!(first.fetch(&relay, &t), vec![b("y")]);
}
