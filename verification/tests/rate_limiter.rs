use routing::error::RoutingError;
use routing::rate_limiter::{
    ClientIp, PayloadKind, RateLimiter, CAPACITY, MAX_CLIENTS_PER_PROXY,
    MAX_IMMUTABLE_DATA_SIZE_IN_BYTES,
};

fn ipv4(a: [u8; 4]) -> ClientIp {
    ClientIp(0, u32::from_be_bytes(a) as u128)
}

fn get(limiter: &mut RateLimiter, leaked: u64, online: u64, ip: ClientIp, hash: &[u8; 32]) -> Result<u64, RoutingError> {
    limiter.add_message(leaked, online, ip, hash, 1, 0, PayloadKind::GetIData, 60)
}

fn assert_exceeds(result: Result<u64, RoutingError>, hash: [u8; 32]) {
    match result {
        Err(RoutingError::ExceedsRateLimit(returned_hash)) => assert_eq!(hash, returned_hash),
        _ => panic!("unexpected result"),
    }
}

#[test]
fn add_message() {
    // First client fills the rate limiter with get requests.
    let mut rate_limiter = RateLimiter::new();
    let client_1 = ipv4([0, 0, 0, 0]);
    let hash = [7u8; 32];
    let fill_full_iterations = CAPACITY / MAX_IMMUTABLE_DATA_SIZE_IN_BYTES;
    for _ in 0..fill_full_iterations {
        assert_eq!(get(&mut rate_limiter, 0, 1, client_1, &hash), Ok(MAX_IMMUTABLE_DATA_SIZE_IN_BYTES));
    }

    // A second client can't add a message just now.
    let client_2 = ipv4([1, 1, 1, 1]);
    assert_exceeds(get(&mut rate_limiter, 0, 1, client_2, &hash), hash);

    // Once one get request's worth has drained, the second client may send one.
    let drained = MAX_IMMUTABLE_DATA_SIZE_IN_BYTES;
    assert!(get(&mut rate_limiter, drained, 2, client_2, &hash).is_ok());

    // The next drain is shared by both clients, so the second still uses half a request and
    // exceeds its share when every proxy slot is taken.
    assert_exceeds(get(&mut rate_limiter, drained, MAX_CLIENTS_PER_PROXY, client_2, &hash), hash);

    // Invalid messages.
    assert_eq!(
        rate_limiter.add_message(0, MAX_CLIENTS_PER_PROXY, client_2, &[0u8; 32], 2, 0, PayloadKind::ExtraBytes, MAX_IMMUTABLE_DATA_SIZE_IN_BYTES),
        Err(RoutingError::InvalidMessage)
    );
    // The second client exceeds its own usage cap.
    assert_exceeds(get(&mut rate_limiter, 0, MAX_CLIENTS_PER_PROXY, client_2, &hash), hash);
    // With fewer clients online its cap is larger.
    assert!(get(&mut rate_limiter, 0, 2, client_2, &hash).is_ok());

    // Wait for the same period, and push up the second client's usage.
    assert!(get(&mut rate_limiter, drained, 2, client_2, &hash).is_ok());
    // Waiting once more leaves the second client over its share of a full proxy.
    assert_exceeds(get(&mut rate_limiter, drained, MAX_CLIENTS_PER_PROXY, client_2, &hash), hash);
}

#[test]
fn charges_and_refusals() {
    let mut limiter = RateLimiter::new();
    let ip = ipv4([10, 0, 0, 1]);
    let h = [1u8; 32];
    assert_eq!(limiter.add_message(0, 1, ip, &h, 1, 0, PayloadKind::Mutation, 500), Ok(500));
    assert_eq!(limiter.usage_of(ip), 500);
    assert_eq!(limiter.add_message(0, 1, ip, &h, 1, 0, PayloadKind::OtherGet, 3), Ok(1024 * 1024));
    assert_eq!(limiter.add_message(0, 1, ip, &h, 1, 0, PayloadKind::Refresh, 3), Err(RoutingError::InvalidMessage));
    assert_eq!(limiter.add_message(0, 1, ip, &h, 1, 0, PayloadKind::Response, 3), Err(RoutingError::InvalidMessage));
    assert_eq!(limiter.add_message(0, 1, ip, &h, 1, 0, PayloadKind::Unparsed, 3), Err(RoutingError::InvalidMessage));
    assert_eq!(limiter.add_message(0, 1, ip, &h, 3, 0, PayloadKind::Unparsed, 30), Ok(30));
    assert_eq!(limiter.add_message(0, 1, ip, &h, 3, 1, PayloadKind::Response, 40), Ok(40));
    assert_eq!(limiter.add_message(0, 1, ip, &h, 2, 0, PayloadKind::Mutation, 40), Err(RoutingError::InvalidMessage));
    assert_eq!(limiter.total_used(), 500 + 1024 * 1024 + 70);
}

#[test]
fn leak_favours_the_least_used() {
    let mut limiter = RateLimiter::new();
    let a = ipv4([1, 0, 0, 0]);
    let b = ipv4([2, 0, 0, 0]);
    assert!(limiter.add_message(0, 2, a, &[0; 32], 1, 0, PayloadKind::Mutation, 100).is_ok());
    assert!(limiter.add_message(0, 2, b, &[0; 32], 1, 0, PayloadKind::Mutation, 1000).is_ok());
    // 600 bytes leak: `a` drops out with its 100, `b` is relieved of the other 500.
    limiter.update(600);
    assert_eq!(limiter.usage_of(a), 0);
    assert_eq!(limiter.usage_of(b), 500);
    limiter.update(10_000);
    assert_eq!(limiter.total_used(), 0);
}
