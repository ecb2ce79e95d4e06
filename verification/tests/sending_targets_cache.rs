use routing::sending_targets_cache::{Endpoint, SendingTargetsCache, TargetState};

fn ep(n: u16) -> Endpoint {
    Endpoint { ip: 0x7f00_0001, port: n }
}

#[test]
fn failed_targets_are_replaced_by_the_least_failed_one() {
    let mut cache = SendingTargetsCache::default();
    let token = 7;
    cache.insert_message(token, &[ep(1), ep(2), ep(3)], 2);
    assert_eq!(
        cache.targets(token).unwrap(),
        vec![
            (ep(1), TargetState::Sending(0)),
            (ep(2), TargetState::Sending(0)),
            (ep(3), TargetState::Failed(0)),
        ]
    );
    let next = cache.target_failed(token, ep(1));
    assert_eq!(next.addr, ep(3));
    assert_eq!(next.failed_attempts, 0);
    cache.target_succeeded(token, ep(2));
    assert!(cache.targets(token).is_some());
    // Both remaining targets failed once: the earlier one is tried again.
    let next = cache.target_failed(token, ep(3));
    assert_eq!(next.addr, ep(1));
    assert_eq!(next.failed_attempts, 1);
    cache.target_succeeded(token, ep(1));
    // Nothing is being sent any more: the message is forgotten.
    assert!(cache.targets(token).is_none());
}

#[test]
fn unknown_message_reports_the_failed_target() {
    let mut cache = SendingTargetsCache::default();
    let next = cache.target_failed(1, ep(9));
    assert_eq!(next.addr, ep(9));
    assert_eq!(next.failed_attempts, 1);
    assert!(cache.targets(1).is_none());
    assert!(TargetState::Sending(3).is_sending());
    assert!(!TargetState::Failed(3).is_sending());
    assert!(!TargetState::Sent.is_sending());
}
