use routing::{MAJORITY_DENOMINATOR, MAJORITY_NUMERATOR};

#[test]
#[allow(clippy::assertions_on_constants)]
fn quorum_check() {
    assert!(
        MAJORITY_NUMERATOR < MAJORITY_DENOMINATOR,
        "Majority impossible to achieve"
    );
    assert!(
        MAJORITY_NUMERATOR * 2 >= MAJORITY_DENOMINATOR,
        "Majority does not guarantee agreement"
    );
}
