use routing::error::{InterfaceError, RoutingError};

#[test]
fn descriptions() {
    assert_eq!(InterfaceError::NotConnected.description(), "Not Connected");
    assert_eq!(RoutingError::NotBootstrapped.description(), "Not bootstrapped");
    assert_eq!(RoutingError::DuplicateSignatures.description(), "Duplicate signatures");
    assert_ne!(
        RoutingError::DuplicateSignatures.description(),
        RoutingError::NotEnoughSignatures.description()
    );
    assert_eq!(
        RoutingError::from_interface(InterfaceError::NotConnected).description(),
        "Interface error"
    );
    assert_eq!(
        RoutingError::from_interface(InterfaceError::NotConnected),
        RoutingError::Interface(InterfaceError::NotConnected)
    );
}
