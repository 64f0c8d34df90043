use classical_ciphers::error::{Error, ErrorKind};

#[test]
fn error_keeps_its_kind() {
    let kinds = [
        ErrorKind::InvalidCaesarKey,
        ErrorKind::InvalidColumnarTranspositionKey,
        ErrorKind::InvalidMonoAlphabeticKey,
        ErrorKind::InvalidRailFenceKey,
        ErrorKind::InvalidVernamKey,
    ];
    for kind in kinds {
        assert_eq!(kind, *Error::new(kind).kind());
    }
}

#[test]
fn error_messages() {
    assert_eq!(
        "<key> must be a positive integer between 1 and 25",
        Error::new(ErrorKind::InvalidCaesarKey).message()
    );
    assert_eq!(
        "<key> must be a string of integers of range 1 to n, where n is the length of the key itself, in an arbitrary order",
        Error::new(ErrorKind::InvalidColumnarTranspositionKey).message()
    );
    assert_eq!(
        "<key> must contain all 26 unique alphabets",
        Error::new(ErrorKind::InvalidMonoAlphabeticKey).message()
    );
    assert_eq!(
        "<key> must be a positive integer and bigger than 1",
        Error::new(ErrorKind::InvalidRailFenceKey).message()
    );
    assert_eq!(
        "<key> must have the same length as the input",
        Error::new(ErrorKind::InvalidVernamKey).message()
    );
}
