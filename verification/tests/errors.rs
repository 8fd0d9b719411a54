use datagram_chunker::DatagramChunkerError;
use err_rs::ErrorLevel;
use std::io;

#[test]
fn oversized_item_is_critical() {
    assert_eq!(DatagramChunkerError::ItemSizeTooBig.error_level(), ErrorLevel::Critical);
}

#[test]
fn codec_failure_is_informative() {
    let error = DatagramChunkerError::IoError(io::Error::from(io::ErrorKind::UnexpectedEof));
    assert_eq!(error.error_level(), ErrorLevel::Info);
}

#[test]
fn io_error_becomes_the_io_variant() {
    let error = DatagramChunkerError::from(io::Error::from(io::ErrorKind::InvalidInput));
    match error {
        DatagramChunkerError::IoError(inner) => {
            assert_eq!(inner.kind(), io::ErrorKind::InvalidInput)
        }
        other => panic!("expected the io variant, got {:?}", other),
    }
}

#[test]
fn errors_can_be_printed_for_debugging() {
    assert_eq!(format!("{:?}", DatagramChunkerError::ItemSizeTooBig), "ItemSizeTooBig");
}
