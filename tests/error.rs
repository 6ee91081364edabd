use verune::{Error, Iterable};

#[test]
fn messages() {
    assert_eq!(Error::UnrecognizedSyntax(3, 14).describe(), "syntax could not be properly parsed (3:14)");
    assert_eq!(
        Error::SequenceKeptOpen(Iterable::Tuple, 1, 2).describe(),
        "the tuple at location (1:2) was kept open"
    );
    assert_eq!(
        Error::SequenceKeptOpen(Iterable::Array, 10, 200).describe(),
        "the array at location (10:200) was kept open"
    );
    assert_eq!(Error::InvalidKey(7, 1).describe(), "key at location (7:1) is invalid");
    assert_eq!(Error::InvalidValue(1, 9).describe(), "value at location (1:9) was invalid");
    assert_eq!(Error::custom("boom").describe(), "boom");
    assert_eq!(Error::custom("boom"), Error::Message("boom".to_string()));
}
