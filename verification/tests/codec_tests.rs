//! The blob-to-text codec and the data-reference helpers.

use mod_manager::codec::{base64_decode, base64_encode, make_data_url, strip_data_url_prefix};

#[test]
fn encode_known_vectors() {
    assert_eq!(base64_encode(&b"".to_vec()), b"".to_vec());
    assert_eq!(base64_encode(&b"f".to_vec()), b"Zg==".to_vec());
    assert_eq!(base64_encode(&b"fo".to_vec()), b"Zm8=".to_vec());
    assert_eq!(base64_encode(&b"foo".to_vec()), b"Zm9v".to_vec());
    assert_eq!(base64_encode(&b"foob".to_vec()), b"Zm9vYg==".to_vec());
    assert_eq!(base64_encode(&b"fooba".to_vec()), b"Zm9vYmE=".to_vec());
    assert_eq!(base64_encode(&b"foobar".to_vec()), b"Zm9vYmFy".to_vec());
}

#[test]
fn decode_known_vectors() {
    assert_eq!(base64_decode(&b"".to_vec()), Ok(b"".to_vec()));
    assert_eq!(base64_decode(&b"Zg==".to_vec()), Ok(b"f".to_vec()));
    assert_eq!(base64_decode(&b"Zm8=".to_vec()), Ok(b"fo".to_vec()));
    assert_eq!(base64_decode(&b"Zm9v".to_vec()), Ok(b"foo".to_vec()));
    assert_eq!(base64_decode(&b"Zm9vYmFy".to_vec()), Ok(b"foobar".to_vec()));
}

#[test]
fn decode_reports_the_first_invalid_byte() {
    assert_eq!(base64_decode(&b"Zg!=".to_vec()), Err(b'!'));
    assert_eq!(base64_decode(&b"Z[g=".to_vec()), Err(b'['));
}

#[test]
fn round_trip_over_binary_data() {
    let data: Vec<u8> = (0u16..=255).map(|b| b as u8).collect();
    let encoded = base64_encode(&data);
    assert_eq!(base64_decode(&encoded), Ok(data));
}

#[test]
fn strip_prefix_takes_segment_after_first_comma() {
    assert_eq!(
        strip_data_url_prefix(&b"data:image/png;base64,AAAA".to_vec()),
        b"AAAA".to_vec()
    );
    // Without a comma the whole text is the payload.
    assert_eq!(strip_data_url_prefix(&b"AAAA".to_vec()), b"AAAA".to_vec());
    // A second comma ends the payload.
    assert_eq!(strip_data_url_prefix(&b"head,mid,tail".to_vec()), b"mid".to_vec());
}

#[test]
fn data_url_is_assembled_around_the_payload() {
    assert_eq!(
        make_data_url(&b"png".to_vec(), &b"AAAA".to_vec()),
        b"data:image/png;base64,AAAA".to_vec()
    );
}
