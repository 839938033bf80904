use stratamoto::artifact::{
    ArtifactError, MAGIC, ProgramSource, VERSION, decode_envelope, encode_envelope,
    program_source,
};

#[test]
fn another_version_fails_by_name() {
    let mut bytes = b"stratamo".to_vec();
    bytes.extend(postcard::to_allocvec(&(VERSION + 1)).unwrap());
    let expected = ArtifactError::UnsupportedVersion {
        found: VERSION + 1,
        supported: VERSION,
    };
    assert_eq!(decode_envelope(&bytes), Err(expected.clone()));
    assert!(matches!(program_source(&bytes), Err(e) if e == expected));
}

#[test]
fn the_marker_is_the_name() {
    assert_eq!(&MAGIC, b"stratamo");
}

#[test]
fn an_envelope_gives_back_its_body() {
    let body = vec![7u8, 0, 255, 128, 1];
    let bytes = encode_envelope(&body);
    assert_eq!(&bytes[..8], b"stratamo");
    assert_eq!(bytes[8], 2);
    assert_eq!(&bytes[9..], &body[..]);
    assert_eq!(decode_envelope(&bytes), Ok(body.clone()));
    assert!(matches!(program_source(&bytes), Ok(ProgramSource::Artifact(b)) if b == body));
}

#[test]
fn an_empty_body_is_still_an_envelope() {
    let bytes = encode_envelope(&[]);
    assert_eq!(bytes.len(), 9);
    assert_eq!(decode_envelope(&bytes), Ok(vec![]));
}

#[test]
fn garbage_is_not_an_artifact() {
    assert_eq!(decode_envelope(b"nope"), Err(ArtifactError::NotAnArtifact));
    assert!(matches!(program_source(b"nope"), Ok(ProgramSource::Bare)));
    // The right length, the wrong marker.
    assert_eq!(decode_envelope(b"stratamX\x02"), Err(ArtifactError::NotAnArtifact));
    // The marker without a version after it.
    assert_eq!(decode_envelope(b"stratamo"), Err(ArtifactError::NotAnArtifact));
    // A version that runs past what a u32 holds.
    assert_eq!(
        decode_envelope(b"stratamo\xff\xff\xff\xff\x10"),
        Err(ArtifactError::NotAnArtifact)
    );
    assert!(matches!(program_source(b"stratamo"), Ok(ProgramSource::Bare)));
}

#[test]
fn a_long_version_is_read_whole() {
    let mut bytes = b"stratamo".to_vec();
    bytes.extend(postcard::to_allocvec(&u32::MAX).unwrap());
    bytes.push(9);
    assert_eq!(
        decode_envelope(&bytes),
        Err(ArtifactError::UnsupportedVersion {
            found: u32::MAX,
            supported: VERSION
        })
    );
    // A version written longer than it needs to be is still read.
    assert_eq!(decode_envelope(b"stratamo\x82\x00\x09"), Ok(vec![9]));
}

#[test]
fn errors_say_what_went_wrong() {
    assert_eq!(ArtifactError::NotAnArtifact.message(), "not a stratamoto artifact");
    assert_eq!(
        ArtifactError::UnsupportedVersion {
            found: 3,
            supported: 2
        }
        .message(),
        "artifact version 3 is not supported; this build reads version 2"
    );
    assert_eq!(
        ArtifactError::Corrupt("short".to_string()).message(),
        "corrupt artifact: short"
    );
}

#[test]
fn a_truncated_envelope_hands_back_what_is_left_of_its_body() {
    let body = vec![1u8, 2, 3, 4, 5, 6, 7, 8];
    let bytes = encode_envelope(&body);
    let cut = &bytes[..12];
    assert_eq!(decode_envelope(cut), Ok(vec![1, 2, 3]));
    assert!(matches!(program_source(cut), Ok(ProgramSource::Artifact(b)) if b == vec![1, 2, 3]));
    assert_eq!(decode_envelope(b"nope"), Err(ArtifactError::NotAnArtifact));
}
