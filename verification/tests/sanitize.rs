use blood_money::sanitize::sanitize_auction_body;

#[test]
fn sanitize_rewrites_invalid_owner_bytes() {
    // `"owner":"X\xffY","ownerRealm":"Z","bid":5` — the 0xff byte is not
    // valid text, which is exactly why the sanitizer works on bytes.
    let mut input: Vec<u8> = Vec::new();
    input.extend_from_slice(b"\"owner\":\"X");
    input.push(0xff);
    input.extend_from_slice(b"Y\",\"ownerRealm\":\"Z\",\"bid\":5");
    let out = sanitize_auction_body(&input);
    assert_eq!(out, b"\"owner\":\"_\",\"ownerRealm\":\"_\",\"bid\":5".to_vec());
}

#[test]
fn sanitized_document_is_decodable() {
    let mut input: Vec<u8> = Vec::new();
    input.extend_from_slice(b"{\"owner\":\"X");
    input.push(0xff);
    input.extend_from_slice(b"Y\",\"ownerRealm\":\"Z\",\"bid\":5}");
    assert!(serde_json::from_slice::<serde_json::Value>(&input).is_err());
    let out = sanitize_auction_body(&input);
    let doc: serde_json::Value = serde_json::from_slice(&out).unwrap();
    assert_eq!(doc["owner"].as_str().unwrap(), "_");
    assert_eq!(doc["ownerRealm"].as_str().unwrap(), "_");
    assert_eq!(doc["bid"].as_u64().unwrap(), 5);
}

#[test]
fn sanitize_leaves_plain_text_alone() {
    let input = b"{\"quantity\":3,\"buyout\":100}".to_vec();
    let out = sanitize_auction_body(&input);
    assert_eq!(out, input);
}

#[test]
fn sanitize_rewrites_every_occurrence() {
    let input = b"\"owner\":\"a\",\"ownerRealm\":\"r\",\"bid\":1,\
                  \"owner\":\"b\",\"ownerRealm\":\"s\",\"bid\":2"
        .to_vec();
    let out = sanitize_auction_body(&input);
    assert_eq!(
        out,
        b"\"owner\":\"_\",\"ownerRealm\":\"_\",\"bid\":1,\
          \"owner\":\"_\",\"ownerRealm\":\"_\",\"bid\":2"
            .to_vec()
    );
}

#[test]
fn sanitize_does_not_match_across_newlines() {
    let input = b"\"owner\":\"a\nb\",\"ownerRealm\":\"r\",\"bid\":1".to_vec();
    let out = sanitize_auction_body(&input);
    assert_eq!(out, input);
}

#[test]
fn sanitize_takes_shortest_owner_region() {
    // The owner region stops at the first separator: the second separator
    // occurrence belongs to the tail, not to the match.
    let input = b"\"owner\":\"a\",\"ownerRealm\":\"r\",\"bid\":1,\"ownerRealm\":\"x\"".to_vec();
    let out = sanitize_auction_body(&input);
    assert_eq!(
        out,
        b"\"owner\":\"_\",\"ownerRealm\":\"_\",\"bid\":1,\"ownerRealm\":\"x\"".to_vec()
    );
}
