use rusty_request::Multipart;

fn body_string(form: &Multipart) -> (String, String) {
    let (body, content_type) = form.encode();
    (String::from_utf8_lossy(&body).into_owned(), content_type)
}

#[test]
fn content_type_header_carries_the_boundary_used_in_the_body() {
    let form = Multipart::new().text("a", "1");
    let (body, content_type) = body_string(&form);
    let boundary = content_type
        .strip_prefix("multipart/form-data; boundary=")
        .unwrap();
    assert!(body.contains(&format!("--{boundary}\r\n")));
    assert!(body.ends_with(&format!("--{boundary}--\r\n")));
}

#[test]
fn text_part_has_no_content_type_or_filename() {
    let form = Multipart::new().text("field", "value");
    let (body, _) = body_string(&form);
    assert!(body.contains("Content-Disposition: form-data; name=\"field\"\r\n\r\nvalue\r\n"));
    assert!(!body.contains("filename="));
    assert!(!body.contains("Content-Type: application/octet-stream"));
}

#[test]
fn file_part_defaults_to_octet_stream() {
    let form = Multipart::new().file("upload", "a.bin", vec![1, 2, 3]);
    let (body, _) = body_string(&form);
    assert!(body.contains(
        "Content-Disposition: form-data; name=\"upload\"; filename=\"a.bin\"\r\n\
         Content-Type: application/octet-stream\r\n\r\n"
    ));
}

#[test]
fn file_part_with_explicit_content_type() {
    let form =
        Multipart::new().file_with_content_type("upload", "a.png", "image/png", vec![0xff]);
    let (body, _) = body_string(&form);
    assert!(body.contains("Content-Type: image/png\r\n"));
}

#[test]
fn multiple_parts_are_each_preceded_by_a_boundary() {
    let form = Multipart::new().text("a", "1").text("b", "2");
    let (body, content_type) = body_string(&form);
    let boundary = content_type
        .strip_prefix("multipart/form-data; boundary=")
        .unwrap();
    assert_eq!(body.matches(&format!("--{boundary}\r\n")).count(), 2);
}

#[test]
fn quotes_and_backslashes_in_names_are_escaped() {
    let form = Multipart::new().text("weird\"name\\", "value");
    let (body, _) = body_string(&form);
    assert!(body.contains("name=\"weird\\\"name\\\\\""));
}

#[test]
fn binary_file_content_round_trips_unmodified() {
    let bytes = vec![0u8, 1, 2, 0xff, 0xfe, b'\r', b'\n'];
    let form = Multipart::new().file("f", "bin", bytes.clone());
    let (body, _) = form.encode();
    let window = body
        .windows(bytes.len())
        .position(|w| w == bytes.as_slice());
    assert!(window.is_some());
}

#[test]
fn successive_boundaries_are_not_equal() {
    let (_, ct1) = Multipart::new().text("a", "1").encode();
    let (_, ct2) = Multipart::new().text("a", "1").encode();
    assert_ne!(ct1, ct2);
}

#[test]
fn is_empty_reflects_whether_any_part_was_added() {
    assert!(Multipart::new().is_empty());
    assert!(!Multipart::new().text("a", "1").is_empty());
}

#[test]
fn whole_form_with_a_given_boundary() {
    let form = Multipart::default()
        .text("a", "é")
        .file_with_content_type("f", "n\".txt", "text/plain", vec![0, 255]);
    let (body, content_type) = form.encode_with_boundary("XX");
    assert_eq!(content_type, "multipart/form-data; boundary=XX");
    let mut wanted = b"--XX\r\nContent-Disposition: form-data; name=\"a\"\r\n\r\n\xc3\xa9\r\n\
        --XX\r\nContent-Disposition: form-data; name=\"f\"; filename=\"n\\\".txt\"\r\n\
        Content-Type: text/plain\r\n\r\n"
        .to_vec();
    wanted.extend_from_slice(&[0, 255]);
    wanted.extend_from_slice(b"\r\n--XX--\r\n");
    assert_eq!(body, wanted);
    assert_eq!(
        rusty_request::multipart::boundary_of(1, 0xabcdef),
        "RustyRequestBoundary00000000000000010000000000abcdef"
    );
    assert_eq!(rusty_request::multipart::quote_escape("a\"b\\c"), "a\\\"b\\\\c");
}
