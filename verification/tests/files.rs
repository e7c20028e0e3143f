use zhtta::pages::HTTP_OK;
use zhtta::server::WebServer;
use zhtta::static_file::{Delivery, OpenFile};

fn server() -> WebServer {
    WebServer::new("127.0.0.1", 4414, "./www")
}

fn file(text: &str) -> Option<OpenFile> {
    Some(OpenFile { size: Some(text.len() as u64), bytes: text.as_bytes().to_vec(), ended: true })
}

/// Answers a request, sends all of the reply and keeps what it has to keep.
fn respond(s: &mut WebServer, path: &str, file: &Option<OpenFile>) -> (Vec<String>, Delivery) {
    let reply = s.respond_with_static_file(path, file);
    let result = (reply.pieces.clone(), reply.delivery);
    s.keep_file(path, reply);
    result
}

#[test]
fn nothing_is_kept_before_all_was_sent() {
    let mut s = server();
    let reply = s.respond_with_static_file("/a", &file("hello"));
    assert_eq!(reply.to_keep, Some("hello".to_string()));
    assert!(!s.is_kept("/a"));
    // Where sending fails the reply is dropped, and the file is sent anew.
    let again = s.respond_with_static_file("/a", &file("changed"));
    assert_eq!(again.pieces, vec![HTTP_OK.to_string(), "changed".to_string()]);
    s.keep_file("/a", again);
    assert!(s.is_kept("/a"));
    assert_eq!(s.respond_with_static_file("/a", &None).to_keep, None);
    assert_eq!(s.respond_with_static_file("/b", &None).to_keep, None);
}

#[test]
fn file_is_sent_with_a_head_and_then_kept() {
    let mut s = server();
    assert!(!s.is_kept("/a"));
    let first = respond(&mut s, "/a", &file("hello"));
    assert_eq!(first.0.concat(), format!("{}hello", HTTP_OK));
    assert_eq!(first.1, Delivery::Complete);
    assert!(s.is_kept("/a"));
    assert!(!s.is_kept("/b"));
    // From now on the file itself plays no part.
    let second = respond(&mut s, "/a", &file("changed"));
    assert_eq!(second.0.concat(), "hello");
    assert_eq!(second.1, Delivery::Complete);
    let third = respond(&mut s, "/a", &None);
    assert_eq!(third.0.concat(), "hello");
    assert_eq!(third.1, Delivery::Complete);
}

#[test]
fn long_files_are_sent_whole() {
    for n in [999, 1000, 1001, 2000, 2001, 3500] {
        let text: String = "abcdefg\n".chars().cycle().take(n).collect();
        let mut s = server();
        let reply = respond(&mut s, "/a", &file(&text));
        assert_eq!(reply.0.concat(), format!("{}{}", HTTP_OK, text));
        assert_eq!(reply.1, Delivery::Complete);
    }
}

#[test]
fn missing_file() {
    let mut s = server();
    let reply = respond(&mut s, "/a", &None);
    assert_eq!(reply.0.concat(), "");
    assert_eq!(reply.1, Delivery::NoFile);
    assert!(!s.is_kept("/a"));
}

#[test]
fn file_that_is_no_text() {
    let mut s = server();
    let reply = respond(
        &mut s,
        "/a",
        &Some(OpenFile { size: Some(2), bytes: vec![0xff, 0xfe], ended: true }),
    );
    assert_eq!(reply.0.concat(), HTTP_OK);
    assert_eq!(reply.1, Delivery::NotText);
    assert!(!s.is_kept("/a"));
}

#[test]
fn character_across_two_chunks_is_no_text() {
    let mut text = "a".repeat(999);
    text.push('é');
    text.push_str("end");
    let mut s = server();
    let reply = respond(&mut s, "/a", &file(&text));
    assert_eq!(reply.0.concat(), HTTP_OK);
    assert_eq!(reply.1, Delivery::NotText);
    // In the second chunk: the first was sent.
    let mut later = "b".repeat(1999);
    later.push('é');
    later.push_str("end");
    let reply = respond(&mut s, "/b", &file(&later));
    assert_eq!(reply.0.concat(), format!("{}{}", HTTP_OK, "b".repeat(1000)));
    assert_eq!(reply.1, Delivery::NotText);
}

#[test]
fn character_within_a_chunk_is_text() {
    let text = format!("{}é{}", "a".repeat(998), "b".repeat(500));
    let mut s = server();
    let reply = respond(&mut s, "/a", &file(&text));
    assert_eq!(reply.0.concat(), format!("{}{}", HTTP_OK, text));
    assert_eq!(reply.1, Delivery::Complete);
}

#[test]
fn file_that_shrank() {
    let mut s = server();
    let reply = respond(
        &mut s,
        "/a",
        &Some(OpenFile { size: Some(2500), bytes: vec![b'x'; 1500], ended: true }),
    );
    assert_eq!(reply.0.concat(), format!("{}{}", HTTP_OK, "x".repeat(1000)));
    assert_eq!(reply.1, Delivery::CutShort);
    assert!(!s.is_kept("/a"));
}

#[test]
fn file_that_grew() {
    let mut s = server();
    let reply = respond(
        &mut s,
        "/a",
        &Some(OpenFile { size: Some(10), bytes: vec![b'x'; 2500], ended: true }),
    );
    assert_eq!(reply.0.concat(), format!("{}{}", HTTP_OK, "x".repeat(2500)));
    assert_eq!(reply.1, Delivery::Complete);
}

#[test]
fn file_of_size_zero_is_not_read() {
    let mut s = server();
    let reply = respond(
        &mut s,
        "/proc",
        &Some(OpenFile { size: Some(0), bytes: vec![b'x'; 10], ended: true }),
    );
    assert_eq!(reply.0.concat(), HTTP_OK);
    assert_eq!(reply.1, Delivery::Complete);
    assert!(s.is_kept("/proc"));
    assert_eq!(respond(&mut s, "/proc", &None).0.concat(), "");
}

#[test]
fn run_forgets_what_was_kept() {
    let mut s = server();
    respond(&mut s, "/a", &file("hello"));
    s.run();
    assert!(!s.is_kept("/a"));
}

#[test]
fn each_path_keeps_its_own_file() {
    let mut s = server();
    respond(&mut s, "/a", &file("first"));
    respond(&mut s, "/b", &file("second"));
    assert_eq!(respond(&mut s, "/a", &None).0.concat(), "first");
    assert_eq!(respond(&mut s, "/b", &None).0.concat(), "second");
}

#[test]
fn file_goes_out_in_chunks() {
    for n in [0usize, 1, 999, 1000, 1001, 1999, 2000, 2001, 3500] {
        let text: String = "0123456789".chars().cycle().take(n).collect();
        let mut s = server();
        let reply = respond(&mut s, "/a", &file(&text));
        assert_eq!(reply.1, Delivery::Complete);
        assert_eq!(reply.0.len(), 1 + (n + 999) / 1000);
        assert_eq!(reply.0[0], HTTP_OK);
        for (i, piece) in reply.0[1..].iter().enumerate() {
            let end = std::cmp::min(1000 * (i + 1), n);
            assert_eq!(piece, &text[1000 * i..end]);
            assert!(!piece.is_empty());
        }
        // What was kept goes out in one piece.
        assert_eq!(respond(&mut s, "/a", &None).0, vec![text]);
    }
}

#[test]
fn file_without_a_size_gets_the_head_only() {
    let mut s = server();
    let reply = respond(
        &mut s,
        "/a",
        &Some(OpenFile { size: None, bytes: vec![b'x'; 10], ended: true }),
    );
    assert_eq!(reply.0, vec![HTTP_OK.to_string()]);
    assert_eq!(reply.1, Delivery::Unreadable);
    assert!(!s.is_kept("/a"));
}

#[test]
fn file_whose_reading_broke_off() {
    let mut s = server();
    for (size, read) in [(2500, 1500), (1200, 1000), (1200, 1200)] {
        let reply = respond(
            &mut s,
            "/a",
            &Some(OpenFile { size: Some(size), bytes: vec![b'x'; read], ended: false }),
        );
        assert_eq!(reply.0, vec![HTTP_OK.to_string(), "x".repeat(1000)]);
        assert_eq!(reply.1, Delivery::Unreadable);
        assert!(!s.is_kept("/a"));
    }
}
