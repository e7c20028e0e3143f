use zhtta::schedule::is_privileged;
use zhtta::server::{Dequeued, Stream, WebServer};

fn server() -> WebServer {
    WebServer::new("127.0.0.1", 4414, "./www")
}

fn from_peer(id: u64, peer: &str) -> Option<Stream> {
    Some(Stream { id, peer_name: Some(peer.to_string()) })
}

fn add(s: &mut WebServer, id: u64, peer: &str, length: usize) {
    let path = format!("/file{}", id);
    assert_eq!(s.enqueue_static_file_request(&from_peer(id, peer), &path, length), None);
}

fn served(s: &mut WebServer) -> Vec<u64> {
    let mut order: Vec<u64> = Vec::new();
    loop {
        match s.dequeue_static_file_request() {
            Dequeued::Empty => return order,
            Dequeued::NoStream(_) => panic!("no stream"),
            Dequeued::Ready(request, stream) => {
                let id = stream.unwrap();
                assert_eq!(request.path, format!("/file{}", id));
                order.push(id);
            }
        }
    }
}

#[test]
fn privileged_networks() {
    assert!(is_privileged("128.143.67.91:2000"));
    assert!(is_privileged("132.54.1.1:80"));
    assert!(is_privileged("10.128.143.5:80"));
    assert!(!is_privileged("128.14.3.1:80"));
    assert!(!is_privileged("132.540.1.1:80"));
    assert!(!is_privileged(""));
}

#[test]
fn short_files_come_first() {
    let mut s = server();
    add(&mut s, 1, "1.1.1.1:1", 300);
    add(&mut s, 2, "1.1.1.1:2", 100);
    add(&mut s, 3, "1.1.1.1:3", 200);
    assert_eq!(served(&mut s), vec![2, 3, 1]);
}

#[test]
fn long_files_come_first_for_the_privileged() {
    let mut s = server();
    add(&mut s, 1, "128.143.1.1:1", 100);
    add(&mut s, 2, "132.54.1.1:2", 300);
    add(&mut s, 3, "128.143.1.1:3", 200);
    assert_eq!(served(&mut s), vec![2, 3, 1]);
}

#[test]
fn privileged_overtake_all_others() {
    let mut s = server();
    add(&mut s, 1, "1.1.1.1:1", 1);
    add(&mut s, 2, "128.143.1.1:2", 500);
    add(&mut s, 3, "1.1.1.1:3", 0);
    add(&mut s, 4, "132.54.1.1:4", 10);
    assert_eq!(served(&mut s), vec![2, 4, 3, 1]);
}

#[test]
fn equal_rank_keeps_arrival_order() {
    let mut s = server();
    add(&mut s, 1, "1.1.1.1:1", 7);
    add(&mut s, 2, "1.1.1.1:2", 7);
    add(&mut s, 3, "128.143.1.1:3", 7);
    add(&mut s, 4, "128.143.1.1:4", 7);
    assert_eq!(served(&mut s), vec![3, 4, 1, 2]);
}

#[test]
fn empty_queue_has_nothing_to_serve() {
    let mut s = server();
    assert!(matches!(s.dequeue_static_file_request(), Dequeued::Empty));
    assert!(matches!(s.dequeue_static_file_request(), Dequeued::Empty));
}

#[test]
fn second_connection_of_a_client_replaces_the_first() {
    let mut s = server();
    assert_eq!(s.enqueue_static_file_request(&from_peer(1, "p"), "/a", 1), None);
    assert_eq!(s.enqueue_static_file_request(&from_peer(2, "p"), "/b", 2), Some(Some(1)));
    match s.dequeue_static_file_request() {
        Dequeued::Ready(request, stream) => {
            assert_eq!(request.path, "/a");
            assert_eq!(stream, Some(2));
        }
        _ => panic!("not ready"),
    }
    match s.dequeue_static_file_request() {
        Dequeued::NoStream(request) => assert_eq!(request.path, "/b"),
        _ => panic!("a stream was found"),
    }
    assert!(matches!(s.dequeue_static_file_request(), Dequeued::Empty));
}

#[test]
fn peer_names() {
    assert_eq!(WebServer::get_peer_name(&from_peer(1, "1.2.3.4:5")), "1.2.3.4:5");
    assert_eq!(WebServer::get_peer_name(&Some(Stream { id: 1, peer_name: None })), "");
    assert_eq!(WebServer::get_peer_name(&None), "");
    let mut s = server();
    assert_eq!(s.enqueue_static_file_request(&None, "/a", 1), None);
    assert!(matches!(s.dequeue_static_file_request(), Dequeued::Ready(_, None)));
}

#[test]
fn new_and_run() {
    let mut s = server();
    assert_eq!(s.ip, "127.0.0.1");
    assert_eq!(s.port, 4414);
    assert_eq!(s.www_dir_path, "www");
    assert_eq!(s.counter, 0);
    s.count_visitor();
    s.count_visitor();
    assert_eq!(s.counter, 2);
    add(&mut s, 1, "p", 1);
    assert_eq!(s.run(), "127.0.0.1:4414");
    assert_eq!(s.counter, 0);
    assert_eq!(served(&mut s), vec![1]);
    assert_eq!(
        s.announcement("127.0.0.1:4414"),
        "Zhtta Version 0.5 listening on 127.0.0.1:4414 (serving from: www)."
    );
}

#[test]
fn counter_starts_again_when_exhausted() {
    let mut s = server();
    s.counter = usize::MAX;
    s.count_visitor();
    assert_eq!(s.counter, 0);
}

#[test]
fn served_directory_is_normalized() {
    for (given, kept) in [
        ("./www", "www"),
        ("", "."),
        (".", "."),
        ("./", "."),
        ("a//b/./c/", "a/b/c"),
        ("a/..", "."),
        ("../x", "../x"),
        ("../../x/../y", "../../y"),
        ("a/../../x", "../x"),
        ("/", "/"),
        ("/..", "/"),
        ("//srv/../www/", "/www"),
        ("...", "..."),
    ] {
        let s = WebServer::new("127.0.0.1", 80, given);
        assert_eq!(s.www_dir_path, kept);
        // Once is enough.
        assert_eq!(WebServer::new("127.0.0.1", 80, kept).www_dir_path, kept);
    }
}
