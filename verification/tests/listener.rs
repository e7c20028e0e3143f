use zhtta::listener::{Action, Answer, REQUEST_BYTES};
use zhtta::path::{normalize, resolve};
use zhtta::server::WebServer;

fn looked_up(request: &str) -> String {
    match WebServer::listen(request, "/srv/www") {
        Action::LookUp(path) => path,
        _ => panic!("nothing is looked up"),
    }
}

#[test]
fn root_shows_the_counter() {
    assert!(matches!(
        WebServer::listen("GET / HTTP/1.1\r\nHost: x\r\n\r\n", "/srv/www"),
        Action::CounterPage
    ));
}

#[test]
fn incomplete_requests_are_ignored() {
    assert!(matches!(WebServer::listen("", "/srv/www"), Action::Ignore));
    assert!(matches!(WebServer::listen("GET", "/srv/www"), Action::Ignore));
    assert!(matches!(WebServer::listen("GET /index.html", "/srv/www"), Action::Ignore));
}

#[test]
fn path_is_looked_up_in_the_directory() {
    assert_eq!(looked_up("GET /index.html HTTP/1.1"), "/srv/www/index.html");
    assert_eq!(looked_up("GET /a/b.txt HTTP/1.1 and more"), "/srv/www/a/b.txt");
    // The second space may stand at the end.
    assert_eq!(looked_up("GET /x "), "/srv/www/x");
    // Two spaces in a row name nothing, that is the directory itself.
    assert_eq!(looked_up("GET  /x"), "/srv/www");
    // The dot in front belongs to the name where no slash follows it.
    assert_eq!(looked_up("GET x HTTP/1.1"), "/srv/www/.x");
}

#[test]
fn zero_character_is_refused() {
    assert!(matches!(WebServer::listen("GET /a\0b HTTP", "/srv"), Action::BadPath));
    // Behind the path it does no harm.
    assert!(matches!(WebServer::listen("GET / HTTP\0\0", "/srv"), Action::CounterPage));
}

#[test]
fn detours_are_removed() {
    assert_eq!(resolve("/srv/www", "./a/./b//c/"), "/srv/www/a/b/c");
    assert_eq!(resolve("/srv/www", "./a/../b"), "/srv/www/b");
    assert_eq!(resolve("/srv/www", "./../../../x"), "/x");
    assert_eq!(resolve("/", "./x"), "/x");
    assert_eq!(resolve("/", "./"), "/");
    assert_eq!(resolve("/srv", "../x"), "/x");
    assert_eq!(resolve("/srv", "./...x"), "/srv/...x");
    assert_eq!(normalize("./a/../../b"), "../b");
}

#[test]
fn answers_follow_from_what_is_found() {
    assert_eq!(WebServer::answer("/w/a.html", false, false), Answer::ErrorPage);
    assert_eq!(WebServer::answer("/w/a.shtml", false, false), Answer::ErrorPage);
    assert_eq!(WebServer::answer("/w/dir", true, true), Answer::ErrorPage);
    assert_eq!(WebServer::answer("/w/a.shtml", true, false), Answer::DynamicPage);
    assert_eq!(WebServer::answer("/w/a.b.shtml", true, false), Answer::DynamicPage);
    assert_eq!(WebServer::answer("/w/a.html", true, false), Answer::StaticFile);
    assert_eq!(WebServer::answer("/w/shtml", true, false), Answer::StaticFile);
    assert_eq!(WebServer::answer("/w/.shtml", true, false), Answer::StaticFile);
    assert_eq!(WebServer::answer("/w/a.SHTML", true, false), Answer::StaticFile);
    assert_eq!(WebServer::answer("/w/a.shtml.txt", true, false), Answer::StaticFile);
}

#[test]
fn request_is_decoded() {
    assert_eq!(REQUEST_BYTES, 500);
    assert_eq!(WebServer::decode_request(b"GET /"), Some("GET /".to_string()));
    assert_eq!(
        WebServer::decode_request("Grüße 黑".as_bytes()),
        Some("Grüße 黑".to_string())
    );
    assert_eq!(WebServer::decode_request(&[b'a', 0xff]), None);
    assert_eq!(WebServer::decode_request(&[0xc3]), None);
    assert_eq!(WebServer::decode_request(&[0, 0]), Some("\0\0".to_string()));
}
