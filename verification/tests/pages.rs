use zhtta::pages::{COUNTER_STYLE, HTTP_BAD, HTTP_OK};
use zhtta::server::WebServer;

#[test]
fn error_page_names_the_path() {
    assert_eq!(
        WebServer::respond_with_error_page("/www/missing.html"),
        vec!["HTTP/1.1 404 Not Found\r\n\r\n", "Cannot open: /www/missing.html"]
    );
    assert_eq!(WebServer::respond_with_error_page(""), vec![HTTP_BAD, "Cannot open: "]);
}

#[test]
fn heads_are_exact() {
    assert_eq!(HTTP_OK, "HTTP/1.1 200 OK\r\nContent-Type: text/html; charset=UTF-8\r\n\r\n");
    assert_eq!(HTTP_BAD, "HTTP/1.1 404 Not Found\r\n\r\n");
}

#[test]
fn counter_page_shows_the_number() {
    let page = WebServer::respond_with_counter_page(42);
    let expected = format!(
        "{}{}<h1>Greetings, Krusty!</h1>\n                     <h2>Visitor count: 42</h2></body></html>\r\n",
        HTTP_OK, COUNTER_STYLE
    );
    assert_eq!(page, expected);
}

#[test]
fn counter_style_is_exact() {
    let lines: Vec<&str> = COUNTER_STYLE.split('\n').collect();
    assert_eq!(
        lines,
        vec![
            "<doctype !html><html><head><title>Hello, Rust!</title>",
            "             <style>body { background-color: #884414; color: #FFEEAA}",
            "                    h1 { font-size:2cm; text-align: center; color: black; text-shadow: 0 0 4mm red }",
            "                    h2 { font-size:2cm; text-align: center; color: black; text-shadow: 0 0 4mm green }",
            "             </style></head>",
            "             <body>",
        ]
    );
}

#[test]
fn counter_page_shows_the_extremes() {
    assert!(WebServer::respond_with_counter_page(0).contains("Visitor count: 0</h2>"));
    let largest = format!("Visitor count: {}</h2>", usize::MAX);
    assert!(WebServer::respond_with_counter_page(usize::MAX).contains(&largest));
}
