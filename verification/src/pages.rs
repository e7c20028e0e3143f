//! The error page and the counter page.

use crate::number::{decimal, write_decimal};
use crate::server::WebServer;
use crate::text::string_texts;
use vstd::prelude::*;

verus! {

/// The head of a response that succeeds.
pub const HTTP_OK: &'static str = "HTTP/1.1 200 OK\r\nContent-Type: text/html; charset=UTF-8\r\n\r\n";

/// The head of a response for a file that cannot be sent.
pub const HTTP_BAD: &'static str = "HTTP/1.1 404 Not Found\r\n\r\n";

/// What the error page says, in front of the path.
pub const ERROR_TEXT: &'static str = "Cannot open: ";

/// The start of the counter page.
pub const COUNTER_STYLE: &'static str = "<doctype !html><html><head><title>Hello, Rust!</title>
             <style>body { background-color: #884414; color: #FFEEAA}
                    h1 { font-size:2cm; text-align: center; color: black; text-shadow: 0 0 4mm red }
                    h2 { font-size:2cm; text-align: center; color: black; text-shadow: 0 0 4mm green }
             </style></head>
             <body>";

/// The counter page in front of the number.
pub const COUNTER_GREETING: &'static str = "<h1>Greetings, Krusty!</h1>
                     <h2>Visitor count: ";

/// The counter page behind the number.
pub const COUNTER_END: &'static str = "</h2></body></html>\r\n";

/// The response for a path that cannot be opened, in the two pieces in which it is
/// sent.
pub open spec fn error_page(path: Seq<char>) -> Seq<Seq<char>> {
    seq![HTTP_BAD@, ERROR_TEXT@ + path]
}

/// The response that shows how many visitors came.
pub open spec fn counter_page(visitors: nat) -> Seq<char> {
    HTTP_OK@ + COUNTER_STYLE@ + COUNTER_GREETING@ + decimal(visitors) + COUNTER_END@
}

impl WebServer {
    /// The response for a path that cannot be opened, in pieces.
    pub fn respond_with_error_page(path: &str) -> (r: Vec<String>)
        ensures
            string_texts(r@) == error_page(path@),
    {
        let mut message = ERROR_TEXT.to_owned();
        message.append(path);
        let mut r: Vec<String> = Vec::new();
        r.push(HTTP_BAD.to_owned());
        r.push(message);
        assert(string_texts(r@) == error_page(path@));
        r
    }

    /// The response that shows how many visitors came.
    pub fn respond_with_counter_page(visitors: usize) -> (r: String)
        ensures
            r@ == counter_page(visitors as nat),
    {
        let mut r = HTTP_OK.to_owned();
        r.append(COUNTER_STYLE);
        r.append(COUNTER_GREETING);
        let number = write_decimal(visitors);
        r.append(&number);
        r.append(COUNTER_END);
        r
    }
}

/// The error page is a head that says so and, as a piece of its own, the path behind
/// what is said of it.
pub proof fn law_error_page_names_the_path(path: Seq<char>)
    ensures
        error_page(path) == seq![
            "HTTP/1.1 404 Not Found\r\n\r\n"@,
            "Cannot open: "@ + path,
        ],
{
}

/// The counter page shows the number of visitors behind the greeting, whatever it is.
pub proof fn law_counter_page_shows_the_number(visitors: nat)
    ensures
        counter_page(visitors)
            == "HTTP/1.1 200 OK\r\nContent-Type: text/html; charset=UTF-8\r\n\r\n"@
            + COUNTER_STYLE@
            + "<h1>Greetings, Krusty!</h1>\n                     <h2>Visitor count: "@ + decimal(
            visitors,
        ) + "</h2></body></html>\r\n"@,
{
}

} // verus!
