use zhtta::dynamic::PageStep;
use zhtta::server::WebServer;

/// The command that is run; empty where the page is sent as it is.
fn command(page: &str) -> Option<String> {
    match WebServer::find_command(page) {
        PageStep::Send => Some(String::new()),
        PageStep::Run(command) => {
            assert!(!command.is_empty());
            Some(command)
        }
        PageStep::Fail => None,
    }
}


const PAGE: &str = "<html><!--#exec cmd=\"date\" --></html>";

#[test]
fn command_is_found() {
    assert_eq!(command(PAGE), Some("date".to_string()));
}

#[test]
fn output_takes_the_place_of_the_comment() {
    assert_eq!(
        WebServer::respond_with_dynamic_page(PAGE, "Monday"),
        Some("<html>Monday</html>".to_string())
    );
}

#[test]
fn every_comment_with_the_command_is_replaced() {
    let page = "a<!--#exec cmd=\"date\" -->b<!--#exec cmd=\"date\" -->c";
    assert_eq!(
        WebServer::respond_with_dynamic_page(page, "X"),
        Some("aXbXc".to_string())
    );
}

#[test]
fn last_directive_is_run() {
    let page = "<!--#exec cmd=\"ls\" --> and <!--#exec cmd=\"pwd\" -->";
    assert_eq!(command(page), Some("pwd".to_string()));
    assert_eq!(
        WebServer::respond_with_dynamic_page(page, "/tmp"),
        Some("<!--#exec cmd=\"ls\" --> and /tmp".to_string())
    );
}

#[test]
fn page_without_command_is_kept() {
    let page = "<html><!-- nothing here --></html>";
    assert_eq!(command(page), Some(String::new()));
    assert_eq!(
        WebServer::respond_with_dynamic_page(page, "ignored"),
        Some(page.to_string())
    );
    assert_eq!(WebServer::respond_with_dynamic_page("", "x"), Some(String::new()));
}

#[test]
fn silent_command_keeps_the_page() {
    assert_eq!(WebServer::respond_with_dynamic_page(PAGE, ""), Some(PAGE.to_string()));
}

#[test]
fn only_the_first_word_of_a_command_counts() {
    let page = "<!--#exec cmd=\"ls -l\" -->";
    assert_eq!(command(page), Some("ls".to_string()));
    // The comment with that word alone is not in the page.
    assert_eq!(
        WebServer::respond_with_dynamic_page(page, "out"),
        Some(page.to_string())
    );
}

#[test]
fn mark_without_quote_cannot_be_answered() {
    assert_eq!(command("type cmd to start"), None);
    assert_eq!(WebServer::respond_with_dynamic_page("type cmd to start", "x"), None);
    assert_eq!(command("a \"cmd\" b"), None);
    assert_eq!(command("<!--#exec cmd=\"\" -->"), None);
    // A good directive behind it does not help.
    assert_eq!(command("cmd <!--#exec cmd=\"date\" -->"), None);
}

#[test]
fn quote_inside_a_word_gives_what_follows() {
    assert_eq!(command("x\"cmd\"y"), Some("cmd".to_string()));
    assert_eq!(command("cmd=\"\"x"), Some(String::new()));
}

#[test]
fn apostrophes_become_quotes_in_the_directive() {
    let page = "<!--#exec cmd=\"it's\" -->";
    assert_eq!(command(page), Some("it's".to_string()));
    assert_eq!(
        WebServer::respond_with_dynamic_page(page, "x"),
        Some(page.to_string())
    );
}

#[test]
fn characters_beyond_ascii_are_kept() {
    let page = "Grüße <!--#exec cmd=\"date\" --> 黑";
    assert_eq!(
        WebServer::respond_with_dynamic_page(page, "é"),
        Some("Grüße é 黑".to_string())
    );
}
