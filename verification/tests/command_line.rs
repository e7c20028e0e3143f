use zhtta::args::{get_args, settle, Selection, Startup};

fn line(args: &[&str]) -> Vec<String> {
    args.iter().map(|arg| arg.to_string()).collect()
}

fn serves(args: &[&str]) -> (String, usize, String) {
    match get_args(&line(args)) {
        Startup::Serve { ip, port, www_dir } => (ip, port, www_dir),
        _ => panic!("nothing is served"),
    }
}

fn refused(args: &[&str]) -> String {
    match get_args(&line(args)) {
        Startup::Refused(message) => message,
        _ => panic!("not refused"),
    }
}

#[test]
fn defaults_without_options() {
    let defaults = ("127.0.0.1".to_string(), 4414, "./www".to_string());
    assert_eq!(serves(&["zhtta"]), defaults);
    assert_eq!(serves(&["zhtta", "-", "free", ""]), defaults);
}

#[test]
fn options_are_taken() {
    assert_eq!(
        serves(&["zhtta", "--ip", "0.0.0.0", "--port=80", "--www", "/srv"]),
        ("0.0.0.0".to_string(), 80, "/srv".to_string())
    );
    assert_eq!(
        serves(&["zhtta", "--www=x", "free"]),
        ("127.0.0.1".to_string(), 4414, "x".to_string())
    );
    assert_eq!(serves(&["zhtta", "--ip="]).0, "");
}

#[test]
fn help_shows_the_usage() {
    let usage = "Usage: zhtta [options]\n\
        --ip     \tIP address, \"127.0.0.1\" by default.\n\
        --port   \tport number, \"4414\" by default.\n\
        --www    \tworking directory, \"./www\" by default\n\
        -h --help \tUsage\n";
    for args in [vec!["zhtta", "-h"], vec!["zhtta", "--help"], vec!["zhtta", "-h", "--help"],
        vec!["zhtta", "--port", "x", "-h"]] {
        match get_args(&line(&args)) {
            Startup::Usage(text) => assert_eq!(text, usage),
            _ => panic!("no usage"),
        }
    }
}

#[test]
fn bad_options_are_refused() {
    assert_eq!(refused(&["zhtta", "--color"]), "Unrecognized option: 'color'");
    assert_eq!(refused(&["zhtta", "-x"]), "Unrecognized option: 'x'");
    assert_eq!(refused(&["zhtta", "--ip"]), "Argument to option 'ip' missing");
    assert_eq!(
        refused(&["zhtta", "--ip", "a", "--ip", "b"]),
        "Option 'ip' given more than once"
    );
    assert_eq!(refused(&["zhtta", "--help=x"]), "Option 'help' does not take an argument");
}

#[test]
fn port_must_be_a_number() {
    for port in ["", "abc", "-1", "+", "80 ", "18446744073709551616"] {
        let given = format!("--port={}", port);
        assert!(matches!(get_args(&line(&["zhtta", &given])), Startup::NotAPort));
    }
    assert_eq!(serves(&["zhtta", "--port", "+80"]).1, 80);
    assert_eq!(serves(&["zhtta", "--port", "0080"]).1, 80);
    assert_eq!(serves(&["zhtta", "--port", "99999"]).1, 99999);
}

#[test]
fn settle_uses_what_was_found() {
    let found = Ok(Selection {
        values: vec![None, Some("8080".to_string()), None],
        letters: vec![false],
        words: vec![false],
    });
    match settle("zhtta", &found) {
        Startup::Serve { ip, port, www_dir } => {
            assert_eq!((ip.as_str(), port, www_dir.as_str()), ("127.0.0.1", 8080, "./www"));
        }
        _ => panic!("nothing is served"),
    }
    match settle("zhtta", &Err("why".to_string())) {
        Startup::Refused(message) => assert_eq!(message, "why"),
        _ => panic!("not refused"),
    }
}
