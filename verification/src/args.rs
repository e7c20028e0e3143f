//! The command line.

use crate::number::{decimal, law_decimal_reads_back, parse_decimal, parsed, write_decimal};
use crate::text::{chars_of, option_text, string_texts};
use vstd::prelude::*;
use vstd::slice::slice_subrange;

verus! {

/// The address to listen on, unless another is given.
pub const IP: &'static str = "127.0.0.1";

/// The port to listen on, unless another is given.
pub const PORT: usize = 4414;

/// The directory to serve, unless another is given.
pub const WWW_DIR: &'static str = "./www";

/// What was found on a command line: for each option that takes a value the value
/// that was given, and for each flag whether it was given.
pub struct Selection {
    pub values: Vec<Option<String>>,
    pub letters: Vec<bool>,
    pub words: Vec<bool>,
}

impl View for Selection {
    type V = (Seq<Option<Seq<char>>>, Seq<bool>, Seq<bool>);

    open spec fn view(&self) -> Self::V {
        (
            self.values@.map_values(|value: Option<String>| option_text(value)),
            self.letters@,
            self.words@,
        )
    }
}

/// What was found on a command line, or why it was refused, as text.
pub open spec fn outcome(r: Result<Selection, String>) -> Result<
    (Seq<Option<Seq<char>>>, Seq<bool>, Seq<bool>),
    Seq<char>,
> {
    match r {
        Ok(selection) => Ok(selection@),
        Err(message) => Err(message@),
    }
}

/// The texts of a list of names.
pub open spec fn name_texts(names: Seq<&str>) -> Seq<Seq<char>> {
    names.map_values(|name: &str| name@)
}

/// The argument is read as an option: it starts with a dash, behind which there is
/// more.
pub open spec fn looks_like_option(arg: Seq<char>) -> bool {
    arg.len() > 1 && arg[0] == '-'
}

/// What `getopts` finds in the arguments, given the names of the options that take
/// a value, of the flags with one letter and of the flags with a longer name.
pub uninterp spec fn getopts_outcome(
    args: Seq<Seq<char>>,
    valued: Seq<Seq<char>>,
    letters: Seq<Seq<char>>,
    words: Seq<Seq<char>>,
) -> Result<(Seq<Option<Seq<char>>>, Seq<bool>, Seq<bool>), Seq<char>>;

/// `getopts::Options::parse`, for options that may each be given once: those of
/// `optopt` take a value, those of `optflag` take none. The values are what
/// `Matches::opt_str` gives, the flags what `Matches::opt_present` gives, and the
/// message is the text of the failure. It looks at nothing but its arguments.
/// Where no argument looks like an option none is found. The requirements are
/// those of `optopt` and `optflag` on the names, which panic otherwise.
#[verifier::external_body]
fn find_options(args: &[String], valued: &[&str], letters: &[&str], words: &[&str]) -> (r: Result<
    Selection,
    String,
>)
    requires
        forall|i: int| 0 <= i < valued@.len() ==> (#[trigger] valued@[i])@.len() > 1,
        forall|i: int|
            0 <= i < letters@.len() ==> (#[trigger] letters@[i])@.len() == 1 && letters@[i].is_ascii(),
        forall|i: int| 0 <= i < words@.len() ==> (#[trigger] words@[i])@.len() > 1,
    ensures
        outcome(r) == getopts_outcome(
            string_texts(args@),
            name_texts(valued@),
            name_texts(letters@),
            name_texts(words@),
        ),
        r matches Ok(selection) ==> {
            &&& selection.values@.len() == valued@.len()
            &&& selection.letters@.len() == letters@.len()
            &&& selection.words@.len() == words@.len()
        },
        (forall|i: int| 0 <= i < args@.len() ==> !looks_like_option((#[trigger] args@[i])@)) ==> {
            &&& r is Ok
            &&& forall|i: int| 0 <= i < valued@.len() ==> (#[trigger] r->Ok_0.values@[i]) is None
            &&& forall|i: int| 0 <= i < letters@.len() ==> !#[trigger] r->Ok_0.letters@[i]
            &&& forall|i: int| 0 <= i < words@.len() ==> !#[trigger] r->Ok_0.words@[i]
        },
{
    let mut options = getopts::Options::new();
    for name in valued { options.optopt("", name, "", ""); }
    for name in letters { options.optflag(name, "", ""); }
    for name in words { options.optflag("", name, ""); }
    match options.parse(args) {
        Ok(found) => Ok(Selection {
            values: valued.iter().map(|name| found.opt_str(name)).collect(),
            letters: letters.iter().map(|name| found.opt_present(name)).collect(),
            words: words.iter().map(|name| found.opt_present(name)).collect(),
        }),
        Err(failure) => Err(failure.to_string()),
    }
}

/// What the command line asks for.
pub enum Startup {
    /// Serve the directory on the address and port.
    Serve { ip: String, port: usize, www_dir: String },
    /// Show this text and stop.
    Usage(String),
    /// Fail with this message.
    Refused(String),
    /// Fail, since what was given for the port is no number.
    NotAPort,
}

/// What the command line asks for, with texts as sequences of characters.
#[verifier::ext_equal]
pub enum Demand {
    Serve { ip: Seq<char>, port: nat, www_dir: Seq<char> },
    Usage(Seq<char>),
    Refused(Seq<char>),
    NotAPort,
}

impl View for Startup {
    type V = Demand;

    open spec fn view(&self) -> Demand {
        match *self {
            Startup::Serve { ip, port, www_dir } => Demand::Serve {
                ip: ip@,
                port: port as nat,
                www_dir: www_dir@,
            },
            Startup::Usage(text) => Demand::Usage(text@),
            Startup::Refused(message) => Demand::Refused(message@),
            Startup::NotAPort => Demand::NotAPort,
        }
    }
}

/// How the program is used.
pub open spec fn usage_text(program: Seq<char>) -> Seq<char> {
    "Usage: "@ + program + " [options]\n"@ + "--ip     \tIP address, \""@ + IP@
        + "\" by default.\n"@ + "--port   \tport number, \""@ + decimal(PORT as nat)
        + "\" by default.\n"@ + "--www    \tworking directory, \""@ + WWW_DIR@
        + "\" by default\n"@ + "-h --help \tUsage\n"@
}

/// The given value, or else the default.
pub open spec fn value_or(value: Option<Seq<char>>, default: Seq<char>) -> Seq<char> {
    match value {
        Some(s) => s,
        None => default,
    }
}

/// The names of the options that take a value.
pub open spec fn valued_names() -> Seq<Seq<char>> {
    seq!["ip"@, "port"@, "www"@]
}

/// The names of the flags with one letter.
pub open spec fn letter_names() -> Seq<Seq<char>> {
    seq!["h"@]
}

/// The names of the flags with a longer name.
pub open spec fn word_names() -> Seq<Seq<char>> {
    seq!["help"@]
}

/// What a command line asks for on which this was found. The values are those of
/// the address, the port and the directory.
pub open spec fn settled(
    program: Seq<char>,
    found: Result<(Seq<Option<Seq<char>>>, Seq<bool>, Seq<bool>), Seq<char>>,
) -> Demand {
    match found {
        Err(message) => Demand::Refused(message),
        Ok((values, letters, words)) => if letters[0] || words[0] {
            Demand::Usage(usage_text(program))
        } else {
            let port = match values[1] {
                Some(s) => parsed(s),
                None => Some(PORT),
            };
            match port {
                None => Demand::NotAPort,
                Some(n) => Demand::Serve {
                    ip: value_or(values[0], IP@),
                    port: n as nat,
                    www_dir: value_or(values[2], WWW_DIR@),
                },
            }
        },
    }
}

/// How the program is used.
fn write_usage(program: &str) -> (r: String)
    ensures
        r@ == usage_text(program@),
{
    let mut r = "Usage: ".to_owned();
    r.append(program);
    r.append(" [options]\n");
    r.append("--ip     \tIP address, \"");
    r.append(IP);
    r.append("\" by default.\n");
    r.append("--port   \tport number, \"");
    let port = write_decimal(PORT);
    r.append(&port);
    r.append("\" by default.\n");
    r.append("--www    \tworking directory, \"");
    r.append(WWW_DIR);
    r.append("\" by default\n");
    r.append("-h --help \tUsage\n");
    r
}

/// The given value, or else the default.
fn take_or(value: &Option<String>, default: &str) -> (r: String)
    ensures
        r@ == value_or(option_text(*value), default@),
{
    match value {
        Some(s) => s.clone(),
        None => default.to_owned(),
    }
}

/// What a command line asks for on which this was found.
pub fn settle(program: &str, found: &Result<Selection, String>) -> (r: Startup)
    requires
        found matches Ok(selection) ==> {
            &&& selection.values@.len() == 3
            &&& selection.letters@.len() == 1
            &&& selection.words@.len() == 1
        },
    ensures
        r@ == settled(program@, outcome(*found)),
{
    let selection = match found {
        Ok(selection) => selection,
        Err(message) => return Startup::Refused(message.clone()),
    };
    assert(selection@.0[0] == option_text(selection.values@[0]));
    assert(selection@.0[1] == option_text(selection.values@[1]));
    assert(selection@.0[2] == option_text(selection.values@[2]));
    if selection.letters[0] || selection.words[0] {
        return Startup::Usage(write_usage(program));
    }
    let port: usize = match &selection.values[1] {
        Some(s) => match parse_decimal(&chars_of(s)) {
            Some(n) => n,
            None => return Startup::NotAPort,
        },
        None => PORT,
    };
    Startup::Serve {
        ip: take_or(&selection.values[0], IP),
        port,
        www_dir: take_or(&selection.values[2], WWW_DIR),
    }
}

/// What the command line asks for. The first argument is the name of the program.
/// Where no other looks like an option, the defaults are served.
pub fn get_args(args: &Vec<String>) -> (r: Startup)
    requires
        args@.len() > 0,
    ensures
        r@ == settled(
            args@[0]@,
            getopts_outcome(
                string_texts(args@.skip(1)),
                valued_names(),
                letter_names(),
                word_names(),
            ),
        ),
        (forall|i: int| 1 <= i < args@.len() ==> !looks_like_option((#[trigger] args@[i])@)) ==> r@
            == (Demand::Serve { ip: IP@, port: PORT as nat, www_dir: WWW_DIR@ }),
{
    let valued: [&str; 3] = ["ip", "port", "www"];
    let letters: [&str; 1] = ["h"];
    let words: [&str; 1] = ["help"];
    proof {
        reveal_strlit("ip");
        reveal_strlit("port");
        reveal_strlit("www");
        reveal_strlit("h");
        reveal_strlit("help");
        assert(name_texts(valued@) == valued_names());
        assert(name_texts(letters@) == letter_names());
        assert(name_texts(words@) == word_names());
    }
    let rest = slice_subrange(args.as_slice(), 1, args.len());
    assert(rest@ == args@.skip(1));
    let found = find_options(rest, &valued, &letters, &words);
    proof {
        if forall|i: int| 1 <= i < args@.len() ==> !looks_like_option((#[trigger] args@[i])@) {
            assert forall|i: int| 0 <= i < rest@.len() implies !looks_like_option(
                (#[trigger] rest@[i])@,
            ) by {
                assert(rest@[i] == args@[i + 1]);
            }
            let selection = found->Ok_0;
            assert(selection@.0[0] == option_text(selection.values@[0]));
            assert(selection@.0[1] == option_text(selection.values@[1]));
            assert(selection@.0[2] == option_text(selection.values@[2]));
            assert(selection.values@[0] is None && selection.values@[1] is None
                && selection.values@[2] is None);
            assert(!selection.letters@[0] && !selection.words@[0]);
        }
    }
    settle(&args[0], &found)
}

/// Each setting comes from its own option alone, and where that was not given it has its
/// default, whatever was given for the others. Only what is given for the port can fail.
pub proof fn law_each_setting_has_its_own_option(
    program: Seq<char>,
    ip: Option<Seq<char>>,
    port: Option<Seq<char>>,
    www: Option<Seq<char>>,
)
    ensures
        ({
            let demand = settled(program, Ok((seq![ip, port, www], seq![false], seq![false])));
            &&& demand == Demand::NotAPort <==> port is Some && parsed(port->0) is None
            &&& demand is Serve <==> port is None || parsed(port->0) is Some
            &&& demand matches Demand::Serve { ip: address, port: number, www_dir } ==> {
                &&& ip is Some ==> address == ip->0
                &&& ip is None ==> address == "127.0.0.1"@
                &&& port is Some ==> number == parsed(port->0)->0
                &&& port is None ==> number == 4414
                &&& www is Some ==> www_dir == www->0
                &&& www is None ==> www_dir == "./www"@
            }
        }),
{
}

/// A port that is given as a number in decimal is that number.
pub proof fn law_port_is_read_as_a_number(
    program: Seq<char>,
    ip: Option<Seq<char>>,
    port: usize,
    www: Option<Seq<char>>,
)
    ensures
        ({
            let values = seq![ip, Some(decimal(port as nat)), www];
            let demand = settled(program, Ok((values, seq![false], seq![false])));
            demand is Serve && demand->port == port
        }),
{
    law_decimal_reads_back(port);
}

/// A flag for help, in either form, shows how the program is used, whatever else was
/// given.
pub proof fn law_help_comes_first(
    program: Seq<char>,
    values: Seq<Option<Seq<char>>>,
    letter: bool,
    word: bool,
)
    ensures
        letter || word ==> settled(program, Ok((values, seq![letter], seq![word])))
            == Demand::Usage(
            "Usage: "@ + program + " [options]\n"@ + "--ip     \tIP address, \""@
                + "127.0.0.1"@ + "\" by default.\n"@ + "--port   \tport number, \""@ + decimal(4414)
                + "\" by default.\n"@ + "--www    \tworking directory, \""@ + "./www"@
                + "\" by default\n"@ + "-h --help \tUsage\n"@,
        ),
{
}

/// A command line that cannot be read is refused with the reason that was found.
pub proof fn law_refusal_gives_the_reason(program: Seq<char>, message: Seq<char>)
    ensures
        settled(program, Err(message)) == Demand::Refused(message),
{
}

/// The options are the address, the port and the directory, in this order, and the flag
/// for help in two forms.
pub proof fn law_names_of_the_options()
    ensures
        valued_names() == seq!["ip"@, "port"@, "www"@],
        letter_names() == seq!["h"@],
        word_names() == seq!["help"@],
{
}

/// What is said of what was found, or of why it was refused, is what it holds.
pub proof fn law_selection_says_what_was_found(selection: Selection, message: String, i: int)
    ensures
        outcome(Ok(selection)) == Ok::<_, Seq<char>>(selection@),
        outcome(Err(message)) is Err,
        outcome(Err(message))->Err_0 == message@,
        selection@.0.len() == selection.values@.len(),
        0 <= i < selection.values@.len() && selection.values@[i] is None ==> selection@.0[i] is None,
        0 <= i < selection.values@.len() && selection.values@[i] is Some ==> selection@.0[i]
            == Some(selection.values@[i]->0@),
        selection@.1 == selection.letters@,
        selection@.2 == selection.words@,
{
}

/// What is said of what a command line asks for is what is asked for.
pub proof fn law_demand_says_what_is_asked_for(startup: Startup)
    ensures
        match startup {
            Startup::Serve { ip, port, www_dir } => startup@ == (Demand::Serve {
                ip: ip@,
                port: port as nat,
                www_dir: www_dir@,
            }),
            Startup::Usage(text) => startup@ == Demand::Usage(text@),
            Startup::Refused(message) => startup@ == Demand::Refused(message@),
            Startup::NotAPort => startup@ == Demand::NotAPort,
        },
{
}

} // verus!
