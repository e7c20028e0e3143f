//! What a request asks for.

use crate::path::{
    absolute, all_proper, is_dynamic, law_path_is_taken_from_the_directory,
    law_suffix_makes_a_dynamic_page, names_dynamic_page, normalized, resolve, resolved, HERE, SLASH,
};
use crate::server::WebServer;
use crate::text::{
    chars_of, contains, join, lemma_pieces_concat, lemma_without_char, pieces, split, text_of,
    texts, unbordered, SPACE,
};
use crate::utf8::decode;
use vstd::prelude::*;
use vstd::utf8::{decode_utf8, valid_utf8};

verus! {

/// The number of bytes that are read of a request. What is not filled is zero.
pub const REQUEST_BYTES: usize = 500;

/// What to do for a request.
pub enum Action {
    /// The request is not complete: the connection is closed without a word.
    Ignore,
    /// The path holds a zero character, which no path can: the connection fails.
    BadPath,
    /// The counter page is sent.
    CounterPage,
    /// The file at this path is looked up.
    LookUp(String),
}

/// What to do for a request, with the path as a sequence of characters.
#[verifier::ext_equal]
pub enum Step {
    Ignore,
    BadPath,
    CounterPage,
    LookUp(Seq<char>),
}

impl View for Action {
    type V = Step;

    open spec fn view(&self) -> Step {
        match *self {
            Action::Ignore => Step::Ignore,
            Action::BadPath => Step::BadPath,
            Action::CounterPage => Step::CounterPage,
            Action::LookUp(path) => Step::LookUp(path@),
        }
    }
}

/// What is sent for a path that was looked up.
#[derive(Clone, Copy, Debug, PartialEq, Eq, Structural)]
pub enum Answer {
    /// The page that says that the path cannot be opened.
    ErrorPage,
    /// The file, with the output of its command.
    DynamicPage,
    /// The file as it is, when its turn comes.
    StaticFile,
}

/// What a request names, relative to the served directory: the text between the
/// first two spaces, behind a dot. There is none with fewer than two spaces.
pub open spec fn target(request: Seq<char>) -> Option<Seq<char>> {
    let parts = pieces(request, SPACE@);
    if parts.len() > 2 {
        Some(HERE@ + parts[1])
    } else {
        None
    }
}

/// What to do for a request, seen from the directory `cwd`.
pub open spec fn listen_step(request: Seq<char>, cwd: Seq<char>) -> Step {
    match target(request) {
        None => Step::Ignore,
        Some(name) => if name.contains('\0') {
            Step::BadPath
        } else if name == HERE@ + SLASH@ {
            Step::CounterPage
        } else {
            Step::LookUp(resolved(cwd, name))
        },
    }
}

/// What is sent for a path, once it is known whether anything was
/// found there and whether that is a directory.
pub open spec fn answer_for(path: Seq<char>, found: bool, is_dir: bool) -> Answer {
    if !found || is_dir {
        Answer::ErrorPage
    } else if is_dynamic(path) {
        Answer::DynamicPage
    } else {
        Answer::StaticFile
    }
}

/// What a request names, relative to the served directory.
fn find_target(request: &str) -> (r: Option<Vec<char>>)
    ensures
        match r {
            Some(name) => target(request@) == Some(name@),
            None => target(request@) is None,
        },
{
    let text = chars_of(request);
    let space = chars_of(SPACE);
    proof {
        reveal_strlit(" ");
    }
    let parts = split(&text, &space);
    assert(texts(parts@).len() == parts@.len());
    if parts.len() > 2 {
        let mut name = chars_of(HERE);
        name.extend_from_slice(parts[1]);
        assert(texts(parts@)[1] == parts@[1]@);
        assert(name@ == HERE@ + parts@[1]@);
        Some(name)
    } else {
        None
    }
}

/// Whether the character stands in the text.
fn has_char(text: &[char], c: char) -> (r: bool)
    ensures
        r == text@.contains(c),
{
    let mut i: usize = 0;
    while i < text.len()
        invariant
            i <= text.len(),
            forall|j: int| 0 <= j < i ==> text@[j] != c,
        decreases text.len() - i,
    {
        if text[i] == c {
            return true;
        }
        i += 1;
    }
    false
}

impl WebServer {
    /// The text of a request. The result is `None` where the bytes are no text: the
    /// connection fails.
    pub fn decode_request(bytes: &[u8]) -> (r: Option<String>)
        ensures
            match r {
                Some(request) => valid_utf8(bytes@) && request@ == decode_utf8(bytes@),
                None => !valid_utf8(bytes@),
            },
    {
        match decode(bytes) {
            Some(request) => Some(request.to_owned()),
            None => None,
        }
    }

    /// What to do for a request, seen from the directory `cwd`.
    pub fn listen(request: &str, cwd: &str) -> (r: Action)
        ensures
            r@ == listen_step(request@, cwd@),
    {
        let name = match find_target(request) {
            Some(name) => name,
            None => return Action::Ignore,
        };
        if has_char(&name, '\0') {
            return Action::BadPath;
        }
        proof {
            reveal_strlit(".");
            reveal_strlit("/");
        }
        if name.len() == 2 && name[0] == '.' && name[1] == '/' {
            assert(name@ == HERE@ + SLASH@);
            return Action::CounterPage;
        }
        let path = resolve(cwd, &text_of(&name));
        Action::LookUp(path)
    }

    /// What is sent for a path that was looked up.
    pub fn answer(path: &str, found: bool, is_dir: bool) -> (r: Answer)
        ensures
            r == answer_for(path@, found, is_dir),
    {
        if !found || is_dir {
            Answer::ErrorPage
        } else if names_dynamic_page(path) {
            Answer::DynamicPage
        } else {
            Answer::StaticFile
        }
    }
}

/// A request names what stands between its first two spaces.
pub proof fn law_request_names_its_target(
    method: Seq<char>,
    name: Seq<char>,
    rest: Seq<char>,
)
    requires
        !contains(method, SPACE@),
        !contains(name, SPACE@),
    ensures
        target(method + SPACE@ + name + SPACE@ + rest) == Some(HERE@ + name),
{
    reveal_strlit(" ");
    let request = method + SPACE@ + name + SPACE@ + rest;
    let inner = name + SPACE@ + rest;
    assert(unbordered(SPACE@));
    assert(request == method + SPACE@ + inner);
    lemma_pieces_concat(method, SPACE@, inner);
    lemma_pieces_concat(name, SPACE@, rest);
    assert(pieces(rest, SPACE@).len() > 0);
    assert(pieces(request, SPACE@) == seq![method] + (seq![name] + pieces(rest, SPACE@)));
}

/// A request with fewer than two spaces gets no answer.
pub proof fn law_incomplete_request_is_ignored(
    first: Seq<char>,
    second: Seq<char>,
    cwd: Seq<char>,
)
    requires
        !contains(first, SPACE@),
        !contains(second, SPACE@),
    ensures
        listen_step(first, cwd) == Step::Ignore,
        listen_step(first + SPACE@ + second, cwd) == Step::Ignore,
{
    reveal_strlit(" ");
    assert(unbordered(SPACE@));
    lemma_pieces_concat(first, SPACE@, second);
}

/// A request for `/` is answered with the counter page.
pub proof fn law_root_shows_the_counter(method: Seq<char>, rest: Seq<char>, cwd: Seq<char>)
    requires
        !contains(method, SPACE@),
    ensures
        listen_step(method + SPACE@ + SLASH@ + SPACE@ + rest, cwd) == Step::CounterPage,
{
    reveal_strlit(" ");
    reveal_strlit("/");
    reveal_strlit(".");
    lemma_without_char(SLASH@, SPACE@);
    law_request_names_its_target(method, SLASH@, rest);
}

/// A request for `/`, followed by a path of proper names, looks that path up in the
/// served directory.
pub proof fn law_path_is_looked_up_in_the_directory(
    method: Seq<char>,
    names: Seq<Seq<char>>,
    rest: Seq<char>,
    directory: Seq<Seq<char>>,
)
    requires
        !contains(method, SPACE@),
        all_proper(names),
        names.len() > 0,
        all_proper(directory),
        !contains(absolute(names), SPACE@),
        !absolute(names).contains('\0'),
    ensures
        listen_step(method + SPACE@ + absolute(names) + SPACE@ + rest, absolute(directory))
            == Step::LookUp(absolute(directory + names)),
{
    reveal_strlit("/");
    reveal_strlit(".");
    let name = HERE@ + absolute(names);
    law_request_names_its_target(method, absolute(names), rest);
    law_path_is_taken_from_the_directory(directory, names);
    assert(name == HERE@ + SLASH@ + join(names, SLASH@));
    assert(!name.contains('\0')) by {
        if name.contains('\0') {
            let i = choose|i: int| 0 <= i < name.len() && name[i] == '\0';
            assert(absolute(names)[i - 1] == '\0');
        }
    }
    assert(name.len() > 2) by {
        assert(names[0].len() > 0);
    }
}

/// Whatever a request names between its first two spaces decides what is done: a zero
/// character is refused, a slash alone shows the counter, and anything else is looked up,
/// behind a dot, in the served directory.
pub proof fn law_name_decides_what_is_done(
    method: Seq<char>,
    name: Seq<char>,
    rest: Seq<char>,
    cwd: Seq<char>,
)
    requires
        forall|i: int| 0 <= i < method.len() ==> #[trigger] method[i] != ' ',
        forall|i: int| 0 <= i < name.len() ==> #[trigger] name[i] != ' ',
    ensures
        ({
            let done = listen_step(method + " "@ + name + " "@ + rest, cwd);
            &&& (exists|i: int| 0 <= i < name.len() && #[trigger] name[i] == '\0') <==> done
                == Step::BadPath
            &&& name == "/"@ <==> done == Step::CounterPage
            &&& (forall|i: int| 0 <= i < name.len() ==> #[trigger] name[i] != '\0') && name != "/"@
                ==> done == Step::LookUp(normalized(cwd + "/"@ + ("."@ + name)))
        }),
{
    reveal_strlit(" ");
    reveal_strlit("/");
    reveal_strlit(".");
    lemma_without_char(method, " "@);
    lemma_without_char(name, " "@);
    law_request_names_its_target(method, name, rest);
    let whole = "."@ + name;
    if exists|i: int| 0 <= i < name.len() && #[trigger] name[i] == '\0' {
        let i = choose|i: int| 0 <= i < name.len() && #[trigger] name[i] == '\0';
        assert(whole[i + 1] == '\0');
    } else if whole.contains('\0') {
        let i = choose|i: int| 0 <= i < whole.len() && whole[i] == '\0';
        assert(name[i - 1] == '\0');
    }
    assert(whole.drop_first() == name);
    assert(("."@ + "/"@).drop_first() == "/"@);
}

/// A request with fewer than two spaces is the only one that gets no answer.
pub proof fn law_two_spaces_are_answered(a: Seq<char>, b: Seq<char>, c: Seq<char>, cwd: Seq<char>)
    ensures
        (forall|i: int| 0 <= i < a.len() ==> #[trigger] a[i] != ' ') ==> listen_step(a, cwd)
            == Step::Ignore,
        (forall|i: int| 0 <= i < a.len() ==> #[trigger] a[i] != ' ') && (forall|i: int|
            0 <= i < b.len() ==> #[trigger] b[i] != ' ') ==> listen_step(a + " "@ + b, cwd)
            == Step::Ignore,
        listen_step(a + " "@ + b + " "@ + c, cwd) != Step::Ignore,
{
    reveal_strlit(" ");
    assert(unbordered(" "@));
    if forall|i: int| 0 <= i < a.len() ==> #[trigger] a[i] != ' ' {
        lemma_without_char(a, " "@);
        if forall|i: int| 0 <= i < b.len() ==> #[trigger] b[i] != ' ' {
            lemma_without_char(b, " "@);
            law_incomplete_request_is_ignored(a, b, cwd);
        } else {
            law_incomplete_request_is_ignored(a, a, cwd);
        }
    }
    lemma_pieces_concat(a + " "@ + b, " "@, c);
    lemma_pieces_concat(a, " "@, b);
    assert(pieces(a, " "@).len() > 0);
    assert(pieces(b, " "@).len() > 0);
    assert(pieces(c, " "@).len() > 0);
}

/// What is not found, and a directory, gets the error page; a file that is found is a page
/// with a command if its name is more than the suffix `.shtml` and ends with it, and is
/// sent as it is otherwise.
pub proof fn law_answer_to_a_path(
    directory: Seq<char>,
    name: Seq<char>,
    path: Seq<char>,
    is_dir: bool,
)
    requires
        name.len() > 0,
        forall|i: int| 0 <= i < name.len() ==> #[trigger] name[i] != '/',
    ensures
        answer_for(path, false, is_dir) == Answer::ErrorPage,
        answer_for(path, true, true) == Answer::ErrorPage,
        answer_for(directory + "/"@ + name + ".shtml"@, true, false) == Answer::DynamicPage,
        answer_for(directory + "/"@ + ".shtml"@, true, false) == Answer::StaticFile,
        path.len() < ".shtml"@.len() || path.skip(path.len() - ".shtml"@.len()) != ".shtml"@
            ==> answer_for(path, true, false) == Answer::StaticFile,
{
    law_suffix_makes_a_dynamic_page(directory, name, path);
    let n = path.len() - ".shtml"@.len();
    if is_dynamic(path) {
        assert(path.skip(n) == ".shtml"@);
    }
}

/// What is done for a request holds the path that is looked up.
pub proof fn law_action_holds_its_path(action: Action)
    ensures
        match action {
            Action::Ignore => action@ == Step::Ignore,
            Action::BadPath => action@ == Step::BadPath,
            Action::CounterPage => action@ == Step::CounterPage,
            Action::LookUp(path) => action@ == Step::LookUp(path@),
        },
{
}

} // verus!
