//! Pages that show the output of a command.
//!
//! Such a page holds a comment like `<!--#exec cmd="date" -->`. The command is
//! run, and the page is sent with what it printed in place of the comment.

use crate::server::WebServer;
use crate::text::{
    chars_of, contains, has, law_replace_at, law_trim_end, law_trim_start, lemma_occurs_in_rest,
    lemma_piece_within, lemma_pieces_concat, lemma_pieces_prefix, lemma_replaced_len,
    lemma_without_char, occurs_at, pieces, replace, replaced, split, text_of, texts, trim_end,
    trim_start, trimmed_end, trimmed_start, unbordered, SPACE,
};
use vstd::prelude::*;

verus! {

/// What opens a comment.
pub const COMMENT: &'static str = "<!--";

/// What a word that gives a command holds.
pub const COMMAND_MARK: &'static str = "cmd";

/// What stands on both sides of a command.
pub const QUOTE: &'static str = "\"";

/// The words of a page: it is cut where a comment opens, and at each space.
pub open spec fn words(content: Seq<char>) -> Seq<Seq<char>> {
    pieces(content, COMMENT@).map_values(|part: Seq<char>| pieces(part, SPACE@)).flatten()
}

/// The word gives a command.
pub open spec fn marked(word: Seq<char>) -> bool {
    contains(word, COMMAND_MARK@)
}

/// The command that a marked word gives: what follows the first quote inside the
/// word, up to the next one. Quotes at the ends of the word do not count.
pub open spec fn quoted(word: Seq<char>) -> Option<Seq<char>> {
    let parts = pieces(trimmed_start(trimmed_end(word, '"'), '"'), QUOTE@);
    if parts.len() > 1 {
        Some(parts[1])
    } else {
        None
    }
}

/// Each marked word gives a command.
pub open spec fn all_quoted(ws: Seq<Seq<char>>) -> bool {
    forall|i: int| 0 <= i < ws.len() && marked(#[trigger] ws[i]) ==> quoted(ws[i]) is Some
}

/// The command of the last marked word; empty where no word is marked.
pub open spec fn last_command(ws: Seq<Seq<char>>) -> Seq<char>
    decreases ws.len(),
{
    if ws.len() == 0 {
        Seq::empty()
    } else if marked(ws.last()) {
        quoted(ws.last())->0
    } else {
        last_command(ws.drop_last())
    }
}

/// The command that a page asks for, empty if it asks for none; `None` where a
/// marked word gives no command.
pub open spec fn page_command(content: Seq<char>) -> Option<Seq<char>> {
    if all_quoted(words(content)) {
        Some(last_command(words(content)))
    } else {
        None
    }
}

/// What to do for a page.
pub enum PageStep {
    /// The page asks for no command: it is sent as it is.
    Send,
    /// This command is run, and the page is sent with its output.
    Run(String),
    /// A marked word gives no command: the page cannot be answered.
    Fail,
}

/// What to do for a page, with the command as a sequence of characters.
#[verifier::ext_equal]
pub enum PagePlan {
    Send,
    Run(Seq<char>),
    Fail,
}

impl View for PageStep {
    type V = PagePlan;

    open spec fn view(&self) -> PagePlan {
        match *self {
            PageStep::Send => PagePlan::Send,
            PageStep::Run(command) => PagePlan::Run(command@),
            PageStep::Fail => PagePlan::Fail,
        }
    }
}

/// What to do for a page.
pub open spec fn page_plan(content: Seq<char>) -> PagePlan {
    match page_command(content) {
        None => PagePlan::Fail,
        Some(command) => if command.len() == 0 {
            PagePlan::Send
        } else {
            PagePlan::Run(command)
        },
    }
}

/// The directive in front of its command.
pub const DIRECTIVE_START: &'static str = "<!--#exec cmd='";

/// The directive behind its command.
pub const DIRECTIVE_END: &'static str = "' -->";

/// What the quotes of the directive are written as at first.
pub const APOSTROPHE: &'static str = "'";

/// The text of a page that asks for the command.
pub open spec fn directive(command: Seq<char>) -> Seq<char> {
    replaced(DIRECTIVE_START@ + command + DIRECTIVE_END@, APOSTROPHE@, QUOTE@)
}

/// A page with the output of its command in it.
pub open spec fn dynamic_page(
    content: Seq<char>,
    command: Seq<char>,
    output: Seq<char>,
) -> Seq<char> {
    if command.len() == 0 || output.len() == 0 {
        content
    } else {
        replaced(content, directive(command), output)
    }
}

impl WebServer {
    /// What to do for a page.
    pub fn find_command(content: &str) -> (r: PageStep)
        ensures
            r@ == page_plan(content@),
    {
        let text = chars_of(content);
        match scan_command(&text) {
            None => PageStep::Fail,
            Some(command) => if command.len() == 0 {
                PageStep::Send
            } else {
                PageStep::Run(text_of(&command))
            },
        }
    }

    /// The response for a page that may ask for a command, given what the command
    /// printed. The result is `None` where the page cannot be answered.
    pub fn respond_with_dynamic_page(content: &str, output: &str) -> (r: Option<String>)
        ensures
            match r {
                Some(page) => {
                    &&& page_command(content@) is Some
                    &&& page@ == dynamic_page(content@, page_command(content@)->0, output@)
                },
                None => page_command(content@) is None,
            },
    {
        let text = chars_of(content);
        let command = match scan_command(&text) {
            Some(command) => command,
            None => return None,
        };
        if command.len() == 0 || output.is_empty() {
            return Some(content.to_owned());
        }
        let wanted = write_directive(&command);
        let shown = chars_of(output);
        Some(text_of(&replace(&text, &wanted, &shown)))
    }
}

/// The command that a marked word gives.
fn command_in(word: &[char]) -> (r: Option<Vec<char>>)
    ensures
        match r {
            Some(command) => quoted(word@) == Some(command@),
            None => quoted(word@) is None,
        },
{
    let quote = chars_of(QUOTE);
    proof {
        reveal_strlit("\"");
    }
    let core = trim_start(trim_end(word, '"'), '"');
    let parts = split(core, &quote);
    assert(texts(parts@).len() == parts@.len());
    if parts.len() > 1 {
        assert(texts(parts@)[1] == parts@[1]@);
        Some(vstd::slice::slice_to_vec(parts[1]))
    } else {
        None
    }
}

/// The command that a page asks for.
fn scan_command(text: &[char]) -> (r: Option<Vec<char>>)
    ensures
        match r {
            Some(command) => page_command(text@) == Some(command@),
            None => page_command(text@) is None,
        },
{
    let comment = chars_of(COMMENT);
    let space = chars_of(SPACE);
    let mark = chars_of(COMMAND_MARK);
    proof {
        reveal_strlit("<!--");
        reveal_strlit(" ");
    }
    let parts = split(text, &comment);
    let ghost by_part = pieces(text@, COMMENT@).map_values(|part: Seq<char>| pieces(part, SPACE@));
    let ghost mut seen: Seq<Seq<char>> = Seq::empty();
    let mut command: Vec<char> = Vec::new();
    let mut i: usize = 0;
    while i < parts.len()
        invariant
            i <= parts.len(),
            space@ == SPACE@,
            mark@ == COMMAND_MARK@,
            space@.len() > 0,
            texts(parts@) == pieces(text@, COMMENT@),
            by_part == pieces(text@, COMMENT@).map_values(|part: Seq<char>| pieces(part, SPACE@)),
            seen == by_part.take(i as int).flatten(),
            all_quoted(seen),
            command@ == last_command(seen),
        decreases parts.len() - i,
    {
        let ws = split(parts[i], &space);
        let ghost here = texts(ws@);
        let ghost earlier = seen;
        proof {
            assert(texts(parts@)[i as int] == parts@[i as int]@);
            assert(here == by_part[i as int]);
            assert(by_part.take(i + 1) == by_part.take(i as int).push(here));
            by_part.take(i as int).lemma_flatten_push(here);
            assert(earlier + here.take(0) == earlier);
        }
        let mut j: usize = 0;
        while j < ws.len()
            invariant
                i < parts.len(),
                j <= ws.len(),
                mark@ == COMMAND_MARK@,
                texts(parts@) == pieces(text@, COMMENT@),
                by_part == pieces(text@, COMMENT@).map_values(
                    |part: Seq<char>| pieces(part, SPACE@),
                ),
                here == texts(ws@),
                by_part.take(i + 1).flatten() == earlier + here,
                seen == earlier + here.take(j as int),
                all_quoted(seen),
                command@ == last_command(seen),
            decreases ws.len() - j,
        {
            let ghost word = ws@[j as int]@;
            proof {
                assert(here[j as int] == word);
                assert(seen.push(word) == earlier + here.take(j + 1));
                assert(seen.push(word).drop_last() == seen);
            }
            if has(ws[j], &mark) {
                match command_in(ws[j]) {
                    Some(found) => {
                        command = found;
                    },
                    None => {
                        proof {
                            let k = (earlier.len() + j) as int;
                            assert((earlier + here)[k] == word);
                            lemma_flatten_prefix(by_part, i + 1, k);
                            assert(marked(words(text@)[k]));
                        }
                        return None;
                    },
                }
            }
            proof {
                seen = seen.push(word);
            }
            j += 1;
        }
        assert(here.take(j as int) == here);
        i += 1;
    }
    assert(by_part.take(i as int) == by_part);
    Some(command)
}

/// What stands in the first parts stands at the same place in the whole.
proof fn lemma_flatten_prefix(parts: Seq<Seq<Seq<char>>>, n: int, k: int)
    requires
        0 <= n <= parts.len(),
        0 <= k < parts.take(n).flatten().len(),
    ensures
        k < parts.flatten().len(),
        parts.flatten()[k] == parts.take(n).flatten()[k],
{
    vstd::seq_lib::lemma_flatten_concat(parts.take(n), parts.skip(n));
    assert(parts == parts.take(n) + parts.skip(n));
}

/// The text of a page that asks for the command.
fn write_directive(command: &Vec<char>) -> (r: Vec<char>)
    ensures
        r@ == directive(command@),
        r@.len() > 0,
{
    let mut r = chars_of(DIRECTIVE_START);
    r.extend_from_slice(command);
    r.extend_from_slice(&chars_of(DIRECTIVE_END));
    proof {
        reveal_strlit("<!--#exec cmd='");
        reveal_strlit("'");
        reveal_strlit("\"");
        assert(r@ == DIRECTIVE_START@ + command@ + DIRECTIVE_END@);
        lemma_replaced_len(r@, APOSTROPHE@, QUOTE@);
    }
    let from = chars_of(APOSTROPHE);
    let to = chars_of(QUOTE);
    replace(&r, &from, &to)
}

/// The comment by which a page asks for a command.
pub open spec fn exec_comment(command: Seq<char>) -> Seq<char> {
    "<!--#exec cmd=\""@ + command + "\" -->"@
}

/// A command that can be asked for: one word without quotes, in which no comment
/// opens.
pub open spec fn plain(command: Seq<char>) -> bool {
    &&& command.len() > 0
    &&& forall|i: int|
        0 <= i < command.len() ==> {
            &&& #[trigger] command[i] != ' '
            &&& command[i] != '"'
            &&& command[i] != '\''
        }
    &&& !contains(command, COMMENT@)
}

proof fn lemma_comment_unbordered()
    ensures
        COMMENT@ == seq!['<', '!', '-', '-'],
        unbordered(COMMENT@),
{
    reveal_strlit("<!--");
    assert(COMMENT@ == seq!['<', '!', '-', '-']);
    assert forall|k: int| 0 < k < COMMENT@.len() implies #[trigger] COMMENT@.subrange(
        k,
        COMMENT@.len() as int,
    ) != COMMENT@.subrange(0, COMMENT@.len() - k) by {
        assert(COMMENT@.subrange(k, COMMENT@.len() as int)[0] == COMMENT@[k]);
        assert(COMMENT@.subrange(0, COMMENT@.len() - k)[0] == '<');
    }
}

/// The words in front of a place where a comment opens, and those behind it.
proof fn lemma_words_concat(a: Seq<char>, b: Seq<char>)
    ensures
        words(a + COMMENT@ + b) == words(a) + words(b),
{
    lemma_comment_unbordered();
    lemma_pieces_concat(a, COMMENT@, b);
    let f = |part: Seq<char>| pieces(part, SPACE@);
    let pa = pieces(a, COMMENT@);
    let pb = pieces(b, COMMENT@);
    assert((pa + pb).map_values(f) == pa.map_values(f) + pb.map_values(f));
    vstd::seq_lib::lemma_flatten_concat(pa.map_values(f), pb.map_values(f));
}

/// In a text without the mark no word is marked.
proof fn lemma_unmarked_words(s: Seq<char>)
    requires
        !contains(s, COMMAND_MARK@),
    ensures
        forall|i: int| 0 <= i < words(s).len() ==> !marked(#[trigger] words(s)[i]),
{
    let parts = pieces(s, COMMENT@);
    assert forall|k: int| 0 <= k < parts.len() implies !contains(
        #[trigger] parts[k],
        COMMAND_MARK@,
    ) by {
        if contains(parts[k], COMMAND_MARK@) {
            lemma_piece_within(s, COMMENT@, k, COMMAND_MARK@);
        }
    }
    lemma_unmarked_parts(parts);
}

proof fn lemma_unmarked_parts(parts: Seq<Seq<char>>)
    requires
        forall|k: int| 0 <= k < parts.len() ==> !contains(#[trigger] parts[k], COMMAND_MARK@),
    ensures
        ({
            let ws = parts.map_values(|part: Seq<char>| pieces(part, SPACE@)).flatten();
            forall|i: int| 0 <= i < ws.len() ==> !marked(#[trigger] ws[i])
        }),
    decreases parts.len(),
{
    let f = |part: Seq<char>| pieces(part, SPACE@);
    if parts.len() > 0 {
        let rest = parts.drop_first();
        assert forall|k: int| 0 <= k < rest.len() implies !contains(
            #[trigger] rest[k],
            COMMAND_MARK@,
        ) by {
            assert(rest[k] == parts[k + 1]);
        }
        lemma_unmarked_parts(rest);
        let ws = parts.map_values(f).flatten();
        let first = pieces(parts[0], SPACE@);
        assert(parts.map_values(f).drop_first() == rest.map_values(f));
        assert(ws == first + rest.map_values(f).flatten());
        assert forall|i: int| 0 <= i < ws.len() implies !marked(#[trigger] ws[i]) by {
            if i < first.len() {
                if marked(first[i]) {
                    lemma_piece_within(parts[0], SPACE@, i, COMMAND_MARK@);
                }
            } else {
                assert(ws[i] == rest.map_values(f).flatten()[i - first.len()]);
            }
        }
    }
}

/// Unmarked words at the end do not change the command.
proof fn lemma_last_command_skips(ws: Seq<Seq<char>>, more: Seq<Seq<char>>)
    requires
        forall|i: int| 0 <= i < more.len() ==> !marked(#[trigger] more[i]),
    ensures
        last_command(ws + more) == last_command(ws),
    decreases more.len(),
{
    if more.len() == 0 {
        assert(ws + more == ws);
    } else {
        assert((ws + more).drop_last() == ws + more.drop_last());
        assert((ws + more).last() == more.last());
        assert forall|i: int| 0 <= i < more.drop_last().len() implies !marked(
            #[trigger] more.drop_last()[i],
        ) by {
            assert(more.drop_last()[i] == more[i]);
        }
        lemma_last_command_skips(ws, more.drop_last());
    }
}

/// The word `cmd="..."` gives the command between its quotes.
proof fn lemma_quoted(command: Seq<char>)
    requires
        plain(command),
    ensures
        ({
            let word = "cmd=\""@ + command + "\""@;
            marked(word) && quoted(word) == Some(command)
        }),
{
    reveal_strlit("cmd=\"");
    reveal_strlit("\"");
    reveal_strlit("cmd");
    let word = "cmd=\""@ + command + "\""@;
    let core = "cmd=\""@ + command;
    assert(word.subrange(0, 3) == COMMAND_MARK@);
    assert(occurs_at(word, COMMAND_MARK@, 0));
    assert(word.drop_last() == core);
    assert(word.last() == '"');
    assert(core.last() == command.last());
    assert(trimmed_end(word, '"') == trimmed_end(core, '"'));
    assert(trimmed_end(core, '"') == core);
    assert(core[0] == 'c');
    assert(trimmed_start(core, '"') == core);
    let name = seq!['c', 'm', 'd', '='];
    assert(core == name + QUOTE@ + command);
    assert(unbordered(QUOTE@));
    lemma_pieces_concat(name, QUOTE@, command);
    lemma_without_char(name, QUOTE@);
    lemma_without_char(command, QUOTE@);
    assert(pieces(core, QUOTE@) == seq![name, command]);
}

/// The words behind the place where the comment with a command opens: first the
/// name of the directive, then the word with the command, then unmarked words.
proof fn lemma_words_of_comment(command: Seq<char>, after: Seq<char>)
    requires
        plain(command),
        !contains(after, COMMAND_MARK@),
    ensures
        ({
            let ws = words("#exec cmd=\""@ + command + "\" -->"@ + after);
            &&& ws.len() >= 2
            &&& ws[0] == "#exec"@
            &&& ws[1] == "cmd=\""@ + command + "\""@
            &&& forall|i: int| 2 <= i < ws.len() ==> !marked(#[trigger] ws[i])
        }),
{
    reveal_strlit("#exec cmd=\"");
    reveal_strlit("\" -->");
    reveal_strlit("#exec");
    reveal_strlit("cmd=\"");
    reveal_strlit("\"");
    reveal_strlit("cmd");
    reveal_strlit(" ");
    lemma_comment_unbordered();
    let x = "#exec cmd=\""@ + command + "\" -->"@;
    let s = x + after;
    let n = command.len() as int;
    assert(x.len() == 11 + n + 5);
    assert forall|i: int| 0 <= i < x.len() implies !occurs_at(s, COMMENT@, i) by {
        if occurs_at(s, COMMENT@, i) {
            let found = s.subrange(i, i + 4);
            assert(found[0] == s[i] && found[1] == s[i + 1] && found[2] == s[i + 2] && found[3]
                == s[i + 3]);
            assert(s[i] == '<');
            assert(11 <= i < 11 + n);
            if i + 4 <= 11 + n {
                assert(command.subrange(i - 11, i - 7) == found);
                assert(occurs_at(command, COMMENT@, i - 11));
            } else {
                assert(s[11 + n] == '"');
            }
        }
    }
    lemma_pieces_prefix(x, after, COMMENT@);
    let tail = pieces(after, COMMENT@);
    let part = x + tail[0];
    let f = |part: Seq<char>| pieces(part, SPACE@);
    let parts = pieces(s, COMMENT@);
    assert(parts.drop_first() == tail.drop_first());
    assert(parts[0] == part);
    assert(parts.map_values(f).drop_first() == tail.drop_first().map_values(f));
    let ws = words(s);
    let first = pieces(part, SPACE@);
    let others = tail.drop_first().map_values(f).flatten();
    assert(ws == first + others);
    assert forall|k: int| 0 <= k < tail.len() implies !contains(
        #[trigger] tail[k],
        COMMAND_MARK@,
    ) by {
        if contains(tail[k], COMMAND_MARK@) {
            lemma_piece_within(after, COMMENT@, k, COMMAND_MARK@);
        }
    }
    assert forall|k: int| 0 <= k < tail.drop_first().len() implies !contains(
        #[trigger] tail.drop_first()[k],
        COMMAND_MARK@,
    ) by {
        assert(tail.drop_first()[k] == tail[k + 1]);
    }
    lemma_unmarked_parts(tail.drop_first());
    let name = "#exec"@;
    let word = "cmd=\""@ + command + "\""@;
    let end = seq!['-', '-', '>'] + tail[0];
    assert(unbordered(SPACE@));
    assert(part == name + SPACE@ + (word + SPACE@ + end));
    lemma_pieces_concat(name, SPACE@, word + SPACE@ + end);
    lemma_pieces_concat(word, SPACE@, end);
    lemma_without_char(name, SPACE@);
    lemma_without_char(word, SPACE@);
    assert(first == seq![name] + (seq![word] + pieces(end, SPACE@)));
    assert forall|i: int| 2 <= i < ws.len() implies !marked(#[trigger] ws[i]) by {
        if i < first.len() {
            assert(ws[i] == pieces(end, SPACE@)[i - 2]);
            if marked(ws[i]) {
                lemma_piece_within(end, SPACE@, i - 2, COMMAND_MARK@);
                let j = choose|j: int| occurs_at(end, COMMAND_MARK@, j);
                assert(end.subrange(j, j + 3)[0] == end[j]);
                assert(j >= 3);
                assert(end.subrange(3, end.len() as int) == tail[0]);
                lemma_occurs_in_rest(end, COMMAND_MARK@, 3, j - 3);
                assert(occurs_at(tail[0], COMMAND_MARK@, j - 3));
            }
        } else {
            assert(ws[i] == others[i - first.len()]);
        }
    }
}

/// The command of the last directive of a page is the one that is run.
pub proof fn law_last_directive_is_run(before: Seq<char>, command: Seq<char>, after: Seq<char>)
    requires
        plain(command),
        page_command(before) is Some,
        !contains(after, COMMAND_MARK@),
    ensures
        page_command(before + exec_comment(command) + after) == Some(command),
        page_plan(before + exec_comment(command) + after) == PagePlan::Run(command),
{
    let rest = "#exec cmd=\""@ + command + "\" -->"@ + after;
    let content = before + exec_comment(command) + after;
    reveal_strlit("<!--#exec cmd=\"");
    reveal_strlit("#exec cmd=\"");
    reveal_strlit("<!--");
    reveal_strlit("#exec");
    reveal_strlit("cmd");
    assert("<!--#exec cmd=\""@ == COMMENT@ + "#exec cmd=\""@);
    assert(content == before + COMMENT@ + rest);
    lemma_words_concat(before, rest);
    lemma_words_of_comment(command, after);
    lemma_quoted(command);
    let earlier = words(before);
    let ws = words(rest);
    let all = words(content);
    assert(!marked(ws[0])) by {
        assert forall|i: int| !occurs_at(ws[0], COMMAND_MARK@, i) by {
            if occurs_at(ws[0], COMMAND_MARK@, i) {
                assert(ws[0].subrange(i, i + 3)[0] == ws[0][i]);
            }
        }
    }
    assert forall|i: int| 0 <= i < all.len() && marked(#[trigger] all[i]) implies quoted(
        all[i],
    ) is Some by {
        if i < earlier.len() {
            assert(all[i] == earlier[i]);
        } else {
            assert(all[i] == ws[i - earlier.len()]);
        }
    }
    let upto = earlier + ws.take(2);
    let more = ws.skip(2);
    assert(all == upto + more);
    assert forall|i: int| 0 <= i < more.len() implies !marked(#[trigger] more[i]) by {
        assert(more[i] == ws[i + 2]);
    }
    lemma_last_command_skips(upto, more);
    assert(upto.last() == ws[1]);
}

/// The two quotes of a directive, and what stands on their outer sides.
proof fn lemma_directive_parts()
    ensures
        DIRECTIVE_START@ == "<!--#exec cmd="@ + APOSTROPHE@,
        DIRECTIVE_END@ == APOSTROPHE@ + " -->"@,
        "<!--#exec cmd=\""@ == "<!--#exec cmd="@ + QUOTE@,
        "\" -->"@ == QUOTE@ + " -->"@,
        APOSTROPHE@ == seq!['\''],
        !contains("<!--#exec cmd="@, APOSTROPHE@),
        !contains(" -->"@, APOSTROPHE@),
{
    reveal_strlit("'");
    reveal_strlit("\"");
    reveal_strlit("<!--#exec cmd=");
    reveal_strlit(" -->");
    assert(DIRECTIVE_START@ == "<!--#exec cmd="@ + APOSTROPHE@) by {
        reveal_strlit("<!--#exec cmd='");
    }
    assert(DIRECTIVE_END@ == APOSTROPHE@ + " -->"@) by {
        reveal_strlit("' -->");
    }
    assert("<!--#exec cmd=\""@ == "<!--#exec cmd="@ + QUOTE@) by {
        reveal_strlit("<!--#exec cmd=\"");
    }
    assert("\" -->"@ == QUOTE@ + " -->"@) by {
        reveal_strlit("\" -->");
    }
    assert(APOSTROPHE@ == seq!['\'']);
    lemma_without_char("<!--#exec cmd="@, APOSTROPHE@);
    lemma_without_char(" -->"@, APOSTROPHE@);
}

/// The directive that is looked for is the comment by which a page asks.
pub proof fn law_directive_is_the_comment(command: Seq<char>)
    requires
        plain(command),
    ensures
        directive(command) == exec_comment(command),
{
    lemma_directive_parts();
    let start = "<!--#exec cmd="@;
    let end = " -->"@;
    let inner = command + APOSTROPHE@ + end;
    assert(DIRECTIVE_START@ + command + DIRECTIVE_END@ == start + APOSTROPHE@ + inner);
    assert(unbordered(APOSTROPHE@));
    law_replace_at(start, APOSTROPHE@, inner, QUOTE@);
    law_replace_at(command, APOSTROPHE@, end, QUOTE@);
    lemma_without_char(command, APOSTROPHE@);
    assert(directive(command) == start + QUOTE@ + (command + QUOTE@ + end));
    assert(start + QUOTE@ + (command + QUOTE@ + end) == (start + QUOTE@) + command + (QUOTE@
        + end));
}

proof fn lemma_exec_comment_unbordered(command: Seq<char>)
    requires
        plain(command),
    ensures
        unbordered(exec_comment(command)),
{
    reveal_strlit("<!--#exec cmd=\"");
    reveal_strlit("\" -->");
    let d = exec_comment(command);
    let n = command.len() as int;
    let len = d.len() as int;
    assert(len == 15 + n + 5);
    assert(d[0] == '<' && d[9] == ' ' && d[15 + n] == '"');
    assert forall|k: int| 0 < k < len implies #[trigger] d.subrange(k, len) != d.subrange(
        0,
        len - k,
    ) by {
        if d.subrange(k, len) == d.subrange(0, len - k) {
            assert forall|m: int| 0 <= m < len - k implies #[trigger] d[k + m] == d[m] by {
                assert(d.subrange(k, len)[m] == d[k + m]);
                assert(d.subrange(0, len - k)[m] == d[m]);
            }
            assert(d[k + 0] == '<');
            assert(15 <= k < 15 + n);
            // The closing quote would have to stand at the opening one.
            let m = 15 + n - k;
            assert(d[k + m] == d[m]);
            assert(m == 14) by {
                if m >= 15 {
                    assert(d[m] == command[m - 15]);
                }
            }
            assert(d[k + 9] == ' ');
            assert(d[k + 9] == command[k + 9 - 15]);
        }
    }
}

/// The output of the command takes the place of the comment that asks for it.
pub proof fn law_output_takes_the_place_of_the_comment(
    before: Seq<char>,
    command: Seq<char>,
    after: Seq<char>,
    output: Seq<char>,
)
    requires
        plain(command),
        output.len() > 0,
    ensures
        dynamic_page(before + exec_comment(command) + after, command, output) == dynamic_page(
            before,
            command,
            output,
        ) + output + dynamic_page(after, command, output),
{
    law_directive_is_the_comment(command);
    lemma_exec_comment_unbordered(command);
    reveal_strlit("<!--#exec cmd=\"");
    law_replace_at(before, exec_comment(command), after, output);
}

/// A text that does not hold the comment for the command is sent as it is.
pub proof fn law_text_without_the_comment_is_kept(
    content: Seq<char>,
    command: Seq<char>,
    output: Seq<char>,
)
    requires
        plain(command),
        !contains(content, exec_comment(command)),
    ensures
        dynamic_page(content, command, output) == content,
{
    law_directive_is_the_comment(command);
}

/// A page without the mark asks for no command and is sent as it is.
pub proof fn law_page_without_command_is_kept(content: Seq<char>, output: Seq<char>)
    requires
        !contains(content, COMMAND_MARK@),
    ensures
        page_plan(content) == PagePlan::Send,
        page_command(content) == Some(Seq::<char>::empty()),
        dynamic_page(content, page_command(content)->0, output) == content,
{
    lemma_unmarked_words(content);
    let none = Seq::<Seq<char>>::empty();
    lemma_last_command_skips(none, words(content));
    assert(none + words(content) == words(content));
}

/// A page with one directive is sent with the output of its command in the place of
/// the directive, and all else as it is.
pub proof fn law_page_shows_the_output(
    before: Seq<char>,
    command: Seq<char>,
    after: Seq<char>,
    output: Seq<char>,
)
    requires
        plain(command),
        !contains(before, COMMAND_MARK@),
        !contains(after, COMMAND_MARK@),
        output.len() > 0,
    ensures
        ({
            let content = before + exec_comment(command) + after;
            &&& page_command(content) == Some(command)
            &&& page_plan(content) == PagePlan::Run(command)
            &&& dynamic_page(content, command, output) == before + output + after
        }),
{
    law_page_without_command_is_kept(before, output);
    law_last_directive_is_run(before, command, after);
    law_output_takes_the_place_of_the_comment(before, command, after, output);
    lemma_no_comment_without_mark(before, command);
    lemma_no_comment_without_mark(after, command);
    law_text_without_the_comment_is_kept(before, command, output);
    law_text_without_the_comment_is_kept(after, command, output);
}

/// The comment that asks for a command holds the mark.
proof fn lemma_no_comment_without_mark(s: Seq<char>, command: Seq<char>)
    requires
        !contains(s, COMMAND_MARK@),
    ensures
        !contains(s, exec_comment(command)),
{
    reveal_strlit("<!--#exec cmd=\"");
    reveal_strlit("cmd");
    let d = exec_comment(command);
    assert forall|i: int| !occurs_at(s, d, i) by {
        if occurs_at(s, d, i) {
            let found = s.subrange(i, i + d.len());
            assert(found.subrange(10, 13) == COMMAND_MARK@);
            assert(found.subrange(10, 13) == s.subrange(i + 10, i + 13));
            assert(occurs_at(s, COMMAND_MARK@, i + 10));
        }
    }
}

/// A page whose command prints nothing is sent as it is.
pub proof fn law_silent_command_keeps_page(content: Seq<char>, command: Seq<char>)
    ensures
        dynamic_page(content, command, Seq::<char>::empty()) == content,
{
}

/// A page fails exactly where it has no command to give, is sent exactly where the
/// command is empty, and every other command, however long, is run as it stands.
pub proof fn law_command_is_run_as_it_stands(content: Seq<char>, command: Seq<char>)
    ensures
        page_plan(content) == PagePlan::Fail <==> page_command(content) is None,
        page_plan(content) == PagePlan::Send <==> page_command(content) == Some(
            Seq::<char>::empty(),
        ),
        page_plan(content) == PagePlan::Run(command) <==> page_command(content) == Some(command)
            && command.len() > 0,
{
    if page_command(content) is Some && page_command(content)->0.len() == 0 {
        assert(page_command(content)->0 == Seq::<char>::empty());
    }
}

/// What is said of a step for a page is what it holds.
pub proof fn law_page_step_holds_its_command(step: PageStep)
    ensures
        match step {
            PageStep::Send => step@ == PagePlan::Send,
            PageStep::Run(command) => step@ == PagePlan::Run(command@),
            PageStep::Fail => step@ == PagePlan::Fail,
        },
{
}

/// Where a comment opens, the words of both sides stand one behind the other; a text in
/// which no comment opens is cut at each space.
pub proof fn law_words_of_a_page(a: Seq<char>, b: Seq<char>)
    ensures
        words(a + "<!--"@ + b) == words(a) + words(b),
        !contains(a, "<!--"@) ==> words(a) == pieces(a, " "@),
{
    lemma_words_concat(a, b);
    if !contains(a, "<!--"@) {
        let f = |part: Seq<char>| pieces(part, SPACE@);
        let only = pieces(a, COMMENT@).map_values(f);
        assert(only == seq![pieces(a, SPACE@)]);
        assert(only.drop_first() == Seq::<Seq<Seq<char>>>::empty());
        assert(only.flatten() == pieces(a, SPACE@) + only.drop_first().flatten());
        assert(pieces(a, SPACE@) + Seq::<Seq<char>>::empty() == pieces(a, SPACE@));
    }
}

/// A page has a command to give if and only if each of its words with `cmd` in it gives
/// one, and then it is that of the last such word, and empty where there is none.
pub proof fn law_last_marked_word_gives_the_command(content: Seq<char>, k: int)
    ensures
        ({
            let ws = words(content);
            &&& page_command(content) is Some <==> forall|i: int|
                0 <= i < ws.len() && contains(#[trigger] ws[i], "cmd"@) ==> quoted(ws[i]) is Some
            &&& {
                &&& page_command(content) is Some
                &&& 0 <= k < ws.len()
                &&& contains(ws[k], "cmd"@)
                &&& forall|i: int| k < i < ws.len() ==> !contains(#[trigger] ws[i], "cmd"@)
            } ==> page_command(content) == quoted(ws[k])
            &&& (forall|i: int| 0 <= i < ws.len() ==> !contains(#[trigger] ws[i], "cmd"@))
                ==> page_command(content) == Some(Seq::<char>::empty())
        }),
{
    let ws = words(content);
    if page_command(content) is None {
        let i = choose|i: int|
            0 <= i < ws.len() && marked(#[trigger] ws[i]) && !(quoted(ws[i]) is Some);
        assert(contains(ws[i], "cmd"@));
    }
    if page_command(content) is Some {
        assert forall|i: int| 0 <= i < ws.len() && contains(#[trigger] ws[i], "cmd"@) implies quoted(
            ws[i],
        ) is Some by {
            assert(marked(ws[i]));
        }
    }
    if 0 <= k < ws.len() && contains(ws[k], "cmd"@) && (forall|i: int|
        k < i < ws.len() ==> !contains(#[trigger] ws[i], "cmd"@)) {
        let upto = ws.take(k + 1);
        let more = ws.skip(k + 1);
        assert forall|i: int| 0 <= i < more.len() implies !marked(#[trigger] more[i]) by {
            assert(more[i] == ws[i + k + 1]);
        }
        lemma_last_command_skips(upto, more);
        assert(upto + more == ws);
        assert(upto.last() == ws[k]);
        assert(marked(ws[k]));
    }
    if forall|i: int| 0 <= i < ws.len() ==> !contains(#[trigger] ws[i], "cmd"@) {
        assert forall|i: int| 0 <= i < ws.len() implies !marked(#[trigger] ws[i]) by {}
        let none = Seq::<Seq<char>>::empty();
        lemma_last_command_skips(none, ws);
        assert(none + ws == ws);
    }
}

/// The runs of quotes at both ends of a word are left out.
proof fn lemma_outer_quotes(core: Seq<char>, k: nat, m: nat)
    requires
        core.len() == 0 || core[0] != '"' && core.last() != '"',
    ensures
        trimmed_start(
            trimmed_end(Seq::new(k, |i: int| '"') + core + Seq::new(m, |i: int| '"'), '"'),
            '"',
        ) == core,
{
    let c = '"';
    let front = Seq::new(k, |i: int| c);
    let back = Seq::new(m, |i: int| c);
    assert(Seq::new(k, |i: int| '"') == front);
    assert(Seq::new(m, |i: int| '"') == back);
    if core.len() == 0 {
        assert(front + core + back == core + Seq::new(k + m, |i: int| c));
        law_trim_end(core, c, k + m);
        law_trim_start(core, c, 0);
        assert(Seq::new(0, |i: int| c) + core == core);
    } else {
        assert((front + core).last() == core.last());
        law_trim_end(front + core, c, m);
        law_trim_start(core, c, k);
    }
}

/// What a word gives as its command, whatever quotes stand at its ends: nothing where
/// there is no quote inside it; what is behind the quote where there is one; and what is
/// between the first two where there are more.
pub proof fn law_command_stands_between_quotes(
    x: Seq<char>,
    y: Seq<char>,
    z: Seq<char>,
    k: nat,
    m: nat,
)
    requires
        forall|i: int| 0 <= i < x.len() ==> #[trigger] x[i] != '"',
        forall|i: int| 0 <= i < y.len() ==> #[trigger] y[i] != '"',
    ensures
        ({
            let front = Seq::new(k, |i: int| '"');
            let back = Seq::new(m, |i: int| '"');
            &&& quoted(front + x + back) is None
            &&& x.len() > 0 && y.len() > 0 ==> quoted(front + (x + "\""@ + y) + back) == Some(y)
            &&& x.len() > 0 && z.len() > 0 && z.last() != '"' ==> quoted(
                front + (x + "\""@ + (y + "\""@ + z)) + back,
            ) == Some(y)
        }),
{
    reveal_strlit("\"");
    assert(unbordered(QUOTE@));
    lemma_without_char(x, QUOTE@);
    lemma_without_char(y, QUOTE@);
    lemma_outer_quotes(x, k, m);
    assert(pieces(x, QUOTE@) == seq![x]);
    if x.len() > 0 && y.len() > 0 {
        let core = x + "\""@ + y;
        assert(core[0] == x[0]);
        assert(core.last() == y.last());
        lemma_outer_quotes(core, k, m);
        lemma_pieces_concat(x, QUOTE@, y);
        assert(pieces(core, QUOTE@) == seq![x, y]);
    }
    if x.len() > 0 && z.len() > 0 && z.last() != '"' {
        let rest = y + "\""@ + z;
        let core = x + "\""@ + rest;
        assert(core[0] == x[0]);
        assert(core.last() == z.last());
        lemma_outer_quotes(core, k, m);
        lemma_pieces_concat(x, QUOTE@, rest);
        lemma_pieces_concat(y, QUOTE@, z);
        assert(pieces(core, QUOTE@) == seq![x] + (seq![y] + pieces(z, QUOTE@)));
        assert(pieces(z, QUOTE@).len() > 0);
    }
}

/// The directive that is looked for is the comment with the command in it, whose
/// apostrophes are written as quotes.
pub proof fn law_directive_holds_its_command(command: Seq<char>)
    ensures
        directive(command) == "<!--#exec cmd=\""@ + replaced(command, "'"@, "\""@) + "\" -->"@,
{
    lemma_directive_parts();
    let start = "<!--#exec cmd="@;
    let end = " -->"@;
    let inner = command + APOSTROPHE@ + end;
    let shown = replaced(command, APOSTROPHE@, QUOTE@);
    assert(DIRECTIVE_START@ + command + DIRECTIVE_END@ == start + APOSTROPHE@ + inner);
    assert(unbordered(APOSTROPHE@));
    law_replace_at(start, APOSTROPHE@, inner, QUOTE@);
    law_replace_at(command, APOSTROPHE@, end, QUOTE@);
    assert(directive(command) == start + QUOTE@ + (shown + QUOTE@ + end));
    assert(start + QUOTE@ + (shown + QUOTE@ + end) == (start + QUOTE@) + shown + (QUOTE@ + end));
}

/// What a command prints takes the place of every directive for it; a page stays as it is
/// where there is no command or nothing was printed.
pub proof fn law_output_replaces_the_directive(
    content: Seq<char>,
    command: Seq<char>,
    output: Seq<char>,
)
    ensures
        command.len() > 0 && output.len() > 0 ==> dynamic_page(content, command, output)
            == replaced(
            content,
            "<!--#exec cmd=\""@ + replaced(command, "'"@, "\""@) + "\" -->"@,
            output,
        ),
        command.len() == 0 || output.len() == 0 ==> dynamic_page(content, command, output)
            == content,
{
    law_directive_holds_its_command(command);
}

} // verus!
