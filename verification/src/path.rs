//! Paths of files, as text.

use crate::text::{
    chars_of, contains, ends_with, join, join_with, law_end_of_text, law_split_leaves_no_separator,
    lemma_pieces_concat, lemma_without_char, matches_at, occurs_at, pieces, split, text_of, texts,
    unbordered,
};
use vstd::prelude::*;

verus! {

/// What separates the names of a path.
pub const SLASH: &'static str = "/";

/// The name that a directory has for itself.
pub const HERE: &'static str = ".";

/// The name that a directory has for the one above it.
pub const ABOVE: &'static str = "..";

/// What the name of a page with a command ends with.
pub const DYNAMIC_SUFFIX: &'static str = ".shtml";

/// A path that starts at the root.
pub open spec fn is_rooted(path: Seq<char>) -> bool {
    path.len() > 0 && path[0] == '/'
}

/// Where one goes by one name more from where the given names lead. There is
/// nothing above the root; a way that does not start there may lead up first.
pub open spec fn step(rooted: bool, names: Seq<Seq<char>>, name: Seq<char>) -> Seq<Seq<char>> {
    if name.len() == 0 || name == HERE@ {
        names
    } else if name != ABOVE@ {
        names.push(name)
    } else if names.len() == 0 || names.last() == ABOVE@ {
        if rooted {
            names
        } else {
            names.push(name)
        }
    } else {
        names.drop_last()
    }
}

/// Where one gets by the given names, one after the other.
pub open spec fn walked(
    rooted: bool,
    from: Seq<Seq<char>>,
    names: Seq<Seq<char>>,
) -> Seq<Seq<char>>
    decreases names.len(),
{
    if names.len() == 0 {
        from
    } else {
        step(rooted, walked(rooted, from, names.drop_last()), names.last())
    }
}

/// The names by which a path leads to its end without detours.
pub open spec fn direct_names(path: Seq<char>) -> Seq<Seq<char>> {
    walked(is_rooted(path), Seq::empty(), pieces(path, SLASH@))
}

/// The path with the given names, from the root.
pub open spec fn absolute(names: Seq<Seq<char>>) -> Seq<char> {
    SLASH@ + join(names, SLASH@)
}

/// The path with the given names, from where one is.
pub open spec fn relative(names: Seq<Seq<char>>) -> Seq<char> {
    if names.len() == 0 {
        HERE@
    } else {
        join(names, SLASH@)
    }
}

/// The path without detours: no empty name, none for a directory itself, and none
/// for the one above where a name in front of it can be left out instead.
pub open spec fn normalized(path: Seq<char>) -> Seq<char> {
    if is_rooted(path) {
        absolute(direct_names(path))
    } else {
        relative(direct_names(path))
    }
}

/// The path of `target`, seen from the directory `cwd`.
pub open spec fn resolved(cwd: Seq<char>, target: Seq<char>) -> Seq<char> {
    normalized(cwd + SLASH@ + target)
}

/// The path names a page with a command: its last name ends with the suffix and
/// does not consist of it.
pub open spec fn is_dynamic(path: Seq<char>) -> bool {
    &&& ends_with(path, DYNAMIC_SUFFIX@)
    &&& path.len() > DYNAMIC_SUFFIX@.len()
    &&& path[path.len() - DYNAMIC_SUFFIX@.len() - 1] != '/'
}

/// A name that leads from a directory to something in it.
pub open spec fn proper(name: Seq<char>) -> bool {
    &&& name.len() > 0
    &&& name != HERE@
    &&& name != ABOVE@
    &&& !contains(name, SLASH@)
}

/// All of the names are proper.
pub open spec fn all_proper(names: Seq<Seq<char>>) -> bool {
    forall|i: int| 0 <= i < names.len() ==> proper(#[trigger] names[i])
}

/// The path without detours.
pub fn normalize(path: &str) -> (r: String)
    ensures
        r@ == normalized(path@),
{
    let whole = chars_of(path);
    text_of(&normalize_chars(&whole))
}

/// The path of `target`, seen from the directory `cwd`.
pub fn resolve(cwd: &str, target: &str) -> (r: String)
    ensures
        r@ == resolved(cwd@, target@),
{
    let mut whole = chars_of(cwd);
    whole.extend_from_slice(&chars_of(SLASH));
    whole.extend_from_slice(&chars_of(target));
    assert(whole@ == cwd@ + SLASH@ + target@);
    text_of(&normalize_chars(&whole))
}

/// Whether the name stands for the directory above.
fn is_above(name: &[char]) -> (r: bool)
    ensures
        r == (name@ == ABOVE@),
{
    proof {
        reveal_strlit("..");
    }
    let r = name.len() == 2 && name[0] == '.' && name[1] == '.';
    assert(r ==> name@ == ABOVE@);
    r
}

/// Whether the name leads nowhere else: it is empty or stands for the directory
/// itself.
fn stays(name: &[char]) -> (r: bool)
    ensures
        r == (name@.len() == 0 || name@ == HERE@),
{
    proof {
        reveal_strlit(".");
    }
    let r = name.len() == 0 || (name.len() == 1 && name[0] == '.');
    assert(r && name@.len() == 1 ==> name@ == HERE@);
    r
}

/// The path without detours.
fn normalize_chars(path: &[char]) -> (r: Vec<char>)
    ensures
        r@ == normalized(path@),
{
    let slash = chars_of(SLASH);
    proof {
        reveal_strlit("/");
    }
    let rooted = path.len() > 0 && path[0] == '/';
    let names = split(path, &slash);
    let mut way: Vec<&[char]> = Vec::new();
    let ghost all = texts(names@);
    let mut i: usize = 0;
    assert(texts(way@) == Seq::<Seq<char>>::empty());
    while i < names.len()
        invariant
            i <= names.len(),
            all == texts(names@),
            texts(way@) == walked(rooted, Seq::empty(), all.take(i as int)),
        decreases names.len() - i,
    {
        let name = names[i];
        let ghost before = texts(way@);
        proof {
            assert(all.take(i + 1).drop_last() == all.take(i as int));
            assert(all.take(i + 1).last() == name@);
            assert(before.len() == way@.len());
        }
        if !stays(name) {
            if !is_above(name) {
                way.push(name);
                assert(texts(way@) == before.push(name@));
            } else if way.len() == 0 || is_above(way[way.len() - 1]) {
                assert(way@.len() > 0 ==> before.last() == way@.last()@);
                if !rooted {
                    way.push(name);
                    assert(texts(way@) == before.push(name@));
                }
            } else {
                assert(before.last() == way@.last()@);
                let _ = way.pop();
                assert(texts(way@) == before.drop_last());
            }
        }
        i += 1;
    }
    assert(all.take(i as int) == all);
    assert(texts(way@).len() == way@.len());
    let tail = join_with(&way, &slash);
    if rooted {
        let mut r = slash;
        r.extend_from_slice(&tail);
        assert(r@ == SLASH@ + tail@);
        r
    } else if way.len() == 0 {
        chars_of(HERE)
    } else {
        tail
    }
}

/// Whether the path names a page with a command.
pub fn names_dynamic_page(path: &str) -> (r: bool)
    ensures
        r == is_dynamic(path@),
{
    let text = chars_of(path);
    let suffix = chars_of(DYNAMIC_SUFFIX);
    if text.len() <= suffix.len() {
        return false;
    }
    let at = text.len() - suffix.len();
    matches_at(&text, &suffix, at) && text[at - 1] != '/'
}

/// The names lead to their end without detours: proper names, and in front of them
/// the way up, unless they start at the root.
pub open spec fn all_direct(rooted: bool, names: Seq<Seq<char>>) -> bool {
    forall|i: int|
        0 <= i < names.len() ==> proper(#[trigger] names[i]) || {
            &&& !rooted
            &&& names[i] == ABOVE@
            &&& forall|j: int| 0 <= j < i ==> #[trigger] names[j] == ABOVE@
        }
}

proof fn lemma_walked_direct(rooted: bool, names: Seq<Seq<char>>)
    requires
        forall|i: int| 0 <= i < names.len() ==> !contains(#[trigger] names[i], SLASH@),
    ensures
        all_direct(rooted, walked(rooted, Seq::empty(), names)),
    decreases names.len(),
{
    if names.len() > 0 {
        let fewer = names.drop_last();
        assert forall|i: int| 0 <= i < fewer.len() implies !contains(
            #[trigger] fewer[i],
            SLASH@,
        ) by {
            assert(fewer[i] == names[i]);
        }
        lemma_walked_direct(rooted, fewer);
        assert(!contains(names[names.len() - 1], SLASH@));
        let before = walked(rooted, Seq::empty(), fewer);
        let after = walked(rooted, Seq::empty(), names);
        assert forall|i: int| 0 <= i < after.len() implies proper(#[trigger] after[i]) || {
            &&& !rooted
            &&& after[i] == ABOVE@
            &&& forall|j: int| 0 <= j < i ==> #[trigger] after[j] == ABOVE@
        } by {
            if i < before.len() {
                assert(after[i] == before[i]);
                assert(forall|j: int| 0 <= j < i ==> after[j] == before[j]);
            } else if !proper(after[i]) {
                // The way up goes on: all names in front of it lead up.
                assert(after[i] == ABOVE@);
                if before.len() > 0 {
                    assert(before[before.len() - 1] == ABOVE@);
                    assert(!proper(before[before.len() - 1]));
                }
                assert(forall|j: int| 0 <= j < i ==> after[j] == before[j]);
            }
        }
    }
}

/// A normalized path leads to its end without detours: it holds no empty name and
/// none that stands for a directory itself, and it leads up only at its start, and
/// not from the root.
pub proof fn law_normalized_path_is_direct(path: Seq<char>)
    ensures
        all_direct(is_rooted(path), direct_names(path)),
{
    reveal_strlit("/");
    let names = pieces(path, SLASH@);
    assert forall|i: int| 0 <= i < names.len() implies !contains(#[trigger] names[i], SLASH@) by {
        law_split_leaves_no_separator(path, SLASH@, i);
    }
    lemma_walked_direct(is_rooted(path), names);
}

/// Seen from a directory that is given from the root, a resolved path leads down
/// from the root by proper names alone.
pub proof fn law_resolved_path_is_direct(cwd: Seq<char>, target: Seq<char>)
    requires
        is_rooted(cwd),
    ensures
        all_proper(direct_names(cwd + SLASH@ + target)),
        resolved(cwd, target) == absolute(direct_names(cwd + SLASH@ + target)),
{
    law_normalized_path_is_direct(cwd + SLASH@ + target);
}

proof fn lemma_walked_concat(
    rooted: bool,
    from: Seq<Seq<char>>,
    a: Seq<Seq<char>>,
    b: Seq<Seq<char>>,
)
    ensures
        walked(rooted, from, a + b) == walked(rooted, walked(rooted, from, a), b),
    decreases b.len(),
{
    if b.len() == 0 {
        assert(a + b == a);
    } else {
        assert((a + b).drop_last() == a + b.drop_last());
        assert((a + b).last() == b.last());
        lemma_walked_concat(rooted, from, a, b.drop_last());
    }
}

/// A single name that stays leads nowhere.
proof fn lemma_walked_stays(rooted: bool, from: Seq<Seq<char>>, name: Seq<char>)
    requires
        name.len() == 0 || name == HERE@,
    ensures
        walked(rooted, from, seq![name]) == from,
{
    assert(seq![name].drop_last() == Seq::<Seq<char>>::empty());
    assert(seq![name].last() == name);
    assert(walked(rooted, from, seq![name].drop_last()) == from);
}

proof fn lemma_walked_down(rooted: bool, from: Seq<Seq<char>>, names: Seq<Seq<char>>)
    requires
        all_proper(names),
    ensures
        walked(rooted, from, names) == from + names,
    decreases names.len(),
{
    if names.len() > 0 {
        let fewer = names.drop_last();
        assert forall|i: int| 0 <= i < fewer.len() implies proper(#[trigger] fewer[i]) by {
            assert(fewer[i] == names[i]);
        }
        lemma_walked_down(rooted, from, fewer);
        assert(proper(names[names.len() - 1]));
        assert(from + names == (from + fewer).push(names.last()));
    } else {
        assert(from + names == from);
    }
}

/// Names without detours lead where they say.
proof fn lemma_walked_along(rooted: bool, names: Seq<Seq<char>>)
    requires
        all_direct(rooted, names),
    ensures
        walked(rooted, Seq::empty(), names) == names,
    decreases names.len(),
{
    if names.len() > 0 {
        let fewer = names.drop_last();
        let last = names[names.len() - 1];
        assert forall|i: int| 0 <= i < fewer.len() implies proper(#[trigger] fewer[i]) || {
            &&& !rooted
            &&& fewer[i] == ABOVE@
            &&& forall|j: int| 0 <= j < i ==> #[trigger] fewer[j] == ABOVE@
        } by {
            assert(fewer[i] == names[i]);
            assert(forall|j: int| 0 <= j < i ==> fewer[j] == names[j]);
        }
        lemma_walked_along(rooted, fewer);
        assert(names == fewer.push(last));
        if !proper(last) {
            reveal_strlit(".");
            reveal_strlit("..");
            assert(last == ABOVE@);
            if fewer.len() > 0 {
                assert(names[fewer.len() - 1] == ABOVE@);
            }
        }
    }
}

proof fn lemma_pieces_of_join(names: Seq<Seq<char>>)
    requires
        names.len() > 0,
        forall|i: int| 0 <= i < names.len() ==> !contains(#[trigger] names[i], SLASH@),
    ensures
        pieces(join(names, SLASH@), SLASH@) == names,
    decreases names.len(),
{
    reveal_strlit("/");
    assert(!contains(names[0], SLASH@));
    if names.len() > 1 {
        let rest = names.drop_first();
        assert forall|i: int| 0 <= i < rest.len() implies !contains(
            #[trigger] rest[i],
            SLASH@,
        ) by {
            assert(rest[i] == names[i + 1]);
        }
        lemma_pieces_of_join(rest);
        assert(unbordered(SLASH@));
        lemma_pieces_concat(names[0], SLASH@, join(rest, SLASH@));
        assert(pieces(names[0], SLASH@) == seq![names[0]]);
        assert(seq![names[0]] + rest == names);
    } else {
        assert(names == seq![names[0]]);
    }
}

/// The parts of a path from the root: an empty one in front of the first slash, then
/// the names; the root itself has two empty parts.
proof fn lemma_pieces_of_absolute(names: Seq<Seq<char>>)
    requires
        forall|i: int| 0 <= i < names.len() ==> !contains(#[trigger] names[i], SLASH@),
    ensures
        ({
            let none = Seq::<char>::empty();
            pieces(absolute(names), SLASH@) == seq![none] + (if names.len() == 0 {
                seq![none]
            } else {
                names
            })
        }),
{
    reveal_strlit("/");
    let none = Seq::<char>::empty();
    let down = join(names, SLASH@);
    assert(unbordered(SLASH@));
    assert(none + SLASH@ + down == absolute(names));
    lemma_pieces_concat(none, SLASH@, down);
    assert(!contains(none, SLASH@));
    if names.len() > 0 {
        lemma_pieces_of_join(names);
    } else {
        assert(down == none);
    }
}

/// The way from the root by the parts of a path.
proof fn lemma_walked_absolute(names: Seq<Seq<char>>)
    requires
        all_proper(names),
    ensures
        walked(true, Seq::empty(), pieces(absolute(names), SLASH@)) == names,
{
    let none = Seq::<char>::empty();
    let root = Seq::<Seq<char>>::empty();
    assert forall|i: int| 0 <= i < names.len() implies !contains(#[trigger] names[i], SLASH@) by {
        assert(proper(names[i]));
    }
    lemma_pieces_of_absolute(names);
    lemma_walked_stays(true, root, none);
    if names.len() > 0 {
        lemma_walked_concat(true, root, seq![none], names);
        lemma_walked_down(true, root, names);
        assert(root + names == names);
    } else {
        lemma_walked_concat(true, root, seq![none], seq![none]);
        assert(names == root);
    }
}

/// A normalized path stays as it is when it is normalized again.
pub proof fn law_normalized_path_stays(path: Seq<char>)
    ensures
        normalized(normalized(path)) == normalized(path),
{
    reveal_strlit("/");
    reveal_strlit(".");
    reveal_strlit("..");
    let names = direct_names(path);
    let root = Seq::<Seq<char>>::empty();
    law_normalized_path_is_direct(path);
    lemma_without_char(HERE@, SLASH@);
    lemma_without_char(ABOVE@, SLASH@);
    if is_rooted(path) {
        assert forall|i: int| 0 <= i < names.len() implies proper(#[trigger] names[i]) by {}
        lemma_walked_absolute(names);
        assert(is_rooted(absolute(names)));
    } else if names.len() == 0 {
        assert(pieces(HERE@, SLASH@) == seq![HERE@]);
        lemma_walked_stays(false, root, HERE@);
    } else {
        assert forall|i: int| 0 <= i < names.len() implies !contains(
            #[trigger] names[i],
            SLASH@,
        ) by {
            assert(proper(names[i]) || names[i] == ABOVE@);
        }
        lemma_pieces_of_join(names);
        lemma_walked_along(false, names);
        let text = join(names, SLASH@);
        assert(!is_rooted(text)) by {
            // Its first character is that of the first name.
            assert(proper(names[0]) || names[0] == ABOVE@);
            assert(text[0] == names[0][0]);
            if names[0][0] == '/' {
                assert(names[0].subrange(0, 1) == SLASH@);
                assert(occurs_at(names[0], SLASH@, 0));
            }
        }
    }
}

/// Seen from a directory, a path of proper names behind `./` leads down from that
/// directory.
pub proof fn law_path_is_taken_from_the_directory(
    directory: Seq<Seq<char>>,
    names: Seq<Seq<char>>,
)
    requires
        all_proper(directory),
        all_proper(names),
        names.len() > 0,
    ensures
        resolved(absolute(directory), HERE@ + SLASH@ + join(names, SLASH@)) == absolute(
            directory + names,
        ),
{
    reveal_strlit("/");
    reveal_strlit(".");
    let cwd = absolute(directory);
    let target = HERE@ + SLASH@ + join(names, SLASH@);
    let root = Seq::<Seq<char>>::empty();
    assert(is_rooted(cwd + SLASH@ + target));
    assert(unbordered(SLASH@));
    lemma_pieces_concat(cwd, SLASH@, target);
    lemma_pieces_concat(HERE@, SLASH@, join(names, SLASH@));
    assert forall|i: int| 0 <= i < names.len() implies !contains(#[trigger] names[i], SLASH@) by {
        assert(proper(names[i]));
    }
    lemma_pieces_of_join(names);
    lemma_without_char(HERE@, SLASH@);
    assert(pieces(target, SLASH@) == seq![HERE@] + names);
    // The way to the directory itself, and on from there.
    lemma_walked_absolute(directory);
    lemma_walked_concat(true, root, pieces(cwd, SLASH@), pieces(target, SLASH@));
    lemma_walked_concat(true, directory, seq![HERE@], names);
    lemma_walked_stays(true, directory, HERE@);
    lemma_walked_down(true, directory, names);
}

/// The way by two texts with a slash between them.
proof fn lemma_walked_text(rooted: bool, from: Seq<Seq<char>>, a: Seq<char>, b: Seq<char>)
    ensures
        walked(rooted, from, pieces(a + "/"@ + b, "/"@)) == walked(
            rooted,
            walked(rooted, from, pieces(a, "/"@)),
            pieces(b, "/"@),
        ),
{
    reveal_strlit("/");
    assert(unbordered("/"@));
    lemma_pieces_concat(a, "/"@, b);
    lemma_walked_concat(rooted, from, pieces(a, "/"@), pieces(b, "/"@));
}

/// The way by one name.
proof fn lemma_walked_name(rooted: bool, from: Seq<Seq<char>>, name: Seq<char>)
    requires
        forall|i: int| 0 <= i < name.len() ==> #[trigger] name[i] != '/',
    ensures
        walked(rooted, from, pieces(name, "/"@)) == step(rooted, from, name),
{
    reveal_strlit("/");
    lemma_without_char(name, "/"@);
    assert(pieces(name, "/"@) == seq![name]);
    assert(seq![name].drop_last() == Seq::<Seq<char>>::empty());
    assert(seq![name].last() == name);
    assert(walked(rooted, from, seq![name].drop_last()) == from);
}

/// Empty names, and names for a directory itself, are left out, wherever they stand.
pub proof fn law_names_that_lead_nowhere_are_left_out(a: Seq<char>, b: Seq<char>)
    ensures
        normalized(a + "/"@ + "/"@ + b) == normalized(a + "/"@ + b),
        normalized(a + "/"@ + "."@ + "/"@ + b) == normalized(a + "/"@ + b),
        normalized(a + "/"@ + "."@) == normalized(a + "/"@),
        a.len() > 0 ==> normalized(a + "/"@) == normalized(a),
        b.len() == 0 || b[0] != '/' ==> normalized("."@ + "/"@ + b) == normalized(b),
        normalized(Seq::<char>::empty()) == "."@,
        normalized("."@) == "."@,
{
    reveal_strlit("/");
    reveal_strlit(".");
    let none = Seq::<char>::empty();
    let here = Seq::<Seq<char>>::empty();
    let rooted = is_rooted(a + "/"@);
    let way = walked(rooted, here, pieces(a, "/"@));
    lemma_walked_text(rooted, here, a, b);
    // An empty name.
    assert(a + "/"@ + "/"@ + b == a + "/"@ + (none + "/"@ + b));
    lemma_walked_text(rooted, here, a, none + "/"@ + b);
    lemma_walked_text(rooted, way, none, b);
    lemma_walked_name(rooted, way, none);
    // A name for the directory itself.
    assert(a + "/"@ + "."@ + "/"@ + b == a + "/"@ + ("."@ + "/"@ + b));
    lemma_walked_text(rooted, here, a, "."@ + "/"@ + b);
    lemma_walked_text(rooted, way, "."@, b);
    lemma_walked_name(rooted, way, "."@);
    // At the end.
    lemma_walked_text(rooted, here, a, "."@);
    assert(a + "/"@ + none == a + "/"@);
    lemma_walked_text(rooted, here, a, none);
    assert(is_rooted(a + "/"@ + "."@) == rooted);
    assert(is_rooted(a + "/"@ + b) == rooted);
    assert(is_rooted(a + "/"@ + "/"@ + b) == rooted);
    assert(is_rooted(a + "/"@ + "."@ + "/"@ + b) == rooted);
    if a.len() > 0 {
        assert(is_rooted(a) == rooted);
    }
    // At the start.
    lemma_walked_text(false, here, "."@, b);
    lemma_walked_name(false, here, "."@);
    lemma_walked_name(false, here, none);
    assert(!is_rooted("."@ + "/"@ + b));
}

/// A name and the way back from it cancel out, wherever they stand.
pub proof fn law_name_and_way_back_cancel(a: Seq<char>, name: Seq<char>, b: Seq<char>)
    requires
        name.len() > 0,
        name != "."@,
        name != ".."@,
        forall|i: int| 0 <= i < name.len() ==> #[trigger] name[i] != '/',
    ensures
        normalized(a + "/"@ + name + "/"@ + ".."@ + "/"@ + b) == normalized(a + "/"@ + b),
        normalized(a + "/"@ + name + "/"@ + ".."@) == normalized(a + "/"@),
        b.len() == 0 || b[0] != '/' ==> normalized(name + "/"@ + ".."@ + "/"@ + b) == normalized(b),
        normalized(name + "/"@ + ".."@) == "."@,
{
    reveal_strlit("/");
    reveal_strlit(".");
    reveal_strlit("..");
    let none = Seq::<char>::empty();
    let here = Seq::<Seq<char>>::empty();
    let rooted = is_rooted(a + "/"@);
    let way = walked(rooted, here, pieces(a, "/"@));
    assert forall|r: bool, w: Seq<Seq<char>>|
        #[trigger] walked(r, w, pieces(name + "/"@ + ".."@, "/"@)) == w by {
        lemma_walked_text(r, w, name, ".."@);
        lemma_walked_name(r, w, name);
        lemma_walked_name(r, w.push(name), ".."@);
        assert(w.push(name).last() == name);
        assert(w.push(name).drop_last() == w);
    }
    let back = name + "/"@ + ".."@;
    assert(a + "/"@ + name + "/"@ + ".."@ + "/"@ + b == a + "/"@ + (back + "/"@ + b));
    lemma_walked_text(rooted, here, a, back + "/"@ + b);
    lemma_walked_text(rooted, way, back, b);
    lemma_walked_text(rooted, here, a, b);
    assert(a + "/"@ + name + "/"@ + ".."@ == a + "/"@ + back);
    lemma_walked_text(rooted, here, a, back);
    assert(a + "/"@ + none == a + "/"@);
    lemma_walked_text(rooted, here, a, none);
    lemma_walked_name(rooted, way, none);
    assert(is_rooted(a + "/"@ + b) == rooted);
    assert(is_rooted(a + "/"@ + (back + "/"@ + b)) == rooted);
    assert(is_rooted(a + "/"@ + back) == rooted);
    assert(name[0] != '/');
    assert(!is_rooted(back + "/"@ + b));
    assert(!is_rooted(back));
    lemma_walked_text(false, here, back, b);
}

/// There is nothing above the root.
pub proof fn law_nothing_is_above_the_root(b: Seq<char>)
    ensures
        normalized("/"@ + ".."@ + "/"@ + b) == normalized("/"@ + b),
        normalized("/"@ + ".."@) == "/"@,
        normalized("/"@) == "/"@,
{
    reveal_strlit("/");
    reveal_strlit(".");
    reveal_strlit("..");
    let none = Seq::<char>::empty();
    let root = Seq::<Seq<char>>::empty();
    assert("/"@ + ".."@ + "/"@ + b == none + "/"@ + (".."@ + "/"@ + b));
    assert("/"@ + b == none + "/"@ + b);
    assert("/"@ + ".."@ == none + "/"@ + ".."@);
    assert("/"@ == none + "/"@ + none);
    lemma_walked_text(true, root, none, ".."@ + "/"@ + b);
    lemma_walked_text(true, root, ".."@, b);
    lemma_walked_text(true, root, none, b);
    lemma_walked_text(true, root, none, ".."@);
    lemma_walked_text(true, root, none, none);
    lemma_walked_name(true, root, none);
    lemma_walked_name(true, root, ".."@);
    assert(join(root, "/"@) == none);
    assert("/"@ + none == "/"@);
}

/// A path by names that lead on stays as it is: from the root, or from where one is, with
/// any number of steps up in front.
pub proof fn law_path_without_detours_stays(names: Seq<Seq<char>>, up: nat)
    requires
        forall|i: int|
            0 <= i < names.len() ==> {
                &&& (#[trigger] names[i]).len() > 0
                &&& names[i] != "."@
                &&& names[i] != ".."@
                &&& forall|j: int| 0 <= j < names[i].len() ==> #[trigger] names[i][j] != '/'
            },
    ensures
        normalized("/"@ + join(names, "/"@)) == "/"@ + join(names, "/"@),
        up + names.len() > 0 ==> normalized(join(Seq::new(up, |i: int| ".."@) + names, "/"@))
            == join(Seq::new(up, |i: int| ".."@) + names, "/"@),
{
    reveal_strlit("/");
    reveal_strlit(".");
    reveal_strlit("..");
    assert forall|i: int| 0 <= i < names.len() implies proper(#[trigger] names[i]) by {
        lemma_without_char(names[i], "/"@);
    }
    lemma_walked_absolute(names);
    assert(is_rooted(absolute(names)));
    if up + names.len() > 0 {
        let all = Seq::new(up, |i: int| ".."@) + names;
        lemma_without_char(".."@, "/"@);
        assert forall|i: int| 0 <= i < all.len() implies proper(#[trigger] all[i]) || {
            &&& all[i] == ABOVE@
            &&& forall|j: int| 0 <= j < i ==> #[trigger] all[j] == ABOVE@
        } by {
            if i >= up {
                assert(all[i] == names[i - up]);
            }
        }
        assert(all_direct(false, all));
        assert forall|i: int| 0 <= i < all.len() implies !contains(#[trigger] all[i], "/"@) by {
            assert(proper(all[i]) || all[i] == ABOVE@);
        }
        lemma_pieces_of_join(all);
        lemma_walked_along(false, all);
        let text = join(all, "/"@);
        assert(!is_rooted(text)) by {
            assert(proper(all[0]) || all[0] == ABOVE@);
            assert(text[0] == all[0][0]);
            if all[0][0] == '/' {
                assert(all[0].subrange(0, 1) == "/"@);
                assert(occurs_at(all[0], "/"@, 0));
            }
        }
    }
}

/// A target is taken from the served directory: it is the path of both with a slash
/// between them.
pub proof fn law_target_is_taken_from_the_directory(cwd: Seq<char>, target: Seq<char>)
    ensures
        resolved(cwd, target) == normalized(cwd + "/"@ + target),
{
}

/// Every name in front of the suffix makes a page with a command, and a path without the
/// suffix, or with nothing but the suffix as its last name, does not.
pub proof fn law_suffix_makes_a_dynamic_page(
    directory: Seq<char>,
    name: Seq<char>,
    path: Seq<char>,
)
    requires
        name.len() > 0,
        name.last() != '/',
    ensures
        is_dynamic(directory + "/"@ + name + ".shtml"@),
        is_dynamic(name + ".shtml"@),
        !is_dynamic(directory + "/"@ + ".shtml"@),
        !is_dynamic(".shtml"@),
        is_dynamic(path) ==> path.len() > ".shtml"@.len() && path == path.take(
            path.len() - ".shtml"@.len(),
        ) + ".shtml"@,
{
    reveal_strlit("/");
    reveal_strlit(".shtml");
    law_end_of_text(directory + "/"@ + name, path, ".shtml"@);
    law_end_of_text(name, path, ".shtml"@);
    let whole = directory + "/"@ + name + ".shtml"@;
    assert(whole[whole.len() - 7] == name.last());
    assert((name + ".shtml"@)[name.len() - 1] == name.last());
    let bare = directory + "/"@ + ".shtml"@;
    assert(bare[bare.len() - 7] == '/');
}

} // verus!
