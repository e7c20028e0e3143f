//! Operations on text, seen as a sequence of characters.

use vstd::prelude::*;
use vstd::slice::slice_subrange;

verus! {

/// The space, which separates the words of a comment and the parts of a request.
pub const SPACE: &'static str = " ";

/// The pattern `p` stands in `s` at position `i`.
pub open spec fn occurs_at(s: Seq<char>, p: Seq<char>, i: int) -> bool {
    &&& 0 <= i
    &&& i + p.len() <= s.len()
    &&& s.subrange(i, i + p.len()) == p
}

/// The pattern `p` stands somewhere in `s`.
pub open spec fn contains(s: Seq<char>, p: Seq<char>) -> bool {
    exists|i: int| occurs_at(s, p, i)
}

/// `i` is the leftmost position of `p` in `s`.
pub open spec fn first_at(s: Seq<char>, p: Seq<char>, i: int) -> bool {
    &&& occurs_at(s, p, i)
    &&& forall|j: int| 0 <= j < i ==> !occurs_at(s, p, j)
}

/// The leftmost position of `p` in `s`, where there is one.
pub open spec fn position(s: Seq<char>, p: Seq<char>) -> int {
    choose|i: int| first_at(s, p, i)
}

/// What remains of `s` behind the leftmost `p`.
pub open spec fn after(s: Seq<char>, p: Seq<char>) -> Seq<char> {
    s.subrange(position(s, p) + p.len(), s.len() as int)
}

/// The parts of `s` between the occurrences of `sep`, which are taken from the
/// left and do not overlap.
pub open spec fn pieces(s: Seq<char>, sep: Seq<char>) -> Seq<Seq<char>>
    decreases s.len(),
{
    if sep.len() > 0 && contains(s, sep) {
        proof {
            lemma_position(s, sep);
        }
        seq![s.subrange(0, position(s, sep))] + pieces(after(s, sep), sep)
    } else {
        seq![s]
    }
}

/// The parts one behind the other, with `sep` between each two.
pub open spec fn join(parts: Seq<Seq<char>>, sep: Seq<char>) -> Seq<char>
    decreases parts.len(),
{
    if parts.len() == 0 {
        Seq::empty()
    } else if parts.len() == 1 {
        parts[0]
    } else {
        parts[0] + sep + join(parts.drop_first(), sep)
    }
}

/// `s` with each occurrence of `from` that `pieces` finds turned into `to`.
pub open spec fn replaced(s: Seq<char>, from: Seq<char>, to: Seq<char>) -> Seq<char> {
    join(pieces(s, from), to)
}

/// `s` without the run of `c` at its start.
pub open spec fn trimmed_start(s: Seq<char>, c: char) -> Seq<char>
    decreases s.len(),
{
    if s.len() > 0 && s[0] == c {
        trimmed_start(s.drop_first(), c)
    } else {
        s
    }
}

/// `s` without the run of `c` at its end.
pub open spec fn trimmed_end(s: Seq<char>, c: char) -> Seq<char>
    decreases s.len(),
{
    if s.len() > 0 && s.last() == c {
        trimmed_end(s.drop_last(), c)
    } else {
        s
    }
}

/// `s` ends with `suffix`.
pub open spec fn ends_with(s: Seq<char>, suffix: Seq<char>) -> bool {
    occurs_at(s, suffix, s.len() - suffix.len())
}

/// The texts of a list of slices.
pub open spec fn texts(parts: Seq<&[char]>) -> Seq<Seq<char>> {
    parts.map_values(|part: &[char]| part@)
}

/// The texts of a list of strings.
pub open spec fn string_texts(strings: Seq<String>) -> Seq<Seq<char>> {
    strings.map_values(|s: String| s@)
}

/// The text of a string, where there is one.
pub open spec fn option_text(string: Option<String>) -> Option<Seq<char>> {
    match string {
        Some(s) => Some(s@),
        None => None,
    }
}

/// A pattern that occurs has a leftmost position, and only one.
pub proof fn lemma_position(s: Seq<char>, p: Seq<char>)
    requires
        contains(s, p),
    ensures
        first_at(s, p, position(s, p)),
        forall|i: int| first_at(s, p, i) ==> i == position(s, p),
{
    let i = choose|i: int| occurs_at(s, p, i);
    lemma_first_below(s, p, i);
    assert forall|i: int| first_at(s, p, i) implies i == position(s, p) by {
        let k = position(s, p);
        assert(occurs_at(s, p, k) && occurs_at(s, p, i));
        assert(i < k ==> !occurs_at(s, p, i));
        assert(k < i ==> !occurs_at(s, p, k));
    }
}

proof fn lemma_first_below(s: Seq<char>, p: Seq<char>, i: int)
    requires
        occurs_at(s, p, i),
    ensures
        exists|j: int| first_at(s, p, j),
    decreases i,
{
    if exists|j: int| 0 <= j < i && occurs_at(s, p, j) {
        let j = choose|j: int| 0 <= j < i && occurs_at(s, p, j);
        lemma_first_below(s, p, j);
    } else {
        assert(first_at(s, p, i));
    }
}

/// The characters of a text.
pub fn chars_of(s: &str) -> (r: Vec<char>)
    ensures
        r@ == s@,
{
    let mut r: Vec<char> = Vec::new();
    for c in it: s.chars()
        invariant
            r@ == it.seq().take(it.index() as int),
            it.seq() == s@,
    {
        r.push(c);
    }
    r
}

/// `String::push` puts one character behind the text.
pub assume_specification[ String::push ](s: &mut String, c: char)
    ensures
        final(s)@ == old(s)@.push(c),
;

/// The text made of the given characters.
pub fn text_of(chars: &[char]) -> (r: String)
    ensures
        r@ == chars@,
{
    let mut r = String::new();
    let mut i: usize = 0;
    while i < chars.len()
        invariant
            i <= chars.len(),
            r@ == chars@.take(i as int),
        decreases chars.len() - i,
    {
        r.push(chars[i]);
        i += 1;
        assert(chars@.take(i as int) == chars@.take(i - 1).push(chars@[i - 1]));
    }
    assert(chars@.take(i as int) == chars@);
    r
}

/// Whether `p` stands in `s` at position `i`.
pub fn matches_at(s: &[char], p: &[char], i: usize) -> (r: bool)
    ensures
        r == occurs_at(s@, p@, i as int),
{
    if i > s.len() || p.len() > s.len() - i {
        return false;
    }
    let mut k: usize = 0;
    while k < p.len()
        invariant
            k <= p.len(),
            i + p.len() <= s.len(),
            forall|j: int| 0 <= j < k ==> s@[i + j] == p@[j],
        decreases p.len() - k,
    {
        if s[i + k] != p[k] {
            assert(s@.subrange(i as int, i + p.len())[k as int] != p@[k as int]);
            return false;
        }
        k += 1;
    }
    assert(s@.subrange(i as int, i + p.len()) == p@);
    true
}

/// The leftmost position of `p` in `s` from `from` on.
pub fn find_from(s: &[char], p: &[char], from: usize) -> (r: Option<usize>)
    ensures
        match r {
            Some(i) => {
                &&& from <= i
                &&& occurs_at(s@, p@, i as int)
                &&& forall|j: int| from <= j < i ==> !occurs_at(s@, p@, j)
            },
            None => forall|j: int| from <= j ==> !occurs_at(s@, p@, j),
        },
{
    let mut i: usize = from;
    while i <= s.len()
        invariant
            from <= i,
            forall|j: int| from <= j < i ==> !occurs_at(s@, p@, j),
        decreases s.len() + 1 - i,
    {
        if matches_at(s, p, i) {
            return Some(i);
        }
        if i == s.len() {
            return None;
        }
        i += 1;
    }
    None
}

/// Whether `p` stands somewhere in `s`.
pub fn has(s: &[char], p: &[char]) -> (r: bool)
    ensures
        r == contains(s@, p@),
{
    match find_from(s, p, 0) {
        Some(i) => {
            assert(occurs_at(s@, p@, i as int));
            true
        },
        None => {
            assert(forall|j: int| occurs_at(s@, p@, j) ==> 0 <= j);
            false
        },
    }
}

/// A pattern stands in the rest of a text where it stands in the text itself.
pub proof fn lemma_occurs_in_rest(s: Seq<char>, p: Seq<char>, start: int, i: int)
    requires
        0 <= start <= s.len(),
        0 <= i,
    ensures
        occurs_at(s.subrange(start, s.len() as int), p, i) == occurs_at(s, p, start + i),
{
    let rest = s.subrange(start, s.len() as int);
    if i + p.len() <= rest.len() {
        assert(rest.subrange(i, i + p.len()) == s.subrange(start + i, start + i + p.len()));
    }
}

/// How `pieces` goes on behind an occurrence that was found by its position.
proof fn lemma_pieces_step(s: Seq<char>, sep: Seq<char>, start: int, i: int)
    requires
        sep.len() > 0,
        0 <= start <= i,
        occurs_at(s, sep, i),
        forall|j: int| start <= j < i ==> !occurs_at(s, sep, j),
    ensures
        pieces(s.subrange(start, s.len() as int), sep) == seq![s.subrange(start, i)] + pieces(
            s.subrange(i + sep.len(), s.len() as int),
            sep,
        ),
{
    let rest = s.subrange(start, s.len() as int);
    assert forall|j: int| 0 <= j < i - start implies !occurs_at(rest, sep, j) by {
        lemma_occurs_in_rest(s, sep, start, j);
        assert(!occurs_at(s, sep, start + j));
    }
    lemma_occurs_in_rest(s, sep, start, i - start);
    assert(first_at(rest, sep, i - start));
    lemma_position(rest, sep);
    assert(rest.subrange(0, i - start) == s.subrange(start, i));
    assert(after(rest, sep) == s.subrange(i + sep.len(), s.len() as int));
}

/// The parts of `s` between the occurrences of `sep`.
pub fn split<'a>(s: &'a [char], sep: &[char]) -> (r: Vec<&'a [char]>)
    requires
        sep@.len() > 0,
    ensures
        texts(r@) == pieces(s@, sep@),
{
    let mut parts: Vec<&'a [char]> = Vec::new();
    let mut start: usize = 0;
    assert(s@.subrange(0, s@.len() as int) == s@);
    assert(texts(parts@) + pieces(s@, sep@) == pieces(s@, sep@));
    loop
        invariant
            sep@.len() > 0,
            start <= s.len(),
            texts(parts@) + pieces(s@.subrange(start as int, s@.len() as int), sep@) == pieces(
                s@,
                sep@,
            ),
        decreases s.len() - start,
    {
        let ghost before = texts(parts@);
        match find_from(s, sep, start) {
            Some(i) => {
                parts.push(slice_subrange(s, start, i));
                proof {
                    lemma_pieces_step(s@, sep@, start as int, i as int);
                    assert(texts(parts@) == before.push(s@.subrange(start as int, i as int)));
                    assert(texts(parts@) + pieces(
                        s@.subrange(i + sep@.len(), s@.len() as int),
                        sep@,
                    ) == before + (seq![s@.subrange(start as int, i as int)] + pieces(
                        s@.subrange(i + sep@.len(), s@.len() as int),
                        sep@,
                    )));
                }
                start = i + sep.len();
            },
            None => {
                parts.push(slice_subrange(s, start, s.len()));
                proof {
                    let rest = s@.subrange(start as int, s@.len() as int);
                    assert forall|j: int| !occurs_at(rest, sep@, j) by {
                        if 0 <= j {
                            lemma_occurs_in_rest(s@, sep@, start as int, j);
                        }
                    }
                    assert(pieces(rest, sep@) == seq![rest]);
                    assert(texts(parts@) == before + seq![rest]);
                }
                return parts;
            },
        }
    }
}

/// `join` with one more part at the end.
pub proof fn lemma_join_push(parts: Seq<Seq<char>>, sep: Seq<char>, last: Seq<char>)
    requires
        parts.len() > 0,
    ensures
        join(parts.push(last), sep) == join(parts, sep) + sep + last,
    decreases parts.len(),
{
    let more = parts.push(last);
    assert(more.drop_first() == parts.drop_first().push(last));
    assert(join(more, sep) == parts[0] + sep + join(more.drop_first(), sep));
    if parts.len() == 1 {
        assert(join(more.drop_first(), sep) == last);
    } else {
        lemma_join_push(parts.drop_first(), sep, last);
        let inner = join(parts.drop_first(), sep);
        assert(parts[0] + sep + (inner + sep + last) == (parts[0] + sep + inner) + sep + last);
    }
}

/// The parts one behind the other, with `sep` between each two.
pub fn join_with(parts: &Vec<&[char]>, sep: &[char]) -> (r: Vec<char>)
    ensures
        r@ == join(texts(parts@), sep@),
{
    let mut r: Vec<char> = Vec::new();
    let mut i: usize = 0;
    while i < parts.len()
        invariant
            i <= parts.len(),
            r@ == join(texts(parts@).take(i as int), sep@),
        decreases parts.len() - i,
    {
        proof {
            let done = texts(parts@).take(i as int);
            assert(texts(parts@).take(i + 1) == done.push(parts@[i as int]@));
            if i > 0 {
                lemma_join_push(done, sep@, parts@[i as int]@);
            }
        }
        if i > 0 {
            r.extend_from_slice(sep);
        }
        r.extend_from_slice(parts[i]);
        i += 1;
    }
    assert(texts(parts@).take(i as int) == texts(parts@));
    r
}

/// `s` with each occurrence of `from` turned into `to`.
pub fn replace(s: &[char], from: &[char], to: &[char]) -> (r: Vec<char>)
    requires
        from@.len() > 0,
    ensures
        r@ == replaced(s@, from@, to@),
{
    let parts = split(s, from);
    join_with(&parts, to)
}

/// Splitting a text and joining the parts again by the separator gives the text
/// back.
pub proof fn law_join_undoes_split(s: Seq<char>, sep: Seq<char>)
    ensures
        join(pieces(s, sep), sep) == s,
    decreases s.len(),
{
    if sep.len() > 0 && contains(s, sep) {
        lemma_position(s, sep);
        law_join_undoes_split(after(s, sep), sep);
        let head = s.subrange(0, position(s, sep));
        let tail = pieces(after(s, sep), sep);
        assert(pieces(s, sep).drop_first() == tail);
        assert(tail.len() > 0);
        assert(s == head + sep + after(s, sep)) by {
            let i = position(s, sep);
            assert(s.subrange(i, i + sep.len()) == sep);
            assert(s == s.subrange(0, i) + s.subrange(i, i + sep.len()) + after(s, sep));
        }
    }
}

/// No part of a split text holds the separator.
pub proof fn law_split_leaves_no_separator(s: Seq<char>, sep: Seq<char>, k: int)
    requires
        sep.len() > 0,
        0 <= k < pieces(s, sep).len(),
    ensures
        !contains(pieces(s, sep)[k], sep),
    decreases s.len(),
{
    if contains(s, sep) {
        lemma_position(s, sep);
        let i = position(s, sep);
        if k == 0 {
            let head = s.subrange(0, i);
            assert forall|j: int| !occurs_at(head, sep, j) by {
                if occurs_at(head, sep, j) {
                    assert(head.subrange(j, j + sep.len()) == s.subrange(j, j + sep.len()));
                    assert(occurs_at(s, sep, j));
                }
            }
        } else {
            law_split_leaves_no_separator(after(s, sep), sep, k - 1);
        }
    }
}

/// A single character that is not among those of a text does not occur in it.
pub proof fn lemma_without_char(s: Seq<char>, p: Seq<char>)
    requires
        p.len() == 1,
        forall|i: int| 0 <= i < s.len() ==> s[i] != p[0],
    ensures
        !contains(s, p),
{
    assert forall|i: int| !occurs_at(s, p, i) by {
        if occurs_at(s, p, i) {
            assert(s.subrange(i, i + 1)[0] == s[i]);
        }
    }
}

/// What stands in a part of a split text stands in the text.
pub proof fn lemma_piece_within(s: Seq<char>, sep: Seq<char>, k: int, p: Seq<char>)
    requires
        0 <= k < pieces(s, sep).len(),
        contains(pieces(s, sep)[k], p),
    ensures
        contains(s, p),
    decreases s.len(),
{
    if sep.len() > 0 && contains(s, sep) {
        lemma_position(s, sep);
        let i = position(s, sep);
        if k == 0 {
            let head = s.subrange(0, i);
            let j = choose|j: int| occurs_at(head, p, j);
            assert(head.subrange(j, j + p.len()) == s.subrange(j, j + p.len()));
            assert(occurs_at(s, p, j));
        } else {
            let rest = after(s, sep);
            lemma_piece_within(rest, sep, k - 1, p);
            let j = choose|j: int| occurs_at(rest, p, j);
            lemma_occurs_in_rest(s, p, i + sep.len(), j);
        }
    }
}

/// No end of `p` is also its start, other than `p` itself: two occurrences of `p`
/// cannot overlap.
pub open spec fn unbordered(p: Seq<char>) -> bool {
    forall|k: int|
        0 < k < p.len() ==> #[trigger] p.subrange(k, p.len() as int) != p.subrange(
            0,
            p.len() - k,
        )
}

/// A separator that cannot overlap itself cuts a text wherever it stands.
pub proof fn lemma_pieces_concat(a: Seq<char>, sep: Seq<char>, b: Seq<char>)
    requires
        sep.len() > 0,
        unbordered(sep),
    ensures
        pieces(a + sep + b, sep) == pieces(a, sep) + pieces(b, sep),
    decreases a.len(),
{
    let t = a + sep + b;
    let n = sep.len() as int;
    if contains(a, sep) {
        lemma_position(a, sep);
        let i = position(a, sep);
        assert(t.subrange(i, i + n) == a.subrange(i, i + n));
        assert forall|j: int| 0 <= j < i implies !occurs_at(t, sep, j) by {
            assert(t.subrange(j, j + n) == a.subrange(j, j + n));
            assert(!occurs_at(a, sep, j));
        }
        assert(first_at(t, sep, i));
        lemma_position(t, sep);
        lemma_pieces_concat(after(a, sep), sep, b);
        assert(after(t, sep) == after(a, sep) + sep + b);
        assert(t.subrange(0, i) == a.subrange(0, i));
        assert(pieces(t, sep) == seq![a.subrange(0, i)] + (pieces(after(a, sep), sep) + pieces(
            b,
            sep,
        )));
    } else {
        let i = a.len() as int;
        assert(t.subrange(i, i + n) == sep);
        assert forall|j: int| 0 <= j < i implies !occurs_at(t, sep, j) by {
            if occurs_at(t, sep, j) {
                if j + n <= i {
                    assert(t.subrange(j, j + n) == a.subrange(j, j + n));
                    assert(occurs_at(a, sep, j));
                } else {
                    let k = i - j;
                    assert forall|m: int| 0 <= m < n - k implies #[trigger] sep[k + m] == sep[m] by {
                        assert(t.subrange(j, j + n)[k + m] == t[i + m]);
                        assert(t.subrange(i, i + n)[m] == t[i + m]);
                    }
                    assert(sep.subrange(k, n) == sep.subrange(0, n - k));
                }
            }
        }
        assert(first_at(t, sep, i));
        lemma_position(t, sep);
        assert(after(t, sep) == b);
        assert(t.subrange(0, i) == a);
    }
}

/// A text in front in which no separator begins belongs to the first part.
pub proof fn lemma_pieces_prefix(x: Seq<char>, s: Seq<char>, sep: Seq<char>)
    requires
        sep.len() > 0,
        forall|i: int| 0 <= i < x.len() ==> !occurs_at(x + s, sep, i),
    ensures
        pieces(s, sep).len() > 0,
        pieces(x + s, sep) == seq![x + pieces(s, sep)[0]] + pieces(s, sep).drop_first(),
{
    let t = x + s;
    let n = x.len() as int;
    assert(t.subrange(n, t.len() as int) == s);
    if contains(s, sep) {
        lemma_position(s, sep);
        let i = position(s, sep);
        lemma_occurs_in_rest(t, sep, n, i);
        assert forall|j: int| 0 <= j < n + i implies !occurs_at(t, sep, j) by {
            if n <= j {
                lemma_occurs_in_rest(t, sep, n, j - n);
                assert(!occurs_at(s, sep, j - n));
            }
        }
        assert(first_at(t, sep, n + i));
        lemma_position(t, sep);
        assert(after(t, sep) == after(s, sep));
        assert(t.subrange(0, n + i) == x + s.subrange(0, i));
        assert(pieces(s, sep).drop_first() == pieces(after(s, sep), sep));
    } else {
        assert forall|j: int| !occurs_at(t, sep, j) by {
            if n <= j {
                lemma_occurs_in_rest(t, sep, n, j - n);
                assert(!occurs_at(s, sep, j - n));
            }
        }
        assert(pieces(s, sep).drop_first() == Seq::<Seq<char>>::empty());
    }
}

/// `join` of two lists of parts.
pub proof fn lemma_join_concat(a: Seq<Seq<char>>, b: Seq<Seq<char>>, sep: Seq<char>)
    requires
        a.len() > 0,
        b.len() > 0,
    ensures
        join(a + b, sep) == join(a, sep) + sep + join(b, sep),
    decreases a.len(),
{
    let all = a + b;
    assert(all.drop_first() == a.drop_first() + b);
    if a.len() == 1 {
        assert(all.drop_first() == b);
    } else {
        lemma_join_concat(a.drop_first(), b, sep);
        let inner = join(a.drop_first(), sep);
        assert(a[0] + sep + (inner + sep + join(b, sep)) == (a[0] + sep + inner) + sep + join(
            b,
            sep,
        ));
    }
}

/// A pattern that cannot overlap itself is replaced wherever it stands.
pub proof fn law_replace_at(a: Seq<char>, from: Seq<char>, b: Seq<char>, to: Seq<char>)
    requires
        from.len() > 0,
        unbordered(from),
    ensures
        replaced(a + from + b, from, to) == replaced(a, from, to) + to + replaced(b, from, to),
{
    lemma_pieces_concat(a, from, b);
    assert(pieces(a, from).len() > 0);
    assert(pieces(b, from).len() > 0);
    lemma_join_concat(pieces(a, from), pieces(b, from), to);
}

/// A replacement that is as long as what it replaces does not change the length.
pub proof fn lemma_replaced_len(s: Seq<char>, from: Seq<char>, to: Seq<char>)
    requires
        from.len() == to.len(),
    ensures
        replaced(s, from, to).len() == s.len(),
    decreases s.len(),
{
    if from.len() > 0 && contains(s, from) {
        lemma_position(s, from);
        lemma_replaced_len(after(s, from), from, to);
        assert(pieces(s, from).drop_first() == pieces(after(s, from), from));
    }
}

/// A text in which `from` does not stand is left as it is.
pub proof fn law_replace_keeps_text_without_pattern(s: Seq<char>, from: Seq<char>, to: Seq<char>)
    requires
        !contains(s, from),
    ensures
        replaced(s, from, to) == s,
{
}

/// `s` without the run of `c` at its start.
pub fn trim_start(s: &[char], c: char) -> (r: &[char])
    ensures
        r@ == trimmed_start(s@, c),
{
    let mut i: usize = 0;
    assert(s@.skip(0) == s@);
    while i < s.len() && s[i] == c
        invariant
            i <= s.len(),
            trimmed_start(s@.skip(i as int), c) == trimmed_start(s@, c),
        decreases s.len() - i,
    {
        assert(s@.skip(i as int).drop_first() == s@.skip(i + 1));
        i += 1;
    }
    slice_subrange(s, i, s.len())
}

/// `s` without the run of `c` at its end.
pub fn trim_end(s: &[char], c: char) -> (r: &[char])
    ensures
        r@ == trimmed_end(s@, c),
{
    let mut n: usize = s.len();
    assert(s@.take(n as int) == s@);
    while n > 0 && s[n - 1] == c
        invariant
            n <= s.len(),
            trimmed_end(s@.take(n as int), c) == trimmed_end(s@, c),
        decreases n,
    {
        assert(s@.take(n as int).drop_last() == s@.take(n - 1));
        n -= 1;
    }
    slice_subrange(s, 0, n)
}

/// A text with `p` inside holds `p` there.
pub proof fn law_text_holds_its_middle(a: Seq<char>, p: Seq<char>, b: Seq<char>)
    ensures
        occurs_at(a + p + b, p, a.len() as int),
        contains(a + p + b, p),
{
    assert((a + p + b).subrange(a.len() as int, (a.len() + p.len()) as int) == p);
    assert(occurs_at(a + p + b, p, a.len() as int));
}

/// Where `p` stands in a text, the text is what is in front of it, `p` itself, and
/// what is behind it.
pub proof fn law_occurrence_divides_text(s: Seq<char>, p: Seq<char>, i: int)
    requires
        occurs_at(s, p, i),
    ensures
        0 <= i,
        i + p.len() <= s.len(),
        s == s.take(i) + p + s.skip(i + p.len()),
{
    assert(s == s.take(i) + s.subrange(i, i + p.len()) + s.skip(i + p.len()));
}

/// A text that holds `p` is made of `p` and of what stands around it.
pub proof fn law_contained_text_is_a_middle(s: Seq<char>, p: Seq<char>)
    requires
        contains(s, p),
    ensures
        exists|a: Seq<char>, b: Seq<char>| #[trigger] (a + p + b) == s,
{
    let i = choose|i: int| occurs_at(s, p, i);
    law_occurrence_divides_text(s, p, i);
    assert(s.take(i) + p + s.skip(i + p.len()) == s);
}

/// A text ends with `suffix` if and only if it is some text with `suffix` behind it.
pub proof fn law_end_of_text(a: Seq<char>, s: Seq<char>, suffix: Seq<char>)
    ensures
        ends_with(a + suffix, suffix),
        ends_with(s, suffix) ==> s == s.take(s.len() - suffix.len()) + suffix,
{
    assert((a + suffix).subrange(a.len() as int, (a.len() + suffix.len()) as int) == suffix);
    if ends_with(s, suffix) {
        law_occurrence_divides_text(s, suffix, s.len() - suffix.len());
    }
}

/// A text is cut at the leftmost separator, and on from behind it.
pub proof fn law_split_takes_the_leftmost(a: Seq<char>, sep: Seq<char>, b: Seq<char>)
    requires
        sep.len() > 0,
        !contains(a + sep.drop_last(), sep),
    ensures
        pieces(a + sep + b, sep) == seq![a] + pieces(b, sep),
{
    let t = a + sep + b;
    let n = sep.len() as int;
    let i = a.len() as int;
    assert(t.subrange(i, i + n) == sep);
    assert forall|j: int| 0 <= j < i implies !occurs_at(t, sep, j) by {
        if occurs_at(t, sep, j) {
            let start = a + sep.drop_last();
            assert(start.subrange(j, j + n) == t.subrange(j, j + n));
            assert(occurs_at(start, sep, j));
        }
    }
    assert(first_at(t, sep, i));
    lemma_position(t, sep);
    assert(after(t, sep) == b);
    assert(t.subrange(0, i) == a);
}

/// A text without the separator is not cut.
pub proof fn law_text_without_separator_is_one_part(s: Seq<char>, sep: Seq<char>)
    requires
        !contains(s, sep),
    ensures
        pieces(s, sep) == seq![s],
{
}

/// The parts stand in their order, with the separator between each two and nowhere else.
pub proof fn law_join_is_made_of_its_parts(
    first: Seq<char>,
    rest: Seq<Seq<char>>,
    sep: Seq<char>,
)
    ensures
        join(Seq::<Seq<char>>::empty(), sep) == Seq::<char>::empty(),
        join(seq![first], sep) == first,
        rest.len() > 0 ==> join(seq![first] + rest, sep) == first + sep + join(rest, sep),
{
    let all = seq![first] + rest;
    assert(all.drop_first() == rest);
    assert(all[0] == first);
}

/// The leftmost occurrence is replaced, and on from behind it; what was put in is not
/// looked at again.
pub proof fn law_replace_takes_the_leftmost(
    a: Seq<char>,
    from: Seq<char>,
    b: Seq<char>,
    to: Seq<char>,
)
    requires
        from.len() > 0,
        !contains(a + from.drop_last(), from),
    ensures
        replaced(a + from + b, from, to) == a + to + replaced(b, from, to),
{
    law_split_takes_the_leftmost(a, from, b);
    law_join_is_made_of_its_parts(a, pieces(b, from), to);
}

/// The run of a character at the start is left out, whatever its length, and nothing
/// else.
pub proof fn law_trim_start(s: Seq<char>, c: char, k: nat)
    requires
        s.len() == 0 || s[0] != c,
    ensures
        trimmed_start(Seq::new(k, |i: int| c) + s, c) == s,
    decreases k,
{
    let run = Seq::new(k, |i: int| c);
    if k > 0 {
        law_trim_start(s, c, (k - 1) as nat);
        assert((run + s).drop_first() == Seq::new((k - 1) as nat, |i: int| c) + s);
        assert((run + s)[0] == c);
    } else {
        assert(run + s == s);
    }
}

/// The run of a character at the end is left out, whatever its length, and nothing
/// else.
pub proof fn law_trim_end(s: Seq<char>, c: char, k: nat)
    requires
        s.len() == 0 || s.last() != c,
    ensures
        trimmed_end(s + Seq::new(k, |i: int| c), c) == s,
    decreases k,
{
    let run = Seq::new(k, |i: int| c);
    if k > 0 {
        law_trim_end(s, c, (k - 1) as nat);
        assert((s + run).drop_last() == s + Seq::new((k - 1) as nat, |i: int| c));
        assert((s + run).last() == c);
    } else {
        assert(s + run == s);
    }
}

/// The texts of a list are those of its elements, one for one.
pub proof fn law_texts_are_those_of_the_elements(
    parts: Seq<&[char]>,
    strings: Seq<String>,
    string: Option<String>,
)
    ensures
        texts(parts).len() == parts.len(),
        forall|i: int| 0 <= i < parts.len() ==> #[trigger] texts(parts)[i] == parts[i]@,
        string_texts(strings).len() == strings.len(),
        forall|i: int| 0 <= i < strings.len() ==> #[trigger] string_texts(strings)[i] == strings[i]@,
        option_text(string) is Some <==> string is Some,
        string is Some ==> option_text(string)->0 == string->0@,
{
}

} // verus!
