//! Files that are sent as they are, and kept for the next time.

use crate::pages::HTTP_OK;
use crate::server::{ServerState, WebServer};
use crate::text::{option_text, string_texts};
use crate::utf8::{decode, lemma_encode_concat};
use vstd::prelude::*;
use vstd::slice::slice_subrange;
use vstd::utf8::{decode_utf8, decode_utf8_encode_utf8, encode_utf8, valid_utf8};

verus! {

/// The number of bytes that are read at a time.
pub const CHUNK: usize = 1000;

/// A file that was opened.
pub struct OpenFile {
    /// The size that the file system gives, where it gives one.
    pub size: Option<u64>,
    /// The bytes that could be read.
    pub bytes: Vec<u8>,
    /// The file ends behind these bytes; otherwise the reading broke off there.
    pub ended: bool,
}

/// How the sending of a file ended.
#[derive(Clone, Copy, Debug, PartialEq, Eq, Structural)]
pub enum Delivery {
    /// All was sent.
    Complete,
    /// The file could not be opened.
    NoFile,
    /// The size of the file, or what comes next in it, could not be read.
    Unreadable,
    /// The file ended before its size was reached.
    CutShort,
    /// A chunk of the file was no text.
    NotText,
}

/// What is sent for a file.
pub struct StaticReply {
    /// The pieces that are sent, each in one go.
    pub pieces: Vec<String>,
    /// How it ends.
    pub delivery: Delivery,
    /// What is to be kept once all was sent.
    pub to_keep: Option<String>,
}

/// What is sent of the bytes of a file, of which `size` are expected: chunk by
/// chunk, as long as more than a chunk is expected, and then all that is left. It
/// ends early at a chunk that is not there or is no text.
pub open spec fn sent_of(size: nat, bytes: Seq<u8>, ended: bool) -> (Seq<Seq<char>>, Delivery)
    decreases size,
{
    if size == 0 {
        (Seq::empty(), Delivery::Complete)
    } else if size <= CHUNK {
        if !ended {
            (Seq::empty(), Delivery::Unreadable)
        } else if !valid_utf8(bytes) {
            (Seq::empty(), Delivery::NotText)
        } else {
            (seq![decode_utf8(bytes)], Delivery::Complete)
        }
    } else if bytes.len() < CHUNK {
        (
            Seq::empty(),
            if ended {
                Delivery::CutShort
            } else {
                Delivery::Unreadable
            },
        )
    } else if !valid_utf8(bytes.take(CHUNK as int)) {
        (Seq::empty(), Delivery::NotText)
    } else {
        let rest = sent_of((size - CHUNK) as nat, bytes.skip(CHUNK as int), ended);
        (seq![decode_utf8(bytes.take(CHUNK as int))] + rest.0, rest.1)
    }
}

/// What is sent of an open file behind the head.
pub open spec fn body_of(file: OpenFile) -> (Seq<Seq<char>>, Delivery) {
    match file.size {
        None => (Seq::empty(), Delivery::Unreadable),
        Some(size) => sent_of(size as nat, file.bytes@, file.ended),
    }
}

/// The pieces that are sent for a path, and how it ends. A file that was kept is
/// sent from there in one piece, without a head; another has its head as the first
/// piece.
pub open spec fn reply_to(
    cache: Map<Seq<char>, Seq<char>>,
    path: Seq<char>,
    file: Option<OpenFile>,
) -> (Seq<Seq<char>>, Delivery) {
    if cache.contains_key(path) {
        (seq![cache[path]], Delivery::Complete)
    } else {
        match file {
            None => (Seq::empty(), Delivery::NoFile),
            Some(f) => (seq![HTTP_OK@] + body_of(f).0, body_of(f).1),
        }
    }
}

/// What is to be kept of a file once it was sent: its text, unless it is kept
/// already or could not be sent to its end.
pub open spec fn to_keep_of(
    cache: Map<Seq<char>, Seq<char>>,
    path: Seq<char>,
    file: Option<OpenFile>,
) -> Option<Seq<char>> {
    match file {
        Some(f) => if !cache.contains_key(path) && body_of(f).1 == Delivery::Complete {
            Some(body_of(f).0.flatten())
        } else {
            None
        },
        None => None,
    }
}

/// The files that are kept when this one is added.
pub open spec fn kept_with(
    cache: Map<Seq<char>, Seq<char>>,
    path: Seq<char>,
    to_keep: Option<Seq<char>>,
) -> Map<Seq<char>, Seq<char>> {
    match to_keep {
        Some(contents) => cache.insert(path, contents),
        None => cache,
    }
}

/// The files that are kept after a path was answered and all was sent.
pub open spec fn kept_after(
    cache: Map<Seq<char>, Seq<char>>,
    path: Seq<char>,
    file: Option<OpenFile>,
) -> Map<Seq<char>, Seq<char>> {
    kept_with(cache, path, to_keep_of(cache, path, file))
}

/// The number of pieces in which this many bytes are sent.
pub open spec fn piece_count(n: nat) -> nat {
    (n + CHUNK - 1) as nat / CHUNK as nat
}

/// The pieces divide the bytes: each holds the bytes of one chunk, and the last
/// what is left of them, at least one and no more than a chunk.
pub open spec fn divides(pieces: Seq<Seq<char>>, bytes: Seq<u8>) -> bool {
    &&& pieces.len() == piece_count(bytes.len())
    &&& encode_utf8(pieces.flatten()) == bytes
    &&& forall|i: int|
        0 <= i < pieces.len() - 1 ==> encode_utf8(#[trigger] pieces[i]).len() == CHUNK
    &&& pieces.len() > 0 ==> 1 <= encode_utf8(pieces.last()).len() <= CHUNK
}

/// The file is as long as the file system says, and could be read to its end.
pub open spec fn intact(file: OpenFile) -> bool {
    &&& file.ended
    &&& file.size matches Some(size)
    &&& size == file.bytes@.len()
}

/// The text of the pieces, one behind the other.
fn joined(pieces: &Vec<String>) -> (r: String)
    ensures
        r@ == string_texts(pieces@).flatten(),
{
    let mut r = String::new();
    let ghost all = string_texts(pieces@);
    let mut i: usize = 0;
    assert(all.take(0).flatten() == Seq::<char>::empty());
    while i < pieces.len()
        invariant
            i <= pieces.len(),
            all == string_texts(pieces@),
            r@ == all.take(i as int).flatten(),
        decreases pieces.len() - i,
    {
        proof {
            assert(all.take(i + 1) == all.take(i as int).push(pieces@[i as int]@));
            all.take(i as int).lemma_flatten_push(pieces@[i as int]@);
        }
        r.append(&pieces[i]);
        i += 1;
    }
    assert(all.take(i as int) == all);
    r
}

/// What is sent of the bytes of a file.
fn send(size: u64, bytes: &[u8], ended: bool) -> (r: (Vec<String>, Delivery))
    ensures
        (string_texts(r.0@), r.1) == sent_of(size as nat, bytes@, ended),
{
    let mut pieces: Vec<String> = Vec::new();
    let mut length: u64 = size;
    let mut start: usize = 0;
    let ghost whole = sent_of(size as nat, bytes@, ended);
    proof {
        assert(bytes@.skip(0) == bytes@);
        assert(string_texts(pieces@) + whole.0 == whole.0);
    }
    while length > CHUNK as u64
        invariant
            start <= bytes.len(),
            whole == sent_of(size as nat, bytes@, ended),
            whole.0 == string_texts(pieces@) + sent_of(
                length as nat,
                bytes@.skip(start as int),
                ended,
            ).0,
            whole.1 == sent_of(length as nat, bytes@.skip(start as int), ended).1,
        decreases length,
    {
        let ghost left = bytes@.skip(start as int);
        let ghost before = string_texts(pieces@);
        assert(before + Seq::<Seq<char>>::empty() == before);
        if bytes.len() - start < CHUNK {
            let delivery = if ended { Delivery::CutShort } else { Delivery::Unreadable };
            return (pieces, delivery);
        }
        assert(left.take(CHUNK as int) == bytes@.subrange(start as int, start + CHUNK));
        match decode(slice_subrange(bytes, start, start + CHUNK)) {
            Some(chunk) => {
                pieces.push(chunk.to_owned());
                proof {
                    let rest = sent_of((length - CHUNK) as nat, left.skip(CHUNK as int), ended);
                    assert(left.skip(CHUNK as int) == bytes@.skip(start + CHUNK));
                    assert(string_texts(pieces@) == before + seq![chunk@]);
                    assert(before + (seq![chunk@] + rest.0) == (before + seq![chunk@]) + rest.0);
                }
            },
            None => {
                return (pieces, Delivery::NotText);
            },
        }
        length -= CHUNK as u64;
        start += CHUNK;
    }
    let ghost before = string_texts(pieces@);
    assert(before + Seq::<Seq<char>>::empty() == before);
    if length > 0 {
        if !ended {
            return (pieces, Delivery::Unreadable);
        }
        assert(bytes@.skip(start as int) == bytes@.subrange(start as int, bytes@.len() as int));
        match decode(slice_subrange(bytes, start, bytes.len())) {
            Some(chunk) => {
                pieces.push(chunk.to_owned());
                assert(string_texts(pieces@) == before + seq![chunk@]);
            },
            None => {
                return (pieces, Delivery::NotText);
            },
        }
    }
    (pieces, Delivery::Complete)
}

impl WebServer {
    /// Whether the file at the path is kept, so that it need not be opened.
    pub fn is_kept(&self, path: &str) -> (r: bool)
        ensures
            r == self@.cache.contains_key(path@),
    {
        self.cache.contains_key(path)
    }

    /// Answers a request for the file at the path. `file` is the file, where it could
    /// be opened; it plays no part where the file is kept. Nothing is kept before all
    /// was sent: see `keep_file`.
    pub fn respond_with_static_file(&self, path: &str, file: &Option<OpenFile>) -> (r: StaticReply)
        ensures
            (string_texts(r.pieces@), r.delivery) == reply_to(self@.cache, path@, *file),
            option_text(r.to_keep) == to_keep_of(self@.cache, path@, *file),
            // A file that is sent to its end goes out as the head and then in chunks.
            !self@.cache.contains_key(path@) && file is Some && intact(file->0) && r.delivery
                == Delivery::Complete ==> {
                &&& r.pieces@.len() > 0
                &&& r.pieces@[0]@ == HTTP_OK@
                &&& divides(string_texts(r.pieces@).skip(1), file->0.bytes@)
            },
    {
        let mut pieces: Vec<String> = Vec::new();
        assert(string_texts(pieces@) == Seq::<Seq<char>>::empty());
        match self.cache.get(path) {
            Some(contents) => {
                pieces.push(contents.clone());
                assert(string_texts(pieces@) == seq![self@.cache[path@]]);
                return StaticReply { pieces, delivery: Delivery::Complete, to_keep: None };
            },
            None => {},
        }
        let f = match file {
            None => return StaticReply { pieces, delivery: Delivery::NoFile, to_keep: None },
            Some(f) => f,
        };
        pieces.push(HTTP_OK.to_owned());
        assert(string_texts(pieces@) == seq![HTTP_OK@]);
        let size = match f.size {
            None => {
                assert(seq![HTTP_OK@] + Seq::<Seq<char>>::empty() == seq![HTTP_OK@]);
                return StaticReply { pieces, delivery: Delivery::Unreadable, to_keep: None };
            },
            Some(size) => size,
        };
        let (mut body, delivery) = send(size, &f.bytes, f.ended);
        let ghost sent = string_texts(body@);
        let mut to_keep: Option<String> = None;
        if let Delivery::Complete = delivery {
            to_keep = Some(joined(&body));
            proof {
                if intact(*f) {
                    law_intact_file_is_divided(f.bytes@);
                }
            }
        }
        pieces.append(&mut body);
        proof {
            assert(string_texts(pieces@) == seq![HTTP_OK@] + sent);
            assert(string_texts(pieces@).skip(1) == sent);
            assert(string_texts(pieces@)[0] == pieces@[0]@);
        }
        StaticReply { pieces, delivery, to_keep }
    }

    /// Keeps what a reply has to keep for the path, once all of it was sent.
    pub fn keep_file(&mut self, path: &str, reply: StaticReply)
        ensures
            final(self)@ == (ServerState {
                cache: kept_with(old(self)@.cache, path@, option_text(reply.to_keep)),
                ..old(self)@
            }),
    {
        if let Some(contents) = reply.to_keep {
            self.cache.insert(path.to_owned(), contents);
            assert(self@.cache == old(self)@.cache.insert(path@, contents@));
        }
    }
}

/// The text of one piece and those behind it.
proof fn lemma_flatten_first(piece: Seq<char>, rest: Seq<Seq<char>>)
    ensures
        (seq![piece] + rest).flatten() == piece + rest.flatten(),
{
    let all = seq![piece] + rest;
    assert(all.drop_first() == rest);
    assert(all.first() == piece);
}

/// A file that was sent to its end was sent as it is: the bytes on the wire are
/// those of the file. (Nothing is read of a file whose size is given as zero.)
pub proof fn law_complete_delivery_is_the_file(size: nat, bytes: Seq<u8>, ended: bool)
    requires
        size > 0,
        sent_of(size, bytes, ended).1 == Delivery::Complete,
    ensures
        encode_utf8(sent_of(size, bytes, ended).0.flatten()) == bytes,
    decreases size,
{
    let none = Seq::<Seq<char>>::empty();
    if size <= CHUNK {
        decode_utf8_encode_utf8(bytes);
        lemma_flatten_first(decode_utf8(bytes), none);
        assert(seq![decode_utf8(bytes)] + none == seq![decode_utf8(bytes)]);
        assert(decode_utf8(bytes) + none.flatten() == decode_utf8(bytes));
    } else {
        let first = bytes.take(CHUNK as int);
        let rest = bytes.skip(CHUNK as int);
        let tail = sent_of((size - CHUNK) as nat, rest, ended).0;
        law_complete_delivery_is_the_file((size - CHUNK) as nat, rest, ended);
        decode_utf8_encode_utf8(first);
        lemma_flatten_first(decode_utf8(first), tail);
        lemma_encode_concat(decode_utf8(first), tail.flatten());
        assert(first + rest == bytes);
    }
}

/// What was sent of a file when it ended early is the start of the file, in whole
/// chunks.
pub proof fn law_partial_delivery_is_a_start_of_the_file(size: nat, bytes: Seq<u8>, ended: bool)
    requires
        sent_of(size, bytes, ended).1 != Delivery::Complete,
    ensures
        ({
            let pieces = sent_of(size, bytes, ended).0;
            let sent = encode_utf8(pieces.flatten());
            &&& sent.len() == CHUNK * pieces.len()
            &&& sent.len() <= bytes.len()
            &&& sent == bytes.take(sent.len() as int)
            &&& forall|i: int|
                0 <= i < pieces.len() ==> encode_utf8(#[trigger] pieces[i]).len() == CHUNK
        }),
    decreases size,
{
    let pieces = sent_of(size, bytes, ended).0;
    if size > CHUNK && bytes.len() >= CHUNK && valid_utf8(bytes.take(CHUNK as int)) {
        let first = bytes.take(CHUNK as int);
        let rest = bytes.skip(CHUNK as int);
        let tail = sent_of((size - CHUNK) as nat, rest, ended).0;
        law_partial_delivery_is_a_start_of_the_file((size - CHUNK) as nat, rest, ended);
        decode_utf8_encode_utf8(first);
        lemma_flatten_first(decode_utf8(first), tail);
        lemma_encode_concat(decode_utf8(first), tail.flatten());
        let sent = first + encode_utf8(tail.flatten());
        assert(sent == bytes.take(sent.len() as int));
        assert forall|i: int| 0 <= i < pieces.len() implies encode_utf8(
            #[trigger] pieces[i],
        ).len() == CHUNK by {
            if i > 0 {
                assert(pieces[i] == tail[i - 1]);
            }
        }
    } else {
        assert(pieces.flatten() == Seq::<char>::empty());
        assert(encode_utf8(Seq::<char>::empty()) == Seq::<u8>::empty());
        assert(bytes.take(0) == Seq::<u8>::empty());
    }
}

/// A file of the size that the file system says is sent, if it is sent to its end,
/// in pieces of one chunk, the last one with what is left.
pub proof fn law_intact_file_is_divided(bytes: Seq<u8>)
    requires
        sent_of(bytes.len(), bytes, true).1 == Delivery::Complete,
    ensures
        divides(sent_of(bytes.len(), bytes, true).0, bytes),
    decreases bytes.len(),
{
    let n = bytes.len();
    let pieces = sent_of(n, bytes, true).0;
    if n == 0 {
        assert(pieces.flatten() == Seq::<char>::empty());
        assert(encode_utf8(Seq::<char>::empty()) == bytes);
    } else if n <= CHUNK {
        law_complete_delivery_is_the_file(n, bytes, true);
        decode_utf8_encode_utf8(bytes);
    } else {
        law_complete_delivery_is_the_file(n, bytes, true);
        let first = bytes.take(CHUNK as int);
        let rest = bytes.skip(CHUNK as int);
        let tail = sent_of((n - CHUNK) as nat, rest, true).0;
        law_intact_file_is_divided(rest);
        decode_utf8_encode_utf8(first);
        assert(tail.len() > 0);
        assert(pieces.last() == tail.last());
        assert forall|i: int| 0 <= i < pieces.len() - 1 implies encode_utf8(
            #[trigger] pieces[i],
        ).len() == CHUNK by {
            if i > 0 {
                assert(pieces[i] == tail[i - 1]);
            }
        }
    }
}

/// A file that could be read to its end and is at least as long as its size says is
/// never cut short.
pub proof fn law_long_enough_file_is_not_cut_short(size: nat, bytes: Seq<u8>)
    requires
        size <= bytes.len(),
    ensures
        sent_of(size, bytes, true).1 == Delivery::Complete || sent_of(size, bytes, true).1
            == Delivery::NotText,
    decreases size,
{
    if size > CHUNK {
        law_long_enough_file_is_not_cut_short((size - CHUNK) as nat, bytes.skip(CHUNK as int));
    }
}

proof fn lemma_ascii_is_text(bytes: Seq<u8>)
    requires
        forall|i: int| 0 <= i < bytes.len() ==> #[trigger] bytes[i] < 0x80,
    ensures
        valid_utf8(bytes),
    decreases bytes.len(),
{
    if bytes.len() > 0 {
        let b = bytes[0];
        assert(b < 0x80);
        assert((b & 0x7f) < 0x80) by (bit_vector);
        assert(vstd::utf8::valid_first_scalar(bytes));
        let rest = vstd::utf8::pop_first_scalar(bytes);
        assert(rest == bytes.skip(1));
        lemma_ascii_is_text(rest);
    }
}

proof fn lemma_ascii_is_complete(bytes: Seq<u8>)
    requires
        forall|i: int| 0 <= i < bytes.len() ==> #[trigger] bytes[i] < 0x80,
    ensures
        sent_of(bytes.len(), bytes, true).1 == Delivery::Complete,
    decreases bytes.len(),
{
    if bytes.len() > CHUNK {
        lemma_ascii_is_text(bytes.take(CHUNK as int));
        lemma_ascii_is_complete(bytes.skip(CHUNK as int));
    } else if bytes.len() > 0 {
        lemma_ascii_is_text(bytes);
    }
}

/// A file of ASCII characters that is not kept yet is sent whole: first the head,
/// then the file in chunks.
pub proof fn law_ascii_file_is_delivered(
    cache: Map<Seq<char>, Seq<char>>,
    path: Seq<char>,
    file: OpenFile,
)
    requires
        !cache.contains_key(path),
        intact(file),
        forall|i: int| 0 <= i < file.bytes@.len() ==> #[trigger] file.bytes@[i] < 0x80,
    ensures
        ({
            let reply = reply_to(cache, path, Some(file));
            &&& reply.1 == Delivery::Complete
            &&& reply.0.len() == 1 + piece_count(file.bytes@.len())
            &&& reply.0[0] == HTTP_OK@
            &&& divides(reply.0.skip(1), file.bytes@)
        }),
{
    lemma_ascii_is_complete(file.bytes@);
    law_intact_file_is_divided(file.bytes@);
    let reply = reply_to(cache, path, Some(file));
    assert(reply.0.skip(1) == body_of(file).0);
}

/// A file that was sent to its end is sent again from what was kept, whatever has
/// become of the file: the same text, this time without the head and in one piece.
pub proof fn law_second_request_gets_what_was_kept(
    cache: Map<Seq<char>, Seq<char>>,
    path: Seq<char>,
    file: Option<OpenFile>,
    later: Option<OpenFile>,
)
    requires
        !cache.contains_key(path),
        reply_to(cache, path, file).1 == Delivery::Complete,
    ensures
        ({
            let kept = kept_after(cache, path, file);
            let again = reply_to(kept, path, later);
            &&& again.1 == Delivery::Complete
            &&& again.0.len() == 1
            &&& reply_to(cache, path, file).0.flatten() == HTTP_OK@ + again.0[0]
            &&& kept_after(kept, path, later) == kept
        }),
{
    lemma_flatten_first(HTTP_OK@, body_of(file->0).0);
}

/// Answering one path changes nothing of what is kept for another.
pub proof fn law_other_files_stay_kept(
    cache: Map<Seq<char>, Seq<char>>,
    path: Seq<char>,
    file: Option<OpenFile>,
    other: Seq<char>,
)
    requires
        other != path || cache.contains_key(path),
    ensures
        kept_after(cache, path, file).contains_key(other) == cache.contains_key(other),
        cache.contains_key(other) ==> kept_after(cache, path, file)[other] == cache[other],
{
}

/// A file whose sending failed is not kept.
pub proof fn law_failed_file_is_not_kept(
    cache: Map<Seq<char>, Seq<char>>,
    path: Seq<char>,
    file: Option<OpenFile>,
)
    requires
        reply_to(cache, path, file).1 != Delivery::Complete,
    ensures
        kept_after(cache, path, file) == cache,
{
}

/// The chunk of a thousand bytes with this number.
pub open spec fn chunk(bytes: Seq<u8>, k: int) -> Seq<u8> {
    bytes.subrange(1000 * k, 1000 * k + 1000)
}

proof fn lemma_chunk_of_rest(bytes: Seq<u8>, k: int)
    requires
        k >= 0,
        1000 * k + 2000 <= bytes.len(),
    ensures
        chunk(bytes.skip(1000), k) == chunk(bytes, k + 1),
{
    assert(chunk(bytes.skip(1000), k) == chunk(bytes, k + 1));
}

/// What is sent of a file of which `size` bytes are expected: the chunks of a thousand
/// bytes, as many as leave at least one byte of the size, and then all that is left. It
/// goes on exactly as long as the chunks are there and are text, and comes to its end
/// exactly where all of them are and the reading did not break off.
pub proof fn law_chunks_are_sent_as_long_as_they_are_text(size: nat, bytes: Seq<u8>, ended: bool)
    requires
        size > 0,
    ensures
        ({
            let full = (size - 1) / 1000;
            let (pieces, delivery) = sent_of(size, bytes, ended);
            let n = pieces.len() as int;
            &&& delivery == Delivery::Complete <==> {
                &&& ended
                &&& 1000 * full <= bytes.len()
                &&& forall|k: int| 0 <= k < full ==> valid_utf8(#[trigger] chunk(bytes, k))
                &&& valid_utf8(bytes.skip(1000 * full))
            }
            &&& delivery == Delivery::Complete ==> {
                &&& n == full + 1
                &&& pieces[full] == decode_utf8(bytes.skip(1000 * full))
            }
            &&& delivery != Delivery::Complete ==> n <= full
            &&& 0 < n && n <= full ==> 1000 * n <= bytes.len()
            &&& forall|k: int|
                #![trigger pieces[k]]
                #![trigger chunk(bytes, k)]
                0 <= k < n && k < full ==> {
                    &&& 1000 * k + 1000 <= bytes.len()
                    &&& valid_utf8(chunk(bytes, k))
                    &&& pieces[k] == decode_utf8(chunk(bytes, k))
                }
            &&& delivery == Delivery::NotText <==> {
                ||| n < full && 1000 * n + 1000 <= bytes.len() && !valid_utf8(chunk(bytes, n))
                ||| n == full && ended && !valid_utf8(bytes.skip(1000 * full))
            }
            &&& delivery == Delivery::CutShort <==> n < full && bytes.len() < 1000 * n + 1000
                && ended
            &&& delivery == Delivery::Unreadable <==> {
                ||| n < full && bytes.len() < 1000 * n + 1000 && !ended
                ||| n == full && !ended
            }
        }),
    decreases size,
{
    let full = (size - 1) / 1000;
    let (pieces, delivery) = sent_of(size, bytes, ended);
    if size <= 1000 {
        assert(bytes.skip(0) == bytes);
    } else if bytes.len() < 1000 {
    } else {
        assert(chunk(bytes, 0) == bytes.take(1000));
        if valid_utf8(bytes.take(1000)) {
            let rest = bytes.skip(1000);
            let less = (size - 1000) as nat;
            law_chunks_are_sent_as_long_as_they_are_text(less, rest, ended);
            let (tail, _) = sent_of(less, rest, ended);
            assert((less - 1) / 1000 == full - 1);
            assert forall|k: int|
                #![trigger pieces[k]]
                #![trigger chunk(bytes, k)]
                0 <= k < pieces.len() && k < full implies {
                &&& 1000 * k + 1000 <= bytes.len()
                &&& valid_utf8(chunk(bytes, k))
                &&& pieces[k] == decode_utf8(chunk(bytes, k))
            } by {
                if k > 0 {
                    assert(pieces[k] == tail[k - 1]);
                    lemma_chunk_of_rest(bytes, k - 1);
                }
            }
            let n = tail.len() as int;
            if n < full - 1 && 1000 * n + 2000 <= bytes.len() {
                lemma_chunk_of_rest(bytes, n);
            }
            if 1000 * full <= bytes.len() {
                assert(rest.skip(1000 * (full - 1)) == bytes.skip(1000 * full));
                assert forall|k: int| 0 <= k < full - 1 implies chunk(bytes, k + 1)
                    == #[trigger] chunk(rest, k) by {
                    lemma_chunk_of_rest(bytes, k);
                }
                if forall|k: int| 0 <= k < full ==> valid_utf8(#[trigger] chunk(bytes, k)) {
                    assert forall|k: int| 0 <= k < full - 1 implies valid_utf8(
                        #[trigger] chunk(rest, k),
                    ) by {
                        assert(valid_utf8(chunk(bytes, k + 1)));
                    }
                }
                if forall|k: int| 0 <= k < full - 1 ==> valid_utf8(#[trigger] chunk(rest, k)) {
                    assert forall|k: int| 0 <= k < full implies valid_utf8(
                        #[trigger] chunk(bytes, k),
                    ) by {
                        if k > 0 {
                            assert(valid_utf8(chunk(rest, k - 1)));
                        }
                    }
                }
            }
        } else {
            assert(!valid_utf8(chunk(bytes, 0)));
        }
    }
}

/// A file whose size is given as zero is sent as nothing.
pub proof fn law_empty_file_is_sent_as_nothing(bytes: Seq<u8>, ended: bool)
    ensures
        sent_of(0, bytes, ended) == (Seq::<Seq<char>>::empty(), Delivery::Complete),
{
}

proof fn lemma_texts_are_sent(texts: Seq<Seq<char>>)
    requires
        forall|i: int| 0 <= i < texts.len() - 1 ==> encode_utf8(#[trigger] texts[i]).len() == 1000,
        texts.len() > 0 ==> 1 <= encode_utf8(texts.last()).len() <= 1000,
    ensures
        ({
            let bytes = encode_utf8(texts.flatten());
            sent_of(bytes.len(), bytes, true) == (texts, Delivery::Complete)
        }),
    decreases texts.len(),
{
    let bytes = encode_utf8(texts.flatten());
    if texts.len() == 0 {
        assert(texts.flatten() == Seq::<char>::empty());
        assert(bytes == Seq::<u8>::empty());
        assert(texts == Seq::<Seq<char>>::empty());
    } else {
        let first = texts[0];
        let rest = texts.drop_first();
        assert(texts == seq![first] + rest);
        lemma_flatten_first(first, rest);
        lemma_encode_concat(first, rest.flatten());
        vstd::utf8::encode_utf8_valid_utf8(first);
        vstd::utf8::encode_utf8_decode_utf8(first);
        assert forall|i: int| 0 <= i < rest.len() - 1 implies encode_utf8(
            #[trigger] rest[i],
        ).len() == 1000 by {
            assert(rest[i] == texts[i + 1]);
        }
        if rest.len() > 0 {
            assert(rest.last() == texts.last());
        }
        lemma_texts_are_sent(rest);
        let head = encode_utf8(first);
        let more = encode_utf8(rest.flatten());
        assert(bytes == head + more);
        if rest.len() == 0 {
            assert(texts.last() == first);
            assert(rest.flatten() == Seq::<char>::empty());
            assert(more == Seq::<u8>::empty());
            assert(bytes == head);
            assert(texts == seq![first]);
        } else {
            assert(head.len() == 1000);
            lemma_rest_is_not_empty(rest);
            assert(bytes.take(1000) == head);
            assert(bytes.skip(1000) == more);
        }
    }
}

proof fn lemma_rest_is_not_empty(texts: Seq<Seq<char>>)
    requires
        texts.len() > 0,
        encode_utf8(texts.last()).len() >= 1,
    ensures
        encode_utf8(texts.flatten()).len() >= 1,
    decreases texts.len(),
{
    let first = texts[0];
    let rest = texts.drop_first();
    assert(texts == seq![first] + rest);
    lemma_flatten_first(first, rest);
    lemma_encode_concat(first, rest.flatten());
    if rest.len() == 0 {
        assert(texts.last() == first);
    } else {
        assert(rest.last() == texts.last());
        lemma_rest_is_not_empty(rest);
    }
}

/// Texts of whatever characters, each of a thousand bytes and the last of what is left,
/// are sent as they are for the file that is made of them: behind the head, each as one
/// piece, to the end. The file is kept as one text.
pub proof fn law_file_of_texts_is_delivered(
    cache: Map<Seq<char>, Seq<char>>,
    path: Seq<char>,
    file: OpenFile,
    texts: Seq<Seq<char>>,
)
    requires
        !cache.contains_key(path),
        file.ended,
        file.bytes@ == encode_utf8(texts.flatten()),
        file.size is Some,
        file.size->0 == file.bytes@.len(),
        forall|i: int| 0 <= i < texts.len() - 1 ==> encode_utf8(#[trigger] texts[i]).len() == 1000,
        texts.len() > 0 ==> 1 <= encode_utf8(texts.last()).len() <= 1000,
    ensures
        reply_to(cache, path, Some(file)) == (
            seq!["HTTP/1.1 200 OK\r\nContent-Type: text/html; charset=UTF-8\r\n\r\n"@] + texts,
            Delivery::Complete,
        ),
        to_keep_of(cache, path, Some(file)) == Some(texts.flatten()),
        kept_after(cache, path, Some(file)) == cache.insert(path, texts.flatten()),
{
    lemma_texts_are_sent(texts);
}

/// A file of no more than a thousand bytes is sent to its end if and only if it is text,
/// whatever its characters: behind the head, in one piece, or in none where it is empty.
pub proof fn law_short_file_is_delivered(
    cache: Map<Seq<char>, Seq<char>>,
    path: Seq<char>,
    file: OpenFile,
)
    requires
        !cache.contains_key(path),
        file.ended,
        file.size is Some,
        file.size->0 == file.bytes@.len(),
        file.bytes@.len() <= 1000,
    ensures
        ({
            let head =
                "HTTP/1.1 200 OK\r\nContent-Type: text/html; charset=UTF-8\r\n\r\n"@;
            let bytes = file.bytes@;
            let reply = reply_to(cache, path, Some(file));
            &&& reply.1 == Delivery::Complete <==> valid_utf8(bytes)
            &&& reply.1 == Delivery::NotText <==> !valid_utf8(bytes)
            &&& valid_utf8(bytes) && bytes.len() > 0 ==> reply.0 == seq![head, decode_utf8(bytes)]
            &&& valid_utf8(bytes) ==> to_keep_of(cache, path, Some(file)) == Some(
                decode_utf8(bytes),
            )
            &&& bytes.len() == 0 || !valid_utf8(bytes) ==> reply.0 == seq![head]
        }),
{
    let bytes = file.bytes@;
    let none = Seq::<Seq<char>>::empty();
    if bytes.len() == 0 {
        assert(decode_utf8(bytes) == none.flatten());
    } else if valid_utf8(bytes) {
        lemma_flatten_first(decode_utf8(bytes), none);
        assert(seq![decode_utf8(bytes)] + none == seq![decode_utf8(bytes)]);
        assert(decode_utf8(bytes) + none.flatten() == decode_utf8(bytes));
    }
}

/// A file that is kept is answered by what is kept of it alone; without it a file that
/// could not be opened gets nothing, one whose size cannot be told gets the head alone,
/// and any other the head and then what is sent of it.
pub proof fn law_reply_to_a_path(
    cache: Map<Seq<char>, Seq<char>>,
    path: Seq<char>,
    file: OpenFile,
    other: Option<OpenFile>,
    kept: Seq<char>,
)
    requires
        !cache.contains_key(path),
    ensures
        ({
            let head =
                "HTTP/1.1 200 OK\r\nContent-Type: text/html; charset=UTF-8\r\n\r\n"@;
            let with = cache.insert(path, kept);
            let reply = reply_to(cache, path, Some(file));
            &&& reply_to(with, path, other) == (seq![kept], Delivery::Complete)
            &&& to_keep_of(with, path, other) is None
            &&& reply_to(cache, path, None) == (Seq::<Seq<char>>::empty(), Delivery::NoFile)
            &&& to_keep_of(cache, path, None) is None
            &&& file.size is None ==> reply == (seq![head], Delivery::Unreadable)
            &&& file.size matches Some(size) ==> {
                let (pieces, delivery) = sent_of(size as nat, file.bytes@, file.ended);
                reply == (seq![head] + pieces, delivery)
            }
            &&& reply.1 == Delivery::Complete ==> to_keep_of(cache, path, Some(file)) == Some(
                reply.0.drop_first().flatten(),
            )
            &&& reply.1 != Delivery::Complete ==> to_keep_of(cache, path, Some(file)) is None
        }),
{
    let reply = reply_to(cache, path, Some(file));
    assert(reply.0.drop_first() == body_of(file).0);
    assert(seq![HTTP_OK@] + Seq::<Seq<char>>::empty() == seq![HTTP_OK@]);
}

/// What is to be kept is kept under its path, and nothing else changes.
pub proof fn law_kept_text_is_found_again(
    cache: Map<Seq<char>, Seq<char>>,
    path: Seq<char>,
    text: Seq<char>,
    file: Option<OpenFile>,
)
    ensures
        kept_with(cache, path, Some(text)) == cache.insert(path, text),
        kept_with(cache, path, None) == cache,
        reply_to(kept_with(cache, path, Some(text)), path, file) == (
            seq![text],
            Delivery::Complete,
        ),
{
}

} // verus!
