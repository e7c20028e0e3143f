//! The order in which waiting file requests are served.
//!
//! Requests from the privileged networks come first, the longest file in front;
//! all others follow, the shortest file in front. Requests that neither rule
//! tells apart are served as they came.

use crate::text::{
    chars_of, contains, has, law_contained_text_is_a_middle, law_text_holds_its_middle,
};
use vstd::prelude::*;

verus! {

/// A request for a file that waits for its turn.
#[allow(non_camel_case_types)]
pub struct HTTP_Request {
    /// The address of the client, under which its stream is kept.
    pub peer_name: String,
    /// The file to send.
    pub path: String,
    /// The number of bytes in the file.
    pub length: usize,
}

/// What a waiting request says.
#[verifier::ext_equal]
pub struct Request {
    pub peer_name: Seq<char>,
    pub path: Seq<char>,
    pub length: nat,
}

impl View for HTTP_Request {
    type V = Request;

    open spec fn view(&self) -> Request {
        Request {
            peer_name: self.peer_name@,
            path: self.path@,
            length: self.length as nat,
        }
    }
}

/// What the requests of a queue say.
pub open spec fn requests(queue: Seq<HTTP_Request>) -> Seq<Request> {
    queue.map_values(|r: HTTP_Request| r@)
}

/// One of the networks whose requests are served first.
pub const FIRST_NETWORK: &'static str = "128.143.";

/// The other one.
pub const SECOND_NETWORK: &'static str = "132.54.";

/// An address is privileged when the prefix of a privileged network stands
/// anywhere in it.
pub open spec fn privileged(peer_name: Seq<char>) -> bool {
    contains(peer_name, FIRST_NETWORK@) || contains(peer_name, SECOND_NETWORK@)
}

/// A new request is served before one that already waits.
pub open spec fn overtakes(new: Request, waiting: Request) -> bool {
    if privileged(new.peer_name) {
        !privileged(waiting.peer_name) || new.length > waiting.length
    } else {
        !privileged(waiting.peer_name) && new.length < waiting.length
    }
}

/// The place of a new request: in front of the first that it overtakes, else at
/// the end.
pub open spec fn slot(queue: Seq<Request>, new: Request) -> int
    decreases queue.len(),
{
    if queue.len() == 0 || overtakes(new, queue[0]) {
        0
    } else {
        1 + slot(queue.drop_first(), new)
    }
}

/// The queue once a new request has taken its place.
pub open spec fn enqueued(queue: Seq<Request>, new: Request) -> Seq<Request> {
    queue.insert(slot(queue, new), new)
}

/// No request waits in front of one that it should let pass.
pub open spec fn ordered(queue: Seq<Request>) -> bool {
    forall|i: int, j: int|
        0 <= i < j < queue.len() ==> !overtakes(#[trigger] queue[j], #[trigger] queue[i])
}

/// Neither of two requests is served before the other by rank alone.
pub open spec fn equal_rank(a: Request, b: Request) -> bool {
    !overtakes(a, b) && !overtakes(b, a)
}

/// The queue after the given requests have arrived, the first at index 0.
pub open spec fn scheduled(arrivals: Seq<Request>) -> Seq<Request>
    decreases arrivals.len(),
{
    if arrivals.len() == 0 {
        Seq::empty()
    } else {
        enqueued(scheduled(arrivals.drop_last()), arrivals.last())
    }
}

/// Whether an address is privileged.
pub fn is_privileged(peer_name: &str) -> (r: bool)
    ensures
        r == privileged(peer_name@),
{
    let name = chars_of(peer_name);
    let first = chars_of(FIRST_NETWORK);
    let second = chars_of(SECOND_NETWORK);
    has(&name, &first) || has(&name, &second)
}

/// Whether a new request is served before one that already waits.
fn is_ahead(new: &HTTP_Request, new_privileged: bool, waiting: &HTTP_Request) -> (r: bool)
    requires
        new_privileged == privileged(new@.peer_name),
    ensures
        r == overtakes(new@, waiting@),
{
    if is_privileged(&waiting.peer_name) {
        new_privileged && new.length > waiting.length
    } else {
        new_privileged || new.length < waiting.length
    }
}

/// Puts a new request into its place.
pub fn insert_request(queue: &mut Vec<HTTP_Request>, new: HTTP_Request)
    ensures
        requests(final(queue)@) == enqueued(requests(old(queue)@), new@),
{
    let new_privileged = is_privileged(&new.peer_name);
    let ghost before = requests(queue@);
    let mut i: usize = 0;
    assert(before.skip(0) == before);
    while i < queue.len() && !is_ahead(&new, new_privileged, &queue[i])
        invariant
            i <= queue.len(),
            *queue == *old(queue),
            before == requests(queue@),
            new_privileged == privileged(new@.peer_name),
            slot(before, new@) == i + slot(before.skip(i as int), new@),
        decreases queue.len() - i,
    {
        assert(before.skip(i as int).drop_first() == before.skip(i + 1));
        i += 1;
    }
    assert(slot(before, new@) == i);
    queue.insert(i, new);
    assert(requests(queue@) == before.insert(i as int, new@));
}

/// Where a request is placed: behind requests that it does not overtake, and in
/// front of one that it does.
pub proof fn lemma_slot(queue: Seq<Request>, new: Request)
    ensures
        0 <= slot(queue, new) <= queue.len(),
        forall|i: int| 0 <= i < slot(queue, new) ==> !overtakes(new, #[trigger] queue[i]),
        slot(queue, new) < queue.len() ==> overtakes(new, queue[slot(queue, new)]),
    decreases queue.len(),
{
    if queue.len() > 0 && !overtakes(new, queue[0]) {
        let rest = queue.drop_first();
        lemma_slot(rest, new);
        assert forall|i: int| 0 <= i < slot(queue, new) implies !overtakes(
            new,
            #[trigger] queue[i],
        ) by {
            if i > 0 {
                assert(queue[i] == rest[i - 1]);
            }
        }
    }
}

/// In an ordered queue a new request overtakes all that wait behind its place.
proof fn lemma_behind_slot(queue: Seq<Request>, new: Request, i: int)
    requires
        ordered(queue),
        slot(queue, new) <= i < queue.len(),
    ensures
        overtakes(new, queue[i]),
{
    lemma_slot(queue, new);
    let k = slot(queue, new);
    if k < i {
        assert(!overtakes(queue[i], queue[k]));
    }
}

/// A queue that is in order stays in order when a request arrives.
pub proof fn law_arrival_keeps_order(queue: Seq<Request>, new: Request)
    requires
        ordered(queue),
    ensures
        ordered(enqueued(queue, new)),
{
    lemma_slot(queue, new);
    let k = slot(queue, new);
    let after = enqueued(queue, new);
    assert forall|i: int, j: int| 0 <= i < j < after.len() implies !overtakes(
        #[trigger] after[j],
        #[trigger] after[i],
    ) by {
        if j == k {
            assert(after[i] == queue[i]);
        } else if i == k {
            lemma_behind_slot(queue, new, j - 1);
        } else {
            let a = if i < k { i } else { i - 1 };
            let b = if j < k { j } else { j - 1 };
            assert(after[i] == queue[a] && after[j] == queue[b]);
        }
    }
}

/// An arrival adds the new request, once, and loses none.
pub proof fn law_arrival_loses_nothing(queue: Seq<Request>, new: Request)
    ensures
        enqueued(queue, new).len() == queue.len() + 1,
        enqueued(queue, new).to_multiset() == queue.to_multiset().insert(new),
        enqueued(queue, new).remove(slot(queue, new)) == queue,
        0 <= slot(queue, new) <= queue.len(),
        enqueued(queue, new)[slot(queue, new)] == new,
{
    lemma_slot(queue, new);
    let k = slot(queue, new);
    let after = enqueued(queue, new);
    assert(after.remove(k) == queue);
    broadcast use vstd::seq_lib::group_to_multiset_ensures;
    assert(after.remove(k).to_multiset() == after.to_multiset().remove(after[k]));
    assert(after.to_multiset().count(new) > 0) by {
        assert(after.contains(after[k]));
    }
    assert(after.to_multiset() == after.to_multiset().remove(new).insert(new));
}

/// A privileged request is placed in front of every request that is not, and a
/// request that is not privileged is placed behind every privileged one.
pub proof fn law_privileged_come_first(queue: Seq<Request>, new: Request, i: int)
    requires
        ordered(queue),
        0 <= i < queue.len(),
    ensures
        privileged(new.peer_name) && !privileged(queue[i].peer_name) ==> slot(queue, new) <= i,
        !privileged(new.peer_name) && privileged(queue[i].peer_name) ==> i < slot(queue, new),
{
    lemma_slot(queue, new);
    if slot(queue, new) <= i {
        lemma_behind_slot(queue, new, i);
    }
}

/// Among privileged requests the longer file is placed in front, among the others
/// the shorter one.
pub proof fn law_length_decides_within_a_class(queue: Seq<Request>, new: Request, i: int)
    requires
        ordered(queue),
        0 <= i < queue.len(),
        privileged(new.peer_name) == privileged(queue[i].peer_name),
    ensures
        privileged(new.peer_name) ==> (slot(queue, new) <= i <==> new.length > queue[i].length),
        !privileged(new.peer_name) ==> (slot(queue, new) <= i <==> new.length < queue[i].length),
{
    lemma_slot(queue, new);
    if slot(queue, new) <= i {
        lemma_behind_slot(queue, new, i);
    }
}

/// A request is placed behind all of its rank that came before it.
pub proof fn law_equal_rank_keeps_arrival_order(queue: Seq<Request>, new: Request, i: int)
    requires
        ordered(queue),
        0 <= i < queue.len(),
        equal_rank(new, queue[i]),
    ensures
        i < slot(queue, new),
{
    lemma_slot(queue, new);
    if slot(queue, new) <= i {
        lemma_behind_slot(queue, new, i);
    }
}

/// The request at the front of an ordered queue is one that none of the others
/// overtakes, and the rest stays in order when it leaves.
pub proof fn law_front_is_next(queue: Seq<Request>)
    requires
        ordered(queue),
        queue.len() > 0,
    ensures
        forall|i: int| 0 <= i < queue.len() ==> !overtakes(#[trigger] queue[i], queue[0]),
        ordered(queue.drop_first()),
{
    let rest = queue.drop_first();
    assert forall|i: int, j: int| 0 <= i < j < rest.len() implies !overtakes(
        #[trigger] rest[j],
        #[trigger] rest[i],
    ) by {
        assert(!overtakes(queue[j + 1], queue[i + 1]));
    }
}

/// Whatever arrives, the queue is in order and holds exactly what arrived.
pub proof fn law_arrivals_are_scheduled(arrivals: Seq<Request>)
    ensures
        ordered(scheduled(arrivals)),
        scheduled(arrivals).to_multiset() == arrivals.to_multiset(),
    decreases arrivals.len(),
{
    if arrivals.len() > 0 {
        let earlier = arrivals.drop_last();
        law_arrivals_are_scheduled(earlier);
        law_arrival_keeps_order(scheduled(earlier), arrivals.last());
        law_arrival_loses_nothing(scheduled(earlier), arrivals.last());
        broadcast use vstd::seq_lib::group_to_multiset_ensures;
        assert(arrivals == earlier.push(arrivals.last()));
    } else {
        assert(arrivals == Seq::<Request>::empty());
    }
}

/// Every address in which the prefix of one of the two networks stands is privileged,
/// whatever stands around it.
pub proof fn law_addresses_of_the_networks_are_privileged(a: Seq<char>, b: Seq<char>)
    ensures
        privileged(a + "128.143."@ + b),
        privileged(a + "132.54."@ + b),
{
    law_text_holds_its_middle(a, "128.143."@, b);
    law_text_holds_its_middle(a, "132.54."@, b);
}

/// An address is privileged only if the prefix of one of the two networks stands in it.
pub proof fn law_other_addresses_are_not_privileged(peer_name: Seq<char>)
    requires
        privileged(peer_name),
    ensures
        (exists|a: Seq<char>, b: Seq<char>| #[trigger] (a + "128.143."@ + b) == peer_name) || (
        exists|a: Seq<char>, b: Seq<char>| #[trigger] (a + "132.54."@ + b) == peer_name),
{
    if contains(peer_name, "128.143."@) {
        law_contained_text_is_a_middle(peer_name, "128.143."@);
    } else {
        law_contained_text_is_a_middle(peer_name, "132.54."@);
    }
}

/// A request from one of the two networks overtakes each waiting request in whose
/// address neither prefix stands, and is overtaken by none, whatever the lengths.
pub proof fn law_networks_are_served_first(
    a: Seq<char>,
    b: Seq<char>,
    path: Seq<char>,
    length: nat,
    other: Request,
)
    requires
        forall|x: Seq<char>, y: Seq<char>| #[trigger] (x + "128.143."@ + y) != other.peer_name,
        forall|x: Seq<char>, y: Seq<char>| #[trigger] (x + "132.54."@ + y) != other.peer_name,
    ensures
        ({
            let first = Request { peer_name: a + "128.143."@ + b, path, length };
            let second = Request { peer_name: a + "132.54."@ + b, path, length };
            &&& enqueued(seq![other], first) == seq![first, other]
            &&& enqueued(seq![other], second) == seq![second, other]
            &&& enqueued(seq![first], other) == seq![first, other]
            &&& enqueued(seq![second], other) == seq![second, other]
        }),
{
    law_addresses_of_the_networks_are_privileged(a, b);
    if privileged(other.peer_name) {
        law_other_addresses_are_not_privileged(other.peer_name);
    }
    let first = Request { peer_name: a + "128.143."@ + b, path, length };
    let second = Request { peer_name: a + "132.54."@ + b, path, length };
    lemma_slot(seq![other], first);
    lemma_slot(seq![other], second);
    lemma_slot(seq![first], other);
    lemma_slot(seq![second], other);
    assert(enqueued(seq![other], first) == seq![first, other]);
    assert(enqueued(seq![other], second) == seq![second, other]);
    assert(enqueued(seq![first], other) == seq![first, other]);
    assert(enqueued(seq![second], other) == seq![second, other]);
}

/// What is said of a waiting request is what it holds.
pub proof fn law_request_says_what_it_holds(queue: Seq<HTTP_Request>, i: int)
    requires
        0 <= i < queue.len(),
    ensures
        requests(queue).len() == queue.len(),
        requests(queue)[i] == queue[i]@,
        queue[i]@.peer_name == queue[i].peer_name@,
        queue[i]@.path == queue[i].path@,
        queue[i]@.length == queue[i].length,
{
}

} // verus!
