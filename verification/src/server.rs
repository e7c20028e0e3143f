//! The state of the server and the requests that wait in it.

use crate::number::{decimal, write_decimal};
use crate::path::{normalize, normalized};
use crate::schedule::{
    enqueued, insert_request, law_arrival_keeps_order, law_arrival_loses_nothing,
    law_front_is_next, lemma_slot, ordered, requests, slot, HTTP_Request, Request,
};
use vstd::hash_map::StringHashMap;
use vstd::prelude::*;

verus! {

/// The name that the server gives itself.
pub const SERVER_NAME: &'static str = "Zhtta Version 0.5";

/// A connection to a client.
pub struct Stream {
    /// The number by which the connection is known.
    pub id: u64,
    /// The address of the client, where it can be told.
    pub peer_name: Option<String>,
}

/// The server.
pub struct WebServer {
    /// The address to listen on.
    pub ip: String,
    /// The port to listen on.
    pub port: usize,
    /// The path of the directory that is served, without detours.
    pub www_dir_path: String,
    /// The requests that wait for a file, the next one first.
    pub request_queue: Vec<HTTP_Request>,
    /// The connections of those requests, by the address of the client.
    pub stream_map: StringHashMap<Option<u64>>,
    /// How many visitors came.
    pub counter: usize,
    /// The files that were sent before, by their paths.
    pub cache: StringHashMap<String>,
}

/// What the server knows.
#[verifier::ext_equal]
pub struct ServerState {
    pub ip: Seq<char>,
    pub port: nat,
    pub www_dir_path: Seq<char>,
    pub queue: Seq<Request>,
    pub streams: Map<Seq<char>, Option<u64>>,
    pub counter: nat,
    pub cache: Map<Seq<char>, Seq<char>>,
}

impl View for WebServer {
    type V = ServerState;

    open spec fn view(&self) -> ServerState {
        ServerState {
            ip: self.ip@,
            port: self.port as nat,
            www_dir_path: self.www_dir_path@,
            queue: requests(self.request_queue@),
            streams: self.stream_map@,
            counter: self.counter as nat,
            cache: self.cache@.map_values(|contents: String| contents@),
        }
    }
}

/// What became of the next request.
pub enum Dequeued {
    /// No request waits.
    Empty,
    /// The request has no connection: the server fails.
    NoStream(HTTP_Request),
    /// The request is to be answered on this connection.
    Ready(HTTP_Request, Option<u64>),
}

/// The address of the client of a connection; empty where it cannot be told.
pub open spec fn peer_of(stream: Option<Stream>) -> Seq<char> {
    match stream {
        Some(s) => match s.peer_name {
            Some(name) => name@,
            None => Seq::empty(),
        },
        None => Seq::empty(),
    }
}

/// The number of a connection.
pub open spec fn id_of(stream: Option<Stream>) -> Option<u64> {
    match stream {
        Some(s) => Some(s.id),
        None => None,
    }
}

/// The state after a request was put into the queue.
pub open spec fn after_enqueue(
    state: ServerState,
    request: Request,
    stream: Option<u64>,
) -> ServerState {
    ServerState {
        queue: enqueued(state.queue, request),
        streams: state.streams.insert(request.peer_name, stream),
        ..state
    }
}

/// The state after the next request was taken out of the queue.
pub open spec fn after_dequeue(state: ServerState) -> ServerState
    recommends
        state.queue.len() > 0,
{
    ServerState {
        queue: state.queue.drop_first(),
        streams: state.streams.remove(state.queue[0].peer_name),
        ..state
    }
}

/// The count after one more visitor; it starts again at zero when it is exhausted.
pub open spec fn counted(counter: nat) -> nat {
    if counter == usize::MAX {
        0
    } else {
        counter + 1
    }
}

/// The count after `n` visitors.
pub open spec fn counted_times(n: nat) -> nat
    decreases n,
{
    if n == 0 {
        0
    } else {
        counted(counted_times((n - 1) as nat))
    }
}

/// The text of an address and a port.
pub open spec fn socket_address(ip: Seq<char>, port: nat) -> Seq<char> {
    ip + ":"@ + decimal(port)
}

/// What is said when the server starts to listen.
pub open spec fn announcement_text(address: Seq<char>, www_dir_path: Seq<char>) -> Seq<char> {
    SERVER_NAME@ + " listening on "@ + address + " (serving from: "@ + www_dir_path + ")."@
}

impl WebServer {
    /// A server with nothing waiting in it, for the directory at the given path. No
    /// path holds a zero character.
    pub fn new(ip: &str, port: usize, www_dir: &str) -> (r: WebServer)
        requires
            !www_dir@.contains('\0'),
        ensures
            r@ == (ServerState {
                ip: ip@,
                port: port as nat,
                www_dir_path: normalized(www_dir@),
                queue: Seq::empty(),
                streams: Map::empty(),
                counter: 0,
                cache: Map::empty(),
            }),
            ordered(r@.queue),
    {
        let r = WebServer {
            ip: ip.to_owned(),
            port,
            www_dir_path: normalize(www_dir),
            request_queue: Vec::new(),
            stream_map: StringHashMap::new(),
            counter: 0,
            cache: StringHashMap::new(),
        };
        assert(r@.queue == Seq::<Request>::empty());
        assert(r@.cache == Map::<Seq<char>, Seq<char>>::empty());
        r
    }

    /// Starts a run, with no visitor counted and no file kept, and says where to
    /// listen.
    pub fn run(&mut self) -> (address: String)
        ensures
            final(self)@ == (ServerState { counter: 0, cache: Map::empty(), ..old(self)@ }),
            address@ == socket_address(old(self)@.ip, old(self)@.port),
    {
        self.counter = 0;
        self.cache = StringHashMap::new();
        assert(self@.cache == Map::<Seq<char>, Seq<char>>::empty());
        let mut address = self.ip.clone();
        address.append(":");
        let port = write_decimal(self.port);
        address.append(&port);
        address
    }

    /// What is said when the server listens on the address.
    pub fn announcement(&self, address: &str) -> (r: String)
        ensures
            r@ == announcement_text(address@, self@.www_dir_path),
    {
        let mut r = SERVER_NAME.to_owned();
        r.append(" listening on ");
        r.append(address);
        r.append(" (serving from: ");
        r.append(&self.www_dir_path);
        r.append(").");
        r
    }

    /// Counts a visitor. The count starts again at zero when it is exhausted.
    pub fn count_visitor(&mut self)
        ensures
            final(self)@ == (ServerState { counter: counted(old(self)@.counter), ..old(self)@ }),
            old(self)@.counter < usize::MAX ==> final(self)@.counter == old(self)@.counter + 1,
            old(self)@.counter == usize::MAX ==> final(self)@.counter == 0,
    {
        self.counter = self.counter.wrapping_add(1);
    }

    /// The address of the client of a connection; empty where it cannot be told.
    pub fn get_peer_name(stream: &Option<Stream>) -> (r: String)
        ensures
            r@ == peer_of(*stream),
    {
        match stream {
            Some(s) => match &s.peer_name {
                Some(name) => name.clone(),
                None => String::new(),
            },
            None => String::new(),
        }
    }

    /// Keeps the connection of a client and puts its request for a file of the given
    /// length into the queue. The result is the connection that was kept for the same
    /// client before and is so no more.
    pub fn enqueue_static_file_request(
        &mut self,
        stream: &Option<Stream>,
        path: &str,
        length: usize,
    ) -> (replaced: Option<Option<u64>>)
        ensures
            final(self)@ == after_enqueue(
                old(self)@,
                (Request { peer_name: peer_of(*stream), path: path@, length: length as nat }),
                id_of(*stream),
            ),
            replaced == old(self)@.streams.get(peer_of(*stream)),
            ordered(old(self)@.queue) ==> ordered(final(self)@.queue),
    {
        let peer_name = WebServer::get_peer_name(stream);
        let replaced: Option<Option<u64>> = match self.stream_map.get(&peer_name) {
            Some(id) => Some(*id),
            None => None,
        };
        let id: Option<u64> = match stream {
            Some(s) => Some(s.id),
            None => None,
        };
        self.stream_map.insert(peer_name.clone(), id);
        let request = HTTP_Request { peer_name, path: path.to_owned(), length };
        proof {
            if ordered(self@.queue) {
                law_arrival_keeps_order(self@.queue, request@);
            }
        }
        insert_request(&mut self.request_queue, request);
        replaced
    }

    /// Takes the next request out of the queue, with its connection.
    pub fn dequeue_static_file_request(&mut self) -> (r: Dequeued)
        ensures
            match r {
                Dequeued::Empty => {
                    &&& old(self)@.queue.len() == 0
                    &&& final(self)@ == old(self)@
                },
                Dequeued::NoStream(request) => {
                    &&& old(self)@.queue.len() > 0
                    &&& request@ == old(self)@.queue[0]
                    &&& !old(self)@.streams.contains_key(request@.peer_name)
                    &&& final(self)@ == after_dequeue(old(self)@)
                },
                Dequeued::Ready(request, stream) => {
                    &&& old(self)@.queue.len() > 0
                    &&& request@ == old(self)@.queue[0]
                    &&& old(self)@.streams.contains_key(request@.peer_name)
                    &&& stream == old(self)@.streams[request@.peer_name]
                    &&& final(self)@ == after_dequeue(old(self)@)
                },
            },
            ordered(old(self)@.queue) ==> ordered(final(self)@.queue),
    {
        if self.request_queue.len() == 0 {
            return Dequeued::Empty;
        }
        proof {
            if ordered(self@.queue) {
                law_front_is_next(self@.queue);
            }
        }
        let request = self.request_queue.remove(0);
        assert(self@.queue == old(self)@.queue.drop_first());
        let stream: Option<Option<u64>> = match self.stream_map.get(&request.peer_name) {
            Some(id) => Some(*id),
            None => None,
        };
        self.stream_map.remove(&request.peer_name);
        match stream {
            Some(id) => Dequeued::Ready(request, id),
            None => {
                assert(self@.streams == after_dequeue(old(self)@).streams);
                Dequeued::NoStream(request)
            },
        }
    }
}

/// Every waiting request has a connection of its own.
pub open spec fn connected(state: ServerState) -> bool {
    &&& forall|i: int|
        0 <= i < state.queue.len() ==> state.streams.contains_key(
            (#[trigger] state.queue[i]).peer_name,
        )
    &&& forall|i: int, j: int|
        0 <= i < j < state.queue.len() ==> (#[trigger] state.queue[i]).peer_name != (
        #[trigger] state.queue[j]).peer_name
}

/// No request of this client waits.
pub open spec fn absent(state: ServerState, peer_name: Seq<char>) -> bool {
    forall|i: int| 0 <= i < state.queue.len() ==> (#[trigger] state.queue[i]).peer_name != peer_name
}

/// A new client's request finds its connection kept, and those of the others stay
/// as they were.
pub proof fn law_arrival_keeps_connections(
    state: ServerState,
    request: Request,
    stream: Option<u64>,
)
    requires
        connected(state),
        absent(state, request.peer_name),
    ensures
        ({
            let after = after_enqueue(state, request, stream);
            &&& connected(after)
            &&& after.streams[request.peer_name] == stream
            &&& forall|i: int|
                0 <= i < state.queue.len() ==> after.streams[(
                #[trigger] state.queue[i]).peer_name] == state.streams[state.queue[i].peer_name]
        }),
{
    let after = after_enqueue(state, request, stream);
    let k = slot(state.queue, request);
    lemma_slot(state.queue, request);
    assert forall|i: int| 0 <= i < after.queue.len() implies after.streams.contains_key(
        (#[trigger] after.queue[i]).peer_name,
    ) by {
        if i < k {
            assert(after.queue[i] == state.queue[i]);
        } else if i > k {
            assert(after.queue[i] == state.queue[i - 1]);
        }
    }
    assert forall|i: int, j: int| 0 <= i < j < after.queue.len() implies (
    #[trigger] after.queue[i]).peer_name != (#[trigger] after.queue[j]).peer_name by {
        if i != k && j != k {
            let a = if i < k { i } else { i - 1 };
            let b = if j < k { j } else { j - 1 };
            assert(after.queue[i] == state.queue[a] && after.queue[j] == state.queue[b]);
        } else if i == k {
            assert(after.queue[j] == state.queue[j - 1]);
        } else {
            assert(after.queue[i] == state.queue[i]);
        }
    }
}

/// Where every waiting request has a connection, the next one has it when its turn
/// comes, and those that still wait keep theirs.
pub proof fn law_departure_keeps_connections(state: ServerState)
    requires
        connected(state),
        state.queue.len() > 0,
    ensures
        state.streams.contains_key(state.queue[0].peer_name),
        connected(after_dequeue(state)),
        absent(after_dequeue(state), state.queue[0].peer_name),
        forall|i: int|
            0 < i < state.queue.len() ==> after_dequeue(state).streams[(
            #[trigger] state.queue[i]).peer_name] == state.streams[state.queue[i].peer_name],
{
    let after = after_dequeue(state);
    assert forall|i: int| 0 <= i < after.queue.len() implies {
        &&& after.streams.contains_key((#[trigger] after.queue[i]).peer_name)
        &&& after.queue[i].peer_name != state.queue[0].peer_name
    } by {
        assert(after.queue[i] == state.queue[i + 1]);
        assert(state.queue[0].peer_name != state.queue[i + 1].peer_name);
    }
    assert forall|i: int, j: int| 0 <= i < j < after.queue.len() implies (
    #[trigger] after.queue[i]).peer_name != (#[trigger] after.queue[j]).peer_name by {
        assert(after.queue[i] == state.queue[i + 1] && after.queue[j] == state.queue[j + 1]);
    }
}

/// The count since the start of the run is the number of visitors, as long as it
/// can be counted.
pub proof fn law_counter_counts_visitors(n: nat)
    requires
        n <= usize::MAX,
    ensures
        counted_times(n) == n,
    decreases n,
{
    if n > 0 {
        law_counter_counts_visitors((n - 1) as nat);
    }
}

/// Each visitor adds one to the count, until it is exhausted and starts again.
pub proof fn law_each_visitor_adds_one(counter: nat)
    requires
        counter <= usize::MAX,
    ensures
        counter < usize::MAX ==> counted(counter) == counter + 1,
        counted(usize::MAX as nat) == 0,
{
}

/// The address to listen on is the one that was given, a colon and the port.
pub proof fn law_address_and_port(ip: Seq<char>, port: nat)
    ensures
        socket_address(ip, port) == ip + ":"@ + decimal(port),
        socket_address(ip, port).len() == ip.len() + 1 + decimal(port).len(),
        socket_address(ip, port).take(ip.len() as int) == ip,
        socket_address(ip, port)[ip.len() as int] == ':',
        socket_address(ip, port).skip(ip.len() as int + 1) == decimal(port),
{
    reveal_strlit(":");
    assert(socket_address(ip, port).take(ip.len() as int) == ip);
    assert(socket_address(ip, port).skip(ip.len() as int + 1) == decimal(port));
}

/// What is said at the start names the server, the address and the served directory.
pub proof fn law_announcement_names_address_and_directory(
    address: Seq<char>,
    www_dir_path: Seq<char>,
)
    ensures
        announcement_text(address, www_dir_path) == "Zhtta Version 0.5"@ + " listening on "@
            + address + " (serving from: "@ + www_dir_path + ")."@,
{
}

/// A connection is known by its own number and address; where there is none, or its
/// address cannot be told, the address is empty.
pub proof fn law_connection_is_known_by_its_own(stream: Stream)
    ensures
        id_of(Some(stream)) == Some(stream.id),
        id_of(None) is None,
        stream.peer_name matches Some(name) ==> peer_of(Some(stream)) == name@,
        stream.peer_name is None ==> peer_of(Some(stream)).len() == 0,
        peer_of(None).len() == 0,
{
}

/// A request that arrives adds itself to the queue and its connection to the others, in
/// place of an earlier one of the same client, and changes nothing else.
pub proof fn law_arrival_changes_nothing_else(
    state: ServerState,
    request: Request,
    stream: Option<u64>,
    other: Seq<char>,
)
    ensures
        ({
            let after = after_enqueue(state, request, stream);
            &&& after.queue.len() == state.queue.len() + 1
            &&& after.queue.to_multiset() == state.queue.to_multiset().insert(request)
            &&& after.streams == state.streams.insert(request.peer_name, stream)
            &&& after.streams.contains_key(request.peer_name)
            &&& after.streams[request.peer_name] == stream
            &&& other != request.peer_name ==> after.streams.contains_key(other)
                == state.streams.contains_key(other) && after.streams[other]
                == state.streams[other]
            &&& after.ip == state.ip
            &&& after.port == state.port
            &&& after.www_dir_path == state.www_dir_path
            &&& after.counter == state.counter
            &&& after.cache == state.cache
        }),
{
    law_arrival_loses_nothing(state.queue, request);
    let k = slot(state.queue, request);
    let after = enqueued(state.queue, request);
    broadcast use vstd::seq_lib::group_to_multiset_ensures;

    assert(after.remove(k) == state.queue);
    assert(after.to_multiset() == state.queue.to_multiset().insert(request));
}

/// The request that leaves is the first one, with its connection; the others stay in
/// their order, and nothing else changes.
pub proof fn law_departure_changes_nothing_else(state: ServerState, other: Seq<char>)
    requires
        state.queue.len() > 0,
    ensures
        ({
            let after = after_dequeue(state);
            &&& seq![state.queue[0]] + after.queue == state.queue
            &&& !after.streams.contains_key(state.queue[0].peer_name)
            &&& other != state.queue[0].peer_name ==> after.streams.contains_key(other)
                == state.streams.contains_key(other) && after.streams[other]
                == state.streams[other]
            &&& after.ip == state.ip
            &&& after.port == state.port
            &&& after.www_dir_path == state.www_dir_path
            &&& after.counter == state.counter
            &&& after.cache == state.cache
        }),
{
}

/// What is said of the state of a server is what the server holds.
pub proof fn law_state_says_what_the_server_holds(server: WebServer, path: Seq<char>)
    ensures
        server@.ip == server.ip@,
        server@.port == server.port,
        server@.www_dir_path == server.www_dir_path@,
        server@.queue.len() == server.request_queue@.len(),
        forall|i: int|
            0 <= i < server.request_queue@.len() ==> #[trigger] server@.queue[i]
                == server.request_queue@[i]@,
        server@.streams == server.stream_map@,
        server@.counter == server.counter,
        server@.cache.contains_key(path) == server.cache@.contains_key(path),
        server.cache@.contains_key(path) ==> server@.cache[path] == server.cache@[path]@,
{
}

} // verus!
