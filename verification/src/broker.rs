//! The broker dispatch layer: the topic registry, the publish and subscribe
//! handlers, and the framed responses they produce. The surrounding process
//! owns the sockets; it hands decoded frames in and writes the returned
//! response frames back.

use vstd::prelude::*;

verus! {

use vstd::pervasive::unreached;
use vstd::utf8::encode_utf8;
use crate::commands::Commands;
use crate::log::{CommitLog, StorageError};
use crate::protocol::{Response, ResponseCode, ResponseMessage};

/// A connected peer, as the dispatch layer sees it.
#[derive(Debug)]
pub struct Client {
    pub ip: String,
    pub read_position: u64,
}

/// What can go wrong around the broker.
#[derive(Debug)]
pub enum ServerError {
    PoisonError,
    Error(std::io::Error),
    NoNewMessages,
}

/// The first topic at or after position `k` whose name is `name`, or the
/// list length when there is none.
pub open spec fn spec_find_topic(topics: Seq<CommitLog>, name: Seq<char>, k: int) -> int
    decreases topics.len() - k,
{
    if k < 0 || k >= topics.len() {
        topics.len() as int
    } else if topics[k].name@ == name {
        k
    } else {
        spec_find_topic(topics, name, k + 1)
    }
}

/// The messages stored under `name`, or the empty sequence for an unknown
/// topic.
pub open spec fn spec_messages_of(topics: Seq<CommitLog>, name: Seq<char>) -> Seq<Seq<u8>> {
    let f = spec_find_topic(topics, name, 0);
    if f < topics.len() {
        topics[f].messages()
    } else {
        Seq::empty()
    }
}

/// The read cursor of the topic named `name`, or zero for an unknown topic.
pub open spec fn spec_read_count_of(topics: Seq<CommitLog>, name: Seq<char>) -> int {
    let f = spec_find_topic(topics, name, 0);
    if f < topics.len() {
        topics[f].read_count()
    } else {
        0
    }
}

/// A found topic carries the searched name, and nothing before it does.
proof fn lemma_find_matches(topics: Seq<CommitLog>, name: Seq<char>, k: int)
    requires
        0 <= k <= topics.len(),
    ensures
        k <= spec_find_topic(topics, name, k) <= topics.len(),
        spec_find_topic(topics, name, k) < topics.len() ==> topics[spec_find_topic(
            topics,
            name,
            k,
        )].name@ == name,
        forall|i: int|
            k <= i < spec_find_topic(topics, name, k) ==> (#[trigger] topics[i]).name@ != name,
    decreases topics.len() - k,
{
    if k < topics.len() && topics[k].name@ != name {
        lemma_find_matches(topics, name, k + 1);
    }
}

/// Topic lists with pointwise equal names are searched alike.
proof fn lemma_find_congruent(a: Seq<CommitLog>, b: Seq<CommitLog>, name: Seq<char>, k: int)
    requires
        a.len() == b.len(),
        forall|i: int| 0 <= i < a.len() ==> (#[trigger] a[i]).name@ == b[i].name@,
    ensures
        spec_find_topic(a, name, k) == spec_find_topic(b, name, k),
    decreases a.len() - k,
{
    if 0 <= k < a.len() {
        lemma_find_congruent(a, b, name, k + 1);
    }
}

/// Appending a topic leaves searches for other names unchanged.
proof fn lemma_find_push(topics: Seq<CommitLog>, t: CommitLog, name: Seq<char>, k: int)
    requires
        0 <= k <= topics.len(),
        t.name@ != name,
    ensures
        spec_find_topic(topics, name, k) < topics.len() ==> spec_find_topic(
            topics.push(t),
            name,
            k,
        ) == spec_find_topic(topics, name, k),
        spec_find_topic(topics, name, k) == topics.len() ==> spec_find_topic(
            topics.push(t),
            name,
            k,
        ) == topics.len() + 1,
    decreases topics.len() - k,
{
    lemma_find_matches(topics, name, k);
    if k < topics.len() && topics[k].name@ != name {
        lemma_find_push(topics, t, name, k + 1);
    }
    if k == topics.len() {
        assert(spec_find_topic(topics.push(t), name, k + 1) == topics.len() + 1);
    }
}

/// A topic whose name no earlier topic carries is found at its own
/// position.
proof fn lemma_find_exact(topics: Seq<CommitLog>, j: int, k: int)
    requires
        0 <= k <= j < topics.len(),
        forall|t: int| k <= t < j ==> (#[trigger] topics[t]).name@ != topics[j].name@,
    ensures
        spec_find_topic(topics, topics[j].name@, k) == j,
    decreases j - k,
{
    if k < j {
        lemma_find_exact(topics, j, k + 1);
    }
}

/// The topic registry and dispatch layer: one commit log per topic name,
/// created lazily on first publish or eagerly on restore.
#[derive(Debug)]
pub struct Broker {
    pub topics: Vec<CommitLog>,
    pub segment_size: u64,
    pub dir_path: String,
}

impl Broker {
    /// Every topic is well formed, shares the broker's segment size, and
    /// topic names are unique.
    pub open spec fn wf(self) -> bool {
        &&& 8 <= self.segment_size
        &&& self.segment_size + 8 <= u32::MAX
        &&& forall|i: int| 0 <= i < self.topics@.len() ==> (#[trigger] self.topics@[i]).wf()
        &&& forall|i: int|
            0 <= i < self.topics@.len() ==> (#[trigger] self.topics@[i]).segment_size
                == self.segment_size
        &&& forall|i: int, j: int|
            #![trigger self.topics@[i].name@, self.topics@[j].name@]
            0 <= i < j < self.topics@.len() ==> self.topics@[i].name@ != self.topics@[j].name@
    }

    /// Whether a topic of this name exists.
    pub open spec fn has_topic(self, name: Seq<char>) -> bool {
        spec_find_topic(self.topics@, name, 0) < self.topics@.len()
    }

    /// The messages stored under `name`.
    pub open spec fn messages_of(self, name: Seq<char>) -> Seq<Seq<u8>> {
        spec_messages_of(self.topics@, name)
    }

    /// The read cursor of the topic named `name`.
    pub open spec fn read_count_of(self, name: Seq<char>) -> int {
        spec_read_count_of(self.topics@, name)
    }

    /// Whether a publish of `len` bytes to the topic named `name` can be
    /// stored: an existing topic must be able to append it, a fresh one
    /// stores anything up to the segment size.
    pub open spec fn can_store(self, name: Seq<char>, len: int) -> bool {
        let f = spec_find_topic(self.topics@, name, 0);
        if f < self.topics@.len() {
            self.topics@[f].can_append(len)
        } else {
            len <= self.segment_size
        }
    }

    /// An empty registry.
    pub fn new(segment_size: u64, dir_path: &str) -> (r: Broker)
        requires
            8 <= segment_size,
            segment_size + 8 <= u32::MAX,
        ensures
            r.wf(),
            r.topics@.len() == 0,
            r.segment_size == segment_size,
            r.dir_path@ == dir_path@,
    {
        Broker { topics: Vec::new(), segment_size, dir_path: dir_path.to_owned() }
    }

    /// Finds the topic of the given name in the registry.
    fn find_topic(&self, name: &String) -> (r: Option<usize>)
        ensures
            r matches Some(i) ==> (i as int) == spec_find_topic(self.topics@, name@, 0) && (
            i as int) < self.topics@.len(),
            r is None ==> spec_find_topic(self.topics@, name@, 0) == self.topics@.len(),
    {
        let n = self.topics.len();
        let mut k: usize = 0;
        while k < n
            invariant
                k <= n,
                n == self.topics@.len(),
                spec_find_topic(self.topics@, name@, 0) == spec_find_topic(
                    self.topics@,
                    name@,
                    k as int,
                ),
            decreases n - k,
        {
            if self.topics[k].name == *name {
                return Some(k);
            }
            k = k + 1;
        }
        None
    }

    /// Installs restored topics into the registry, skipping any whose name
    /// is already present. Restoring uniquely named topics into an empty
    /// registry serves each topic's messages and read cursor exactly as
    /// restored.
    pub fn restore_from_disk(&mut self, logs: Vec<CommitLog>)
        requires
            old(self).wf(),
            forall|i: int|
                0 <= i < logs@.len() ==> (#[trigger] logs@[i]).wf() && logs@[i].segment_size
                    == old(self).segment_size,
        ensures
            final(self).wf(),
            final(self).segment_size == old(self).segment_size,
            final(self).dir_path == old(self).dir_path,
            (old(self).topics@.len() == 0 && (forall|a: int, b: int|
                #![trigger logs@[a].name@, logs@[b].name@]
                0 <= a < b < logs@.len() ==> logs@[a].name@ != logs@[b].name@)) ==> final(self).topics@ == logs@ && (forall|i: int|
                0 <= i < logs@.len() ==> final(self).messages_of((#[trigger] logs@[i]).name@)
                    == logs@[i].messages() && final(self).read_count_of(logs@[i].name@) == logs@[
                i].read_count()),
    {
        let ghost logs0 = logs@;
        let ghost fresh = old(self).topics@.len() == 0 && (forall|a: int, b: int|
            #![trigger logs0[a].name@, logs0[b].name@]
            0 <= a < b < logs0.len() ==> logs0[a].name@ != logs0[b].name@);
        let total = logs.len();
        let mut rest = logs;
        let mut i: usize = 0;
        while rest.len() > 0
            invariant
                self.wf(),
                self.segment_size == old(self).segment_size,
                self.dir_path == old(self).dir_path,
                i + rest@.len() == total,
                total == logs0.len(),
                rest@ == logs0.skip(i as int),
                fresh == (old(self).topics@.len() == 0 && (forall|a: int, b: int|
                    #![trigger logs0[a].name@, logs0[b].name@]
                    0 <= a < b < logs0.len() ==> logs0[a].name@ != logs0[b].name@)),
                fresh ==> self.topics@ == logs0.take(i as int),
                forall|j: int|
                    0 <= j < rest@.len() ==> (#[trigger] rest@[j]).wf() && rest@[j].segment_size
                        == self.segment_size,
            decreases rest@.len(),
        {
            let log = rest.remove(0);
            proof {
                assert(log == logs0[i as int]);
                assert(rest@ =~= logs0.skip(i + 1));
            }
            match self.find_topic(&log.name) {
                Some(_) => {
                    proof {
                        if fresh {
                            lemma_find_matches(self.topics@, log.name@, 0);
                            let f = spec_find_topic(self.topics@, log.name@, 0);
                            assert(logs0[f].name@ != logs0[i as int].name@);
                            assert(false);
                        }
                    }
                },
                None => {
                    proof {
                        lemma_find_matches(self.topics@, log.name@, 0);
                    }
                    let ghost topics0 = self.topics@;
                    self.topics.push(log);
                    proof {
                        assert forall|a: int, b: int|
                            #![trigger self.topics@[a].name@, self.topics@[b].name@]
                            0 <= a < b < self.topics@.len() implies self.topics@[a].name@
                            != self.topics@[b].name@ by {
                            if b < topics0.len() as int {
                                assert(topics0[a].name@ != topics0[b].name@);
                            }
                        }
                        if fresh {
                            assert(self.topics@ =~= logs0.take(i + 1));
                        }
                    }
                },
            }
            i = i + 1;
        }
        proof {
            if fresh {
                assert(self.topics@ == logs0.take(total as int));
                assert(self.topics@ =~= logs0);
                assert forall|j: int| 0 <= j < logs0.len() implies spec_messages_of(
                    self.topics@,
                    (#[trigger] logs0[j]).name@,
                ) == logs0[j].messages() && spec_read_count_of(self.topics@, logs0[j].name@)
                    == logs0[j].read_count() by {
                    lemma_find_exact(self.topics@, j, 0);
                }
            }
        }
    }
}

impl Broker {
    /// Builds a UTF-8 diagnostic body from a fixed text.
    fn diagnostic_body(text: &str) -> (r: Vec<u8>)
        ensures
            r@ == encode_utf8(text@),
    {
        vstd::slice::slice_to_vec(text.as_bytes())
    }

    /// Appends a payload to an existing topic.
    fn save_to_queue(&mut self, queue: &String, data: &[u8]) -> (r: Result<(), StorageError>)
        requires
            old(self).wf(),
            old(self).has_topic(queue@),
        ensures
            final(self).wf(),
            final(self).segment_size == old(self).segment_size,
            final(self).dir_path == old(self).dir_path,
            r is Ok <==> old(self).can_store(queue@, data@.len() as int),
            r matches Err(e) ==> e is NoSpaceLeft,
            r is Ok ==> final(self).messages_of(queue@) == old(self).messages_of(queue@).push(
                data@,
            ),
            r is Err ==> final(self).messages_of(queue@) == old(self).messages_of(queue@),
            final(self).read_count_of(queue@) == old(self).read_count_of(queue@),
            forall|other: Seq<char>|
                other != queue@ ==> final(self).messages_of(other) == old(self).messages_of(other)
                    && final(self).read_count_of(other) == old(self).read_count_of(other),
    {
        let ghost topics0 = self.topics@;
        let idx = match self.find_topic(queue) {
            Some(i) => i,
            None => unreached(),
        };
        let mut log = self.topics.remove(idx);
        let res = log.save_to_disk(data);
        self.topics.insert(idx, log);
        proof {
            assert(self.topics@ =~= topics0.update(idx as int, self.topics@[idx as int]));
            assert(forall|i: int|
                0 <= i < topics0.len() ==> (#[trigger] self.topics@[i]).name@ == topics0[
                i].name@);
            lemma_find_matches(topics0, queue@, 0);
            lemma_find_congruent(self.topics@, topics0, queue@, 0);
            assert forall|other: Seq<char>| other != queue@ implies spec_messages_of(
                self.topics@,
                other,
            ) == spec_messages_of(topics0, other) && spec_read_count_of(self.topics@, other)
                == spec_read_count_of(topics0, other) by {
                lemma_find_congruent(self.topics@, topics0, other, 0);
                lemma_find_matches(topics0, other, 0);
            }
            assert forall|a: int, b: int|
                #![trigger self.topics@[a].name@, self.topics@[b].name@]
                0 <= a < b < self.topics@.len() implies self.topics@[a].name@ != self.topics@[
                b].name@ by {
                assert(topics0[a].name@ != topics0[b].name@);
            }
        }
        res
    }

    /// Creates a new topic from its first payload and registers it.
    fn create_new_queue(&mut self, queue_name: &String, payload: &[u8]) -> (r: Result<
        (),
        StorageError,
    >)
        requires
            old(self).wf(),
            !old(self).has_topic(queue_name@),
        ensures
            final(self).wf(),
            final(self).segment_size == old(self).segment_size,
            final(self).dir_path == old(self).dir_path,
            r is Ok <==> payload@.len() <= old(self).segment_size,
            r matches Err(e) ==> (e is NoSpaceLeft && final(self).topics@ == old(self).topics@),
            r is Ok ==> (final(self).messages_of(queue_name@) == seq![payload@] && final(self).read_count_of(queue_name@) == 0 && final(self).has_topic(queue_name@)),
            forall|other: Seq<char>|
                other != queue_name@ ==> final(self).messages_of(other) == old(self).messages_of(
                    other,
                ) && final(self).read_count_of(other) == old(self).read_count_of(other),
    {
        let ghost topics0 = self.topics@;
        if payload.len() as u64 > self.segment_size {
            return Err(StorageError::NoSpaceLeft);
        }
        let mut log = CommitLog::new(queue_name.as_str(), self.segment_size, self.dir_path.as_str());
        match log.save_to_disk(payload) {
            Ok(_) => {},
            Err(_) => {
                proof {
                    assert(false);
                }
            },
        }
        self.topics.push(log);
        proof {
            lemma_find_matches(topics0, queue_name@, 0);
            lemma_find_push_self(topics0, self.topics@[topics0.len() as int], 0);
            assert(self.topics@[topics0.len() as int].messages() =~= seq![payload@]);
            assert forall|other: Seq<char>| other != queue_name@ implies spec_messages_of(
                self.topics@,
                other,
            ) == spec_messages_of(topics0, other) && spec_read_count_of(self.topics@, other)
                == spec_read_count_of(topics0, other) by {
                lemma_find_push(topics0, self.topics@[topics0.len() as int], other, 0);
                lemma_find_matches(topics0, other, 0);
            }
            assert forall|a: int, b: int|
                #![trigger self.topics@[a].name@, self.topics@[b].name@]
                0 <= a < b < self.topics@.len() implies self.topics@[a].name@ != self.topics@[
                b].name@ by {
                if b < topics0.len() as int {
                    assert(topics0[a].name@ != topics0[b].name@);
                }
            }
        }
        Ok(())
    }

    /// Dispatches one decoded request frame and produces the response to
    /// send back, if any: quit yields no response; a missing queue name is
    /// rejected; publish stores the payload, creating the topic on first
    /// use, and rejects an unstorable payload; subscribe yields the next
    /// unconsumed message of the topic or reports that none is new; other
    /// commands are answered with an error.
    pub fn handle_client_command(&mut self, command: u32, data: Option<Vec<u8>>, queue_name: Option<
        String,
    >) -> (r: Option<Response>)
        requires
            old(self).wf(),
        ensures
            final(self).wf(),
            final(self).segment_size == old(self).segment_size,
            final(self).dir_path == old(self).dir_path,
            command == 0 ==> r is None && *final(self) == *old(self),
            command != 0 ==> r is Some,
            r matches Some(resp) ==> resp@.wf(),
            (command != 0 && spec_name_absent(queue_name)) ==> (r matches Some(resp)
                && resp.response_code == 1 && resp.response_message == 5 && resp.response_data
                is None && *final(self) == *old(self)),
            (command == 1 && !spec_name_absent(queue_name)) ==> ({
                let nm = queue_name.unwrap()@;
                &&& (!old(self).has_topic(nm) ==> (r matches Some(resp) && resp.response_code == 0
                    && resp.response_message == 1 && resp.response_data is None && *final(self)
                    == *old(self)))
                &&& (old(self).has_topic(nm) ==> {
                    &&& (old(self).read_count_of(nm) < old(self).messages_of(nm).len() ==> (
                    r matches Some(resp) && resp.response_code == 0 && resp.response_message == 2
                        && (resp.response_data matches Some(v) && v@ == old(self).messages_of(nm)[
                        old(self).read_count_of(nm)]) && final(self).read_count_of(nm) == old(
                        self,
                    ).read_count_of(nm) + 1))
                    &&& (old(self).read_count_of(nm) >= old(self).messages_of(nm).len() ==> (
                    r matches Some(resp) && resp.response_code == 0 && resp.response_message == 1
                        && resp.response_data is None && final(self).read_count_of(nm) == old(
                        self,
                    ).read_count_of(nm)))
                    &&& final(self).messages_of(nm) == old(self).messages_of(nm)
                    &&& (forall|other: Seq<char>|
                        other != nm ==> final(self).messages_of(other) == old(self).messages_of(
                            other,
                        ) && final(self).read_count_of(other) == old(self).read_count_of(other))
                })
            }),
            (command == 2 && !spec_name_absent(queue_name)) ==> ({
                let nm = queue_name.unwrap()@;
                &&& (data is None ==> (r matches Some(resp) && resp.response_code == 1
                    && resp.response_message == 6 && resp.response_data is None && *final(self)
                    == *old(self)))
                &&& (data matches Some(d) ==> {
                    &&& (old(self).can_store(nm, d@.len() as int) ==> (r matches Some(resp)
                        && resp.response_code == 0 && resp.response_message == 0
                        && resp.response_data is None && final(self).messages_of(nm) == old(
                        self,
                    ).messages_of(nm).push(d@) && final(self).read_count_of(nm) == old(
                        self,
                    ).read_count_of(nm)))
                    &&& (!old(self).can_store(nm, d@.len() as int) ==> (r matches Some(resp)
                        && resp.response_code == 1 && resp.response_message == 4 && (
                    resp.response_data matches Some(v) && v@ == encode_utf8("no space left"@))
                        && final(self).messages_of(nm) == old(self).messages_of(nm)))
                    &&& (forall|other: Seq<char>|
                        other != nm ==> final(self).messages_of(other) == old(self).messages_of(
                            other,
                        ) && final(self).read_count_of(other) == old(self).read_count_of(other))
                })
            }),
            ((command == 3 || command == 4 || command > 4) && !spec_name_absent(queue_name)) ==> (
            r matches Some(resp) && resp.response_code == 1 && resp.response_message == 4 && (
            resp.response_data matches Some(v) && v@ == encode_utf8("unsupported command"@))
                && *final(self) == *old(self)),
    {
        let decoded = Commands::from_u32(command);
        if matches!(decoded, Commands::QUIT) {
            return None;
        }
        let absent = match &queue_name {
            None => true,
            Some(s) => s.as_str().is_empty(),
        };
        if absent {
            return Some(
                Response::new(ResponseCode::Error, ResponseMessage::QueueNameRequired, None),
            );
        }
        let name = match queue_name {
            Some(s) => s,
            None => unreached(),
        };
        if matches!(decoded, Commands::SUBSCRIBE) {
            let ghost topics0 = self.topics@;
            match self.find_topic(&name) {
                None => Some(
                    Response::new(ResponseCode::Okay, ResponseMessage::NoNewMessages, None),
                ),
                Some(idx) => {
                    let mut log = self.topics.remove(idx);
                    let res = log.read();
                    self.topics.insert(idx, log);
                    proof {
                        assert(self.topics@ =~= topics0.update(
                            idx as int,
                            self.topics@[idx as int],
                        ));
                        assert(forall|i: int|
                            0 <= i < topics0.len() ==> (#[trigger] self.topics@[i]).name@
                                == topics0[i].name@);
                        lemma_find_matches(topics0, name@, 0);
                        lemma_find_congruent(self.topics@, topics0, name@, 0);
                        assert forall|other: Seq<char>| other != name@ implies spec_messages_of(
                            self.topics@,
                            other,
                        ) == spec_messages_of(topics0, other) && spec_read_count_of(
                            self.topics@,
                            other,
                        ) == spec_read_count_of(topics0, other) by {
                            lemma_find_congruent(self.topics@, topics0, other, 0);
                            lemma_find_matches(topics0, other, 0);
                        }
                        assert forall|a: int, b: int|
                            #![trigger self.topics@[a].name@, self.topics@[b].name@]
                            0 <= a < b < self.topics@.len() implies self.topics@[a].name@
                            != self.topics@[b].name@ by {
                            assert(topics0[a].name@ != topics0[b].name@);
                        }
                    }
                    match res {
                        Ok(v) => Some(
                            Response::new(
                                ResponseCode::Okay,
                                ResponseMessage::ResponseWithBody,
                                Some(v),
                            ),
                        ),
                        Err(_) => Some(
                            Response::new(ResponseCode::Okay, ResponseMessage::NoNewMessages, None),
                        ),
                    }
                },
            }
        } else if matches!(decoded, Commands::PUBLISH) {
            let d = match data {
                Some(d) => d,
                None => {
                    return Some(
                        Response::new(
                            ResponseCode::Error,
                            ResponseMessage::MessageBodyRequired,
                            None,
                        ),
                    );
                },
            };
            let found = match self.find_topic(&name) {
                Some(_) => true,
                None => false,
            };
            if found {
                match self.save_to_queue(&name, d.as_slice()) {
                    Ok(_) => Some(
                        Response::new(ResponseCode::Okay, ResponseMessage::EmptyResponse, None),
                    ),
                    Err(_) => {
                        let body = Self::diagnostic_body("no space left");
                        proof {
                            reveal_strlit("no space left");
                            assert("no space left".is_ascii());
                            vstd::string::is_ascii_spec_bytes("no space left");
                        }
                        Some(
                            Response::new(
                                ResponseCode::Error,
                                ResponseMessage::ErrorResponse,
                                Some(body),
                            ),
                        )
                    },
                }
            } else {
                match self.create_new_queue(&name, d.as_slice()) {
                    Ok(_) => Some(
                        Response::new(ResponseCode::Okay, ResponseMessage::EmptyResponse, None),
                    ),
                    Err(_) => {
                        let body = Self::diagnostic_body("no space left");
                        proof {
                            reveal_strlit("no space left");
                            assert("no space left".is_ascii());
                            vstd::string::is_ascii_spec_bytes("no space left");
                        }
                        Some(
                            Response::new(
                                ResponseCode::Error,
                                ResponseMessage::ErrorResponse,
                                Some(body),
                            ),
                        )
                    },
                }
            }
        } else {
            let body = Self::diagnostic_body("unsupported command");
            proof {
                reveal_strlit("unsupported command");
                assert("unsupported command".is_ascii());
                vstd::string::is_ascii_spec_bytes("unsupported command");
            }
            Some(Response::new(ResponseCode::Error, ResponseMessage::ErrorResponse, Some(body)))
        }
    }

    /// Forwards one decoded frame into the dispatcher; the response and the
    /// state change are exactly those of `handle_client_command`.
    pub fn decode_buffer(&mut self, command: u32, payload: Option<Vec<u8>>, queue_name: Option<
        String,
    >) -> (r: Option<Response>)
        requires
            old(self).wf(),
        ensures
            final(self).wf(),
            final(self).segment_size == old(self).segment_size,
            final(self).dir_path == old(self).dir_path,
            command == 0 ==> r is None && *final(self) == *old(self),
            command != 0 ==> r is Some,
            r matches Some(resp) ==> resp@.wf(),
            (command != 0 && spec_name_absent(queue_name)) ==> (r matches Some(resp)
                && resp.response_code == 1 && resp.response_message == 5 && resp.response_data
                is None && *final(self) == *old(self)),
            (command == 1 && !spec_name_absent(queue_name)) ==> ({
                let nm = queue_name.unwrap()@;
                &&& (!old(self).has_topic(nm) ==> (r matches Some(resp) && resp.response_code == 0
                    && resp.response_message == 1 && resp.response_data is None && *final(self)
                    == *old(self)))
                &&& (old(self).has_topic(nm) ==> {
                    &&& (old(self).read_count_of(nm) < old(self).messages_of(nm).len() ==> (
                    r matches Some(resp) && resp.response_code == 0 && resp.response_message == 2
                        && (resp.response_data matches Some(v) && v@ == old(self).messages_of(nm)[
                        old(self).read_count_of(nm)]) && final(self).read_count_of(nm) == old(
                        self,
                    ).read_count_of(nm) + 1))
                    &&& (old(self).read_count_of(nm) >= old(self).messages_of(nm).len() ==> (
                    r matches Some(resp) && resp.response_code == 0 && resp.response_message == 1
                        && resp.response_data is None && final(self).read_count_of(nm) == old(
                        self,
                    ).read_count_of(nm)))
                    &&& final(self).messages_of(nm) == old(self).messages_of(nm)
                    &&& (forall|other: Seq<char>|
                        other != nm ==> final(self).messages_of(other) == old(self).messages_of(
                            other,
                        ) && final(self).read_count_of(other) == old(self).read_count_of(other))
                })
            }),
            (command == 2 && !spec_name_absent(queue_name)) ==> ({
                let nm = queue_name.unwrap()@;
                &&& (payload is None ==> (r matches Some(resp) && resp.response_code == 1
                    && resp.response_message == 6 && resp.response_data is None && *final(self)
                    == *old(self)))
                &&& (payload matches Some(d) ==> {
                    &&& (old(self).can_store(nm, d@.len() as int) ==> (r matches Some(resp)
                        && resp.response_code == 0 && resp.response_message == 0
                        && resp.response_data is None && final(self).messages_of(nm) == old(
                        self,
                    ).messages_of(nm).push(d@) && final(self).read_count_of(nm) == old(
                        self,
                    ).read_count_of(nm)))
                    &&& (!old(self).can_store(nm, d@.len() as int) ==> (r matches Some(resp)
                        && resp.response_code == 1 && resp.response_message == 4 && (
                    resp.response_data matches Some(v) && v@ == encode_utf8("no space left"@))
                        && final(self).messages_of(nm) == old(self).messages_of(nm)))
                    &&& (forall|other: Seq<char>|
                        other != nm ==> final(self).messages_of(other) == old(self).messages_of(
                            other,
                        ) && final(self).read_count_of(other) == old(self).read_count_of(other))
                })
            }),
            ((command == 3 || command == 4 || command > 4) && !spec_name_absent(queue_name)) ==> (
            r matches Some(resp) && resp.response_code == 1 && resp.response_message == 4 && (
            resp.response_data matches Some(v) && v@ == encode_utf8("unsupported command"@))
                && *final(self) == *old(self)),
    {
        self.handle_client_command(command, payload, queue_name)
    }
}

/// Whether a request carries no usable queue name: none at all, or an empty
/// one.
pub open spec fn spec_name_absent(queue_name: Option<String>) -> bool {
    match queue_name {
        None => true,
        Some(s) => s@.len() == 0,
    }
}

/// A topic appended behind names that all differ from its own is found at
/// its position.
proof fn lemma_find_push_self(topics: Seq<CommitLog>, t: CommitLog, k: int)
    requires
        0 <= k <= topics.len(),
        forall|i: int| k <= i < topics.len() ==> (#[trigger] topics[i]).name@ != t.name@,
    ensures
        spec_find_topic(topics.push(t), t.name@, k) == topics.len(),
    decreases topics.len() - k,
{
    if k < topics.len() {
        lemma_find_push_self(topics, t, k + 1);
    }
}

} // verus!
