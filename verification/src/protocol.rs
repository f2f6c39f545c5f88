//! The length-framed binary wire protocol: request frames (`BinaryHeader`),
//! payload records (`Topic`), response frames (`Response`), and the splitting
//! of a byte stream into complete frames.
//!
//! Every frame kind has a ghost model (`HeaderView`, `TopicView`,
//! `ResponseView`), a byte-level encoding spec, a decoding spec, and proofs
//! that decoding inverts encoding.

use vstd::prelude::*;

verus! {

use vstd::pervasive::unreached;
use vstd::slice::{slice_subrange, slice_to_vec};
use vstd::utf8::{
    decode_utf8, encode_utf8, encode_utf8_decode_utf8, encode_utf8_valid_utf8, valid_utf8,
};
use crate::wire::{
    spec_u16_to_be_bytes, spec_u16_from_be_bytes, spec_u32_to_be_bytes, spec_u32_from_be_bytes,
    spec_u64_to_be_bytes, spec_u64_from_be_bytes, u16_to_be_bytes, u32_to_be_bytes,
    u64_to_be_bytes, u16_from_be_at, u32_from_be_at, u64_from_be_at,
    lemma_u16_be_bytes_round_trip, lemma_u32_be_bytes_round_trip, lemma_u64_be_bytes_round_trip,
};

/// Decodes a byte vector as UTF-8.
///
/// Relies on `String::from_utf8`: it returns `Ok` exactly on valid UTF-8
/// input, and the returned string is backed by the given bytes.
#[verifier::external_body]
pub(crate) fn bytes_to_string(b: &[u8]) -> (r: Option<String>)
    ensures
        r matches Some(s) ==> encode_utf8(s@) == b@,
        valid_utf8(b@) ==> r is Some,
{
    match String::from_utf8(b.to_vec()) {
        Ok(s) => Some(s),
        Err(_) => None,
    }
}

/// The mathematical model of a request frame.
#[verifier::ext_equal]
pub ghost struct HeaderView {
    pub command: u32,
    pub length: u32,
    pub payload_length: u32,
    pub queue_name: Option<Seq<char>>,
    pub payload: Option<Seq<u8>>,
}

impl HeaderView {
    /// The bytes the queue name contributes to the frame.
    pub open spec fn name_bytes(self) -> Seq<u8> {
        match self.queue_name {
            Some(s) => encode_utf8(s),
            None => Seq::empty(),
        }
    }

    /// The bytes the payload contributes to the frame.
    pub open spec fn payload_bytes(self) -> Seq<u8> {
        match self.payload {
            Some(p) => p,
            None => Seq::empty(),
        }
    }

    /// The two length fields agree with the variable-width parts.
    pub open spec fn wf(self) -> bool {
        &&& self.payload_length == self.payload_bytes().len()
        &&& self.length == 12 + self.name_bytes().len() + self.payload_length
    }

    /// The byte encoding of a request frame.
    pub open spec fn encode(self) -> Seq<u8> {
        spec_u32_to_be_bytes(self.command) + spec_u32_to_be_bytes(self.length)
            + spec_u32_to_be_bytes(self.payload_length) + self.name_bytes() + self.payload_bytes()
    }
}

/// The declared total length of the frame starting at the head of `data`.
pub open spec fn spec_frame_length(data: Seq<u8>) -> u32
    recommends
        data.len() >= 8,
{
    spec_u32_from_be_bytes(data.subrange(4, 8))
}

/// The declared payload length of the request frame at the head of `data`.
pub open spec fn spec_frame_payload_length(data: Seq<u8>) -> u32
    recommends
        data.len() >= 12,
{
    spec_u32_from_be_bytes(data.subrange(8, 12))
}

/// The bytes form one decodable request frame: the length fields are
/// consistent and the queue name region is valid UTF-8.
pub open spec fn valid_header_bytes(data: Seq<u8>) -> bool {
    &&& data.len() >= 12
    &&& spec_frame_length(data) <= data.len()
    &&& 12 + spec_frame_payload_length(data) <= spec_frame_length(data)
    &&& valid_utf8(
        data.subrange(12, spec_frame_length(data) - spec_frame_payload_length(data)),
    )
}

/// The model decoded from one request frame.
pub open spec fn spec_decode_header(data: Seq<u8>) -> HeaderView
    recommends
        valid_header_bytes(data),
{
    let length = spec_frame_length(data) as int;
    let pl = spec_frame_payload_length(data) as int;
    HeaderView {
        command: spec_u32_from_be_bytes(data.subrange(0, 4)),
        length: spec_frame_length(data),
        payload_length: spec_frame_payload_length(data),
        queue_name: Some(decode_utf8(data.subrange(12, length - pl))),
        payload: if pl > 0 {
            Some(data.subrange(length - pl, length))
        } else {
            None
        },
    }
}

/// A request frame: command word, two length fields, queue name, payload.
#[derive(PartialEq, Debug, Clone)]
pub struct BinaryHeader {
    pub command: u32,
    pub length: u32,
    pub payload_length: u32,
    pub queue_name: Option<String>,
    pub payload: Option<Vec<u8>>,
}

impl View for BinaryHeader {
    type V = HeaderView;

    open spec fn view(&self) -> HeaderView {
        HeaderView {
            command: self.command,
            length: self.length,
            payload_length: self.payload_length,
            queue_name: match self.queue_name {
                Some(s) => Some(s@),
                None => None,
            },
            payload: match self.payload {
                Some(p) => Some(p@),
                None => None,
            },
        }
    }
}

impl BinaryHeader {
    /// Builds a frame whose length fields match its contents.
    pub fn new(command: u32, queue_name: Option<String>, payload: Option<Vec<u8>>) -> (r:
        BinaryHeader)
        requires
            12 + (match queue_name {
                Some(s) => encode_utf8(s@).len(),
                None => 0,
            }) + (match payload {
                Some(p) => p@.len(),
                None => 0,
            }) <= u32::MAX,
        ensures
            r@.wf(),
            r.command == command,
            r.queue_name == queue_name,
            r.payload == payload,
            r.payload_length == r@.payload_bytes().len(),
            r.length == 12 + r@.name_bytes().len() + r@.payload_bytes().len(),
    {
        let payload_length: u32 = match &payload {
            Some(p) => p.len() as u32,
            None => 0,
        };
        let queue_name_len: u32 = match &queue_name {
            Some(s) => s.as_str().len() as u32,
            None => 0,
        };
        BinaryHeader {
            command,
            length: 12 + payload_length + queue_name_len,
            payload,
            queue_name,
            payload_length,
        }
    }

    /// Emits the frame's byte encoding; for a well-formed frame the emitted
    /// byte count equals the `length` field.
    pub fn to_bytes(&self) -> (r: Vec<u8>)
        ensures
            r@ == self@.encode(),
            self@.wf() ==> r@.len() == self.length,
    {
        let mut binary: Vec<u8> = Vec::new();
        let mut command = u32_to_be_bytes(self.command);
        binary.append(&mut command);
        let mut length = u32_to_be_bytes(self.length);
        binary.append(&mut length);
        let mut payload_length = u32_to_be_bytes(self.payload_length);
        binary.append(&mut payload_length);
        match &self.queue_name {
            Some(queue_name) => {
                binary.extend_from_slice(queue_name.as_str().as_bytes());
            },
            None => {},
        }
        match &self.payload {
            Some(data) => {
                binary.extend_from_slice(data.as_slice());
            },
            None => {},
        }
        assert(binary@ =~= self@.encode());
        binary
    }

    /// Decodes one complete request frame.
    pub fn from_bytes(data: &[u8]) -> (r: BinaryHeader)
        requires
            valid_header_bytes(data@),
        ensures
            r@ == spec_decode_header(data@),
    {
        let command = u32_from_be_at(data, 0);
        let length = u32_from_be_at(data, 4);
        let payload_length = u32_from_be_at(data, 8);
        let queue_name_end_pos: usize = (length - payload_length) as usize;
        let name_slice = slice_subrange(data, 12, queue_name_end_pos);
        let queue_name = match bytes_to_string(name_slice) {
            Some(s) => Some(s),
            None => unreached(),
        };
        let payload = if payload_length > 0 {
            Some(slice_to_vec(slice_subrange(data, queue_name_end_pos, length as usize)))
        } else {
            None
        };
        let r = BinaryHeader { command, length, payload_length, queue_name, payload };
        proof {
            let nb = data@.subrange(12, length - payload_length);
            let s = r.queue_name.unwrap();
            encode_utf8_decode_utf8(s@);
            assert(decode_utf8(nb) == s@);
            assert(r@ =~= spec_decode_header(data@));
        }
        r
    }
}

/// Decides whether `BinaryHeader::from_bytes` accepts these bytes: the
/// length fields are consistent and the queue name region is valid UTF-8.
/// A connection feeds each complete frame through this test and drops the
/// peer on a malformed one.
pub fn check_frame(data: &[u8]) -> (b: bool)
    ensures
        b == valid_header_bytes(data@),
{
    if data.len() < 12 {
        return false;
    }
    let length = u32_from_be_at(data, 4);
    let payload_length = u32_from_be_at(data, 8);
    if (length as usize) > data.len() {
        return false;
    }
    if length < 12 || payload_length > length - 12 {
        return false;
    }
    let queue_name_end_pos = (length - payload_length) as usize;
    match bytes_to_string(slice_subrange(data, 12, queue_name_end_pos)) {
        Some(s) => {
            proof {
                encode_utf8_valid_utf8(s@);
            }
            true
        },
        None => false,
    }
}

/// Round trip for request frames: encoding a well-formed header whose queue
/// name is present and whose payload, if present, is non-empty, and decoding
/// the result, yields the original model.
pub proof fn lemma_header_round_trip(h: HeaderView)
    requires
        h.wf(),
        h.queue_name is Some,
        h.payload matches Some(p) ==> p.len() > 0,
    ensures
        valid_header_bytes(h.encode()),
        spec_decode_header(h.encode()) == h,
{
    let e = h.encode();
    lemma_u32_be_bytes_round_trip(h.command);
    lemma_u32_be_bytes_round_trip(h.length);
    lemma_u32_be_bytes_round_trip(h.payload_length);
    assert(e.subrange(0, 4) =~= spec_u32_to_be_bytes(h.command));
    assert(e.subrange(4, 8) =~= spec_u32_to_be_bytes(h.length));
    assert(e.subrange(8, 12) =~= spec_u32_to_be_bytes(h.payload_length));
    let nb = h.name_bytes();
    let pb = h.payload_bytes();
    assert(e.subrange(12, 12 + nb.len() as int) =~= nb);
    assert(e.subrange(12 + nb.len() as int, e.len() as int) =~= pb);
    encode_utf8_valid_utf8(h.queue_name.unwrap());
    encode_utf8_decode_utf8(h.queue_name.unwrap());
    assert(spec_decode_header(e) =~= h);
}

/// The mathematical model of a stored payload record.
#[verifier::ext_equal]
pub ghost struct TopicView {
    pub id: u32,
    pub length: u32,
    pub timestamp: u64,
    pub message: Seq<u8>,
}

impl TopicView {
    /// The length field counts the 16 header bytes plus the message.
    pub open spec fn wf(self) -> bool {
        self.length == 16 + self.message.len()
    }

    /// The byte encoding of a payload record.
    pub open spec fn encode(self) -> Seq<u8> {
        spec_u32_to_be_bytes(self.id) + spec_u32_to_be_bytes(self.length) + spec_u64_to_be_bytes(
            self.timestamp,
        ) + self.message
    }
}

/// The bytes form one decodable payload record.
pub open spec fn valid_topic_bytes(data: Seq<u8>) -> bool {
    &&& data.len() >= 16
    &&& 16 <= spec_frame_length(data) <= data.len()
}

/// The model decoded from one payload record.
pub open spec fn spec_decode_topic(data: Seq<u8>) -> TopicView
    recommends
        valid_topic_bytes(data),
{
    TopicView {
        id: spec_u32_from_be_bytes(data.subrange(0, 4)),
        length: spec_frame_length(data),
        timestamp: spec_u64_from_be_bytes(data.subrange(8, 16)),
        message: data.subrange(16, spec_frame_length(data) as int),
    }
}

/// A payload record: the value a publisher stores under a topic.
#[derive(PartialEq, Debug)]
pub struct Topic {
    pub id: u32,
    pub length: u32,
    pub timestamp: u64,
    pub message: Vec<u8>,
}

impl View for Topic {
    type V = TopicView;

    open spec fn view(&self) -> TopicView {
        TopicView { id: self.id, length: self.length, timestamp: self.timestamp, message: self.message@ }
    }
}

impl Topic {
    /// Builds a record whose length field matches its message.
    pub fn new(id: u32, timestamp: u64, message: Vec<u8>) -> (r: Topic)
        requires
            16 + message@.len() <= u32::MAX,
        ensures
            r@.wf(),
            r.id == id,
            r.timestamp == timestamp,
            r.message == message,
    {
        Topic { id, length: 16 + message.len() as u32, timestamp, message }
    }

    /// Emits the record's byte encoding.
    pub fn to_bytes(&self) -> (r: Vec<u8>)
        ensures
            r@ == self@.encode(),
            self@.wf() ==> r@.len() == self.length,
    {
        let mut payload: Vec<u8> = Vec::new();
        let mut id = u32_to_be_bytes(self.id);
        payload.append(&mut id);
        let mut length = u32_to_be_bytes(self.length);
        payload.append(&mut length);
        let mut timestamp = u64_to_be_bytes(self.timestamp);
        payload.append(&mut timestamp);
        payload.extend_from_slice(self.message.as_slice());
        assert(payload@ =~= self@.encode());
        payload
    }

    /// Decodes one payload record.
    pub fn from_bytes(data: &[u8]) -> (r: Topic)
        requires
            valid_topic_bytes(data@),
        ensures
            r@ == spec_decode_topic(data@),
    {
        let id = u32_from_be_at(data, 0);
        let length = u32_from_be_at(data, 4);
        let timestamp = u64_from_be_at(data, 8);
        let message = slice_to_vec(slice_subrange(data, 16, length as usize));
        let r = Topic { id, length, timestamp, message };
        proof {
            assert(r@ =~= spec_decode_topic(data@));
        }
        r
    }
}

/// Round trip for payload records: decoding the encoding of a well-formed
/// record yields the original model.
pub proof fn lemma_topic_round_trip(t: TopicView)
    requires
        t.wf(),
    ensures
        valid_topic_bytes(t.encode()),
        spec_decode_topic(t.encode()) == t,
{
    let e = t.encode();
    lemma_u32_be_bytes_round_trip(t.id);
    lemma_u32_be_bytes_round_trip(t.length);
    lemma_u64_be_bytes_round_trip(t.timestamp);
    assert(e.subrange(0, 4) =~= spec_u32_to_be_bytes(t.id));
    assert(e.subrange(4, 8) =~= spec_u32_to_be_bytes(t.length));
    assert(e.subrange(8, 16) =~= spec_u64_to_be_bytes(t.timestamp));
    assert(e.subrange(16, e.len() as int) =~= t.message);
    assert(spec_decode_topic(e) =~= t);
}

/// Whether a response carries an overall success or failure.
#[derive(Debug)]
pub enum ResponseCode {
    Okay,
    Error,
}

impl ResponseCode {
    /// The wire value of this code.
    pub open spec fn spec_value(self) -> u16 {
        match self {
            ResponseCode::Okay => 0,
            ResponseCode::Error => 1,
        }
    }

    /// Emits the wire value of this code.
    pub fn value(&self) -> (r: u16)
        ensures
            r == self.spec_value(),
    {
        match self {
            ResponseCode::Okay => 0,
            ResponseCode::Error => 1,
        }
    }
}

/// What a response says, beyond success or failure.
#[derive(Debug)]
pub enum ResponseMessage {
    /// No body to attach to the response.
    EmptyResponse,
    /// No new messages in the queue.
    NoNewMessages,
    /// A response carrying a stored payload record.
    ResponseWithBody,
    /// A response carrying a UTF-8 diagnostic body.
    ResponseWithMessage,
    /// An error carrying a UTF-8 diagnostic body.
    ErrorResponse,
    /// The request omitted the queue name.
    QueueNameRequired,
    /// The publish request omitted its payload.
    MessageBodyRequired,
    UNKNOWN,
}

impl ResponseMessage {
    /// The wire value of this message kind.
    pub open spec fn spec_value(self) -> u16 {
        match self {
            ResponseMessage::EmptyResponse => 0,
            ResponseMessage::NoNewMessages => 1,
            ResponseMessage::ResponseWithBody => 2,
            ResponseMessage::ResponseWithMessage => 3,
            ResponseMessage::ErrorResponse => 4,
            ResponseMessage::QueueNameRequired => 5,
            ResponseMessage::MessageBodyRequired => 6,
            ResponseMessage::UNKNOWN => 7,
        }
    }

    /// Emits the wire value of this message kind.
    pub fn value(&self) -> (r: u16)
        ensures
            r == self.spec_value(),
    {
        match self {
            ResponseMessage::EmptyResponse => 0,
            ResponseMessage::NoNewMessages => 1,
            ResponseMessage::ResponseWithBody => 2,
            ResponseMessage::ResponseWithMessage => 3,
            ResponseMessage::ErrorResponse => 4,
            ResponseMessage::QueueNameRequired => 5,
            ResponseMessage::MessageBodyRequired => 6,
            ResponseMessage::UNKNOWN => 7,
        }
    }

    /// There is no default message kind.
    pub fn new() -> (r: Option<ResponseMessage>)
        ensures
            r is None,
    {
        None
    }

    /// Maps a wire value back to its message kind, following the response
    /// enumeration; values beyond the table are kept as `UNKNOWN`.
    pub fn from_u16(value: u16) -> (r: ResponseMessage)
        ensures
            value <= 7 ==> r.spec_value() == value,
            value == 0 ==> r is EmptyResponse,
            value == 1 ==> r is NoNewMessages,
            value == 2 ==> r is ResponseWithBody,
            value == 3 ==> r is ResponseWithMessage,
            value == 4 ==> r is ErrorResponse,
            value == 5 ==> r is QueueNameRequired,
            value == 6 ==> r is MessageBodyRequired,
            value > 6 ==> r is UNKNOWN,
    {
        match value {
            0 => ResponseMessage::EmptyResponse,
            1 => ResponseMessage::NoNewMessages,
            2 => ResponseMessage::ResponseWithBody,
            3 => ResponseMessage::ResponseWithMessage,
            4 => ResponseMessage::ErrorResponse,
            5 => ResponseMessage::QueueNameRequired,
            6 => ResponseMessage::MessageBodyRequired,
            _ => ResponseMessage::UNKNOWN,
        }
    }
}

/// The mathematical model of a response frame.
#[verifier::ext_equal]
pub ghost struct ResponseView {
    pub response_code: u16,
    pub response_message: u16,
    pub response_length: u32,
    pub response_data: Option<Seq<u8>>,
}

impl ResponseView {
    /// The bytes the body contributes to the frame.
    pub open spec fn data_bytes(self) -> Seq<u8> {
        match self.response_data {
            Some(d) => d,
            None => Seq::empty(),
        }
    }

    /// The length field counts the 8 header bytes plus the body.
    pub open spec fn wf(self) -> bool {
        self.response_length == 8 + self.data_bytes().len()
    }

    /// The byte encoding of a response frame.
    pub open spec fn encode(self) -> Seq<u8> {
        spec_u16_to_be_bytes(self.response_code) + spec_u16_to_be_bytes(self.response_message)
            + spec_u32_to_be_bytes(self.response_length) + self.data_bytes()
    }
}

/// The bytes form one decodable response frame.
pub open spec fn valid_response_bytes(data: Seq<u8>) -> bool {
    &&& data.len() >= 8
    &&& 8 <= spec_frame_length(data) <= data.len()
}

/// The model decoded from one response frame.
pub open spec fn spec_decode_response(data: Seq<u8>) -> ResponseView
    recommends
        valid_response_bytes(data),
{
    ResponseView {
        response_code: spec_u16_from_be_bytes(data.subrange(0, 2)),
        response_message: spec_u16_from_be_bytes(data.subrange(2, 4)),
        response_length: spec_frame_length(data),
        response_data: if spec_frame_length(data) > 8 {
            Some(data.subrange(8, spec_frame_length(data) as int))
        } else {
            None
        },
    }
}

/// A response frame, as written back to the requesting connection.
#[derive(PartialEq, Debug)]
pub struct Response {
    pub response_code: u16,
    pub response_message: u16,
    pub response_length: u32,
    pub response_data: Option<Vec<u8>>,
}

impl View for Response {
    type V = ResponseView;

    open spec fn view(&self) -> ResponseView {
        ResponseView {
            response_code: self.response_code,
            response_message: self.response_message,
            response_length: self.response_length,
            response_data: match self.response_data {
                Some(d) => Some(d@),
                None => None,
            },
        }
    }
}

impl Response {
    /// Builds a response whose length field matches its body.
    pub fn new(
        response_code: ResponseCode,
        response_message: ResponseMessage,
        response_data: Option<Vec<u8>>,
    ) -> (r: Response)
        requires
            8 + (match response_data {
                Some(d) => d@.len(),
                None => 0,
            }) <= u32::MAX,
        ensures
            r@.wf(),
            r.response_code == response_code.spec_value(),
            r.response_message == response_message.spec_value(),
            r.response_data == response_data,
    {
        let len_data: u32 = match &response_data {
            Some(d) => d.len() as u32,
            None => 0,
        };
        Response {
            response_code: response_code.value(),
            response_message: response_message.value(),
            response_length: 8 + len_data,
            response_data,
        }
    }

    /// Emits the response's byte encoding.
    pub fn to_bytes(&self) -> (r: Vec<u8>)
        ensures
            r@ == self@.encode(),
            self@.wf() ==> r@.len() == self.response_length,
    {
        let mut payload: Vec<u8> = Vec::new();
        let mut code = u16_to_be_bytes(self.response_code);
        payload.append(&mut code);
        let mut message = u16_to_be_bytes(self.response_message);
        payload.append(&mut message);
        let mut length = u32_to_be_bytes(self.response_length);
        payload.append(&mut length);
        match &self.response_data {
            Some(data) => {
                payload.extend_from_slice(data.as_slice());
            },
            None => {},
        }
        assert(payload@ =~= self@.encode());
        payload
    }

    /// Decodes one response frame.
    pub fn from_bytes(data: &[u8]) -> (r: Response)
        requires
            valid_response_bytes(data@),
        ensures
            r@ == spec_decode_response(data@),
    {
        let response_code = u16_from_be_at(data, 0);
        let response_message = u16_from_be_at(data, 2);
        let response_length = u32_from_be_at(data, 4);
        let response_data = if response_length > 8 {
            Some(slice_to_vec(slice_subrange(data, 8, response_length as usize)))
        } else {
            None
        };
        let r = Response { response_code, response_message, response_length, response_data };
        proof {
            assert(r@ =~= spec_decode_response(data@));
        }
        r
    }
}

/// Round trip for response frames: decoding the encoding of a well-formed
/// response whose body, if present, is non-empty, yields the original model.
pub proof fn lemma_response_round_trip(r: ResponseView)
    requires
        r.wf(),
        r.response_data matches Some(d) ==> d.len() > 0,
    ensures
        valid_response_bytes(r.encode()),
        spec_decode_response(r.encode()) == r,
{
    let e = r.encode();
    lemma_u16_be_bytes_round_trip(r.response_code);
    lemma_u16_be_bytes_round_trip(r.response_message);
    lemma_u32_be_bytes_round_trip(r.response_length);
    assert(e.subrange(0, 2) =~= spec_u16_to_be_bytes(r.response_code));
    assert(e.subrange(2, 4) =~= spec_u16_to_be_bytes(r.response_message));
    assert(e.subrange(4, 8) =~= spec_u32_to_be_bytes(r.response_length));
    assert(e.subrange(8, e.len() as int) =~= r.data_bytes());
    assert(spec_decode_response(e) =~= r);
}

/// How one pass over buffered connection bytes divides them: either a
/// malformed frame was found, or a list of complete frames and the
/// unconsumed tail.
pub open spec fn spec_split_frames(data: Seq<u8>) -> Option<(Seq<Seq<u8>>, Seq<u8>)>
    decreases data.len(),
{
    if data.len() < 8 {
        Some((Seq::empty(), data))
    } else {
        let flen = spec_frame_length(data) as int;
        if flen < 12 {
            None
        } else if flen > data.len() {
            Some((Seq::empty(), data))
        } else {
            match spec_split_frames(data.skip(flen)) {
                Some(rest) => Some((seq![data.take(flen)] + rest.0, rest.1)),
                None => None,
            }
        }
    }
}

/// Divides buffered connection bytes into complete frames and a leftover
/// tail, stopping at the first frame whose declared length is shorter than a
/// frame header; `None` reports that malformed frame.
pub fn split_frames(data: &[u8]) -> (r: Option<(Vec<Vec<u8>>, Vec<u8>)>)
    ensures
        r is None <==> spec_split_frames(data@) is None,
        r matches Some(p) ==> spec_split_frames(data@) == Some((p.0.deep_view(), p.1@)),
{
    let mut frames: Vec<Vec<u8>> = Vec::new();
    let mut offset: usize = 0;
    let len: usize = data.len();
    proof {
        assert(data@.skip(0) =~= data@);
        assert(frames.deep_view() =~= Seq::<Seq<u8>>::empty());
        if spec_split_frames(data@) is Some {
            let rest = spec_split_frames(data@).unwrap();
            assert(frames.deep_view() + rest.0 =~= rest.0);
            assert((frames.deep_view() + rest.0, rest.1) == rest);
        }
    }
    loop
        invariant
            offset <= len,
            len == data@.len(),
            spec_split_frames(data@) == (match spec_split_frames(data@.skip(offset as int)) {
                Some(rest) => Some((frames.deep_view() + rest.0, rest.1)),
                None => None::<(Seq<Seq<u8>>, Seq<u8>)>,
            }),
        decreases len - offset,
    {
        let remaining = len - offset;
        let ghost tail = data@.skip(offset as int);
        if remaining < 8 {
            assert(spec_split_frames(tail) == Some((Seq::<Seq<u8>>::empty(), tail)));
            assert(frames.deep_view() + Seq::<Seq<u8>>::empty() =~= frames.deep_view());
            let leftover = slice_to_vec(slice_subrange(data, offset, len));
            assert(leftover@ =~= tail);
            return Some((frames, leftover));
        }
        let flen_raw = u32_from_be_at(data, offset + 4);
        proof {
            assert(data@.subrange(offset + 4, offset + 8) =~= tail.subrange(4, 8));
        }
        if flen_raw < 12 {
            assert(spec_split_frames(tail) is None);
            return None;
        }
        let flen = flen_raw as usize;
        if flen > remaining {
            assert(spec_split_frames(tail) == Some((Seq::<Seq<u8>>::empty(), tail)));
            assert(frames.deep_view() + Seq::<Seq<u8>>::empty() =~= frames.deep_view());
            let leftover = slice_to_vec(slice_subrange(data, offset, len));
            assert(leftover@ =~= tail);
            return Some((frames, leftover));
        }
        let frame = slice_to_vec(slice_subrange(data, offset, offset + flen));
        proof {
            assert(frame@ =~= tail.take(flen as int));
            assert(data@.skip(offset + flen as int) =~= tail.skip(flen as int));
        }
        let ghost frames0 = frames.deep_view();
        let ghost fv = frame.deep_view();
        proof {
            assert(fv =~= frame@);
        }
        frames.push(frame);
        proof {
            assert(frames.deep_view() =~= frames0.push(tail.take(flen as int)));
            if spec_split_frames(tail.skip(flen as int)) is Some {
                let rest = spec_split_frames(tail.skip(flen as int)).unwrap();
                assert(frames0 + (seq![tail.take(flen as int)] + rest.0) =~= frames0.push(
                    tail.take(flen as int),
                ) + rest.0);
            }
        }
        offset = offset + flen;
    }
}

} // verus!
