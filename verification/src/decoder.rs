//! Decoding a log against the signature of its event.
//!
//! The indexed parameters are taken from the topics that follow the first one, in
//! the order in which the signature declares them. The others are taken from the
//! data, which holds them as one tuple. What fails is reported in the result, and
//! the parameters that could be decoded are kept.

use crate::abi_type::{AbiType, AbiTypeView};
use crate::cache::EventSignatureCache;
use crate::descriptor::parsed_descriptor;
use crate::error::DecodeError;
use crate::hexdata::{decode_prefixed_hex, hex_payload};
use crate::param::{decode_head, decode_topic, decoded_at, decoded_topic};
use crate::parameters::{DecodedParameter, DecodedParameterView, ParameterMap};
use crate::text::{copy_optional, optional_text, text_eq};
use crate::value::{DecodedValue, ValueView};
use vstd::prelude::*;
use vstd::utf8::encode_utf8;

verus! {

/// The mathematical model of a log.
pub struct LogEntryView {
    pub address: Seq<char>,
    pub topics: Seq<Seq<char>>,
    pub data: Seq<char>,
    pub log_index: u64,
    pub transaction_hash: Seq<char>,
}

/// A log as a node reports it.
#[derive(Debug, Clone, PartialEq, Eq)]
pub struct LogEntry {
    /// The address of the contract that emitted the log, in hex.
    pub address: String,
    /// The topics, each a word in hex. The first is the hash of the event's signature.
    pub topics: Vec<String>,
    /// The data, in hex; `0x` or nothing where there is none.
    pub data: String,
    /// The position of the log in its block.
    pub log_index: u64,
    /// The hash of the transaction that emitted the log.
    pub transaction_hash: String,
}

/// The characters of each of `texts`.
pub open spec fn texts_of(texts: Seq<String>) -> Seq<Seq<char>> {
    Seq::new(texts.len(), |i: int| texts[i]@)
}

impl View for LogEntry {
    type V = LogEntryView;

    open spec fn view(&self) -> LogEntryView {
        LogEntryView {
            address: self.address@,
            topics: texts_of(self.topics@),
            data: self.data@,
            log_index: self.log_index,
            transaction_hash: self.transaction_hash@,
        }
    }
}

/// The mathematical model of one declared input.
pub struct EventInputView {
    pub name: Seq<char>,
    pub declared_type: Seq<char>,
    pub indexed: bool,
    pub description: Option<Seq<char>>,
}

/// One declared input of an event.
#[derive(Debug, Clone, PartialEq, Eq)]
pub struct EventInput {
    pub name: String,
    /// The type descriptor.
    pub declared_type: String,
    pub indexed: bool,
    pub description: Option<String>,
}

impl View for EventInput {
    type V = EventInputView;

    open spec fn view(&self) -> EventInputView {
        EventInputView {
            name: self.name@,
            declared_type: self.declared_type@,
            indexed: self.indexed,
            description: optional_text(self.description),
        }
    }
}

/// The mathematical model of a signature.
pub struct EventSignatureView {
    pub signature_hash: Seq<char>,
    pub event_name: Seq<char>,
    pub decoded_signature: Seq<char>,
    pub input_types: Seq<Seq<char>>,
    pub indexed_inputs: Seq<bool>,
    pub input_names: Seq<Seq<char>>,
    pub inputs: Seq<EventInputView>,
}

/// The signature of an event: its hash, its name, and what it declares of each
/// input, once in three parallel lists and once in a list of records.
#[derive(Debug, Clone, PartialEq, Eq)]
pub struct EventSignature {
    pub signature_hash: String,
    pub event_name: String,
    /// The signature as a reader would write it.
    pub decoded_signature: String,
    pub input_types: Vec<String>,
    pub indexed_inputs: Vec<bool>,
    pub input_names: Vec<String>,
    pub inputs: Vec<EventInput>,
}

impl View for EventSignature {
    type V = EventSignatureView;

    open spec fn view(&self) -> EventSignatureView {
        EventSignatureView {
            signature_hash: self.signature_hash@,
            event_name: self.event_name@,
            decoded_signature: self.decoded_signature@,
            input_types: texts_of(self.input_types@),
            indexed_inputs: self.indexed_inputs@,
            input_names: texts_of(self.input_names@),
            inputs: Seq::new(self.inputs@.len(), |i: int| self.inputs@[i]@),
        }
    }
}

impl EventSignatureView {
    /// Whether the record of input `i` says what the parallel lists say of it.
    pub open spec fn input_agrees(self, i: int) -> bool {
        &&& self.inputs[i].name == self.input_names[i]
        &&& self.inputs[i].declared_type == self.input_types[i]
        &&& self.inputs[i].indexed == self.indexed_inputs[i]
    }

    /// Whether the four lists have one length and agree on every input.
    pub open spec fn well_formed(self) -> bool {
        &&& self.indexed_inputs.len() == self.input_types.len()
        &&& self.input_names.len() == self.input_types.len()
        &&& self.inputs.len() == self.input_types.len()
        &&& forall|i: int| 0 <= i < self.input_types.len() ==> #[trigger] self.input_agrees(i)
    }
}

impl EventSignature {
    /// Whether the four lists have one length and agree on every input.
    pub fn is_well_formed(&self) -> (out: bool)
        ensures
            out == self@.well_formed(),
    {
        let count = self.input_types.len();
        if self.indexed_inputs.len() != count || self.input_names.len() != count
            || self.inputs.len() != count {
            return false;
        }
        let mut i: usize = 0;
        while i < count
            invariant
                i <= count,
                count == self.input_types@.len(),
                self.indexed_inputs@.len() == count,
                self.input_names@.len() == count,
                self.inputs@.len() == count,
                forall|j: int| 0 <= j < i ==> #[trigger] self@.input_agrees(j),
            decreases count - i,
        {
            let input = &self.inputs[i];
            if !text_eq(input.name.as_str(), self.input_names[i].as_str()) || !text_eq(
                input.declared_type.as_str(),
                self.input_types[i].as_str(),
            ) || input.indexed != self.indexed_inputs[i] {
                assert(!self@.input_agrees(i as int));
                return false;
            }
            i += 1;
        }
        true
    }
}

/// The mathematical model of a decoded log.
pub struct DecodedLogView {
    pub event: Seq<char>,
    pub parameters: Option<Map<Seq<char>, DecodedParameterView>>,
    pub signature: Option<Seq<char>>,
    pub decode_error: Option<Seq<char>>,
    pub log_index: u64,
}

/// What decoding made of a log.
#[derive(Debug, PartialEq, Eq)]
pub struct DecodedLog {
    /// The name of the event, or `Unknown`.
    pub event: String,
    /// The parameters that could be decoded, by name; absent where none was tried.
    pub parameters: Option<ParameterMap>,
    /// The first topic of the log.
    pub signature: Option<String>,
    /// The first thing that went wrong, if anything did.
    pub decode_error: Option<String>,
    /// The position of the log in its block.
    pub log_index: u64,
}

impl View for DecodedLog {
    type V = DecodedLogView;

    open spec fn view(&self) -> DecodedLogView {
        DecodedLogView {
            event: self.event@,
            parameters: match self.parameters {
                Some(parameters) => Some(parameters@),
                None => None,
            },
            signature: optional_text(self.signature),
            decode_error: optional_text(self.decode_error),
            log_index: self.log_index,
        }
    }
}

/// The parameters that were decoded so far, and the first error so far.
pub struct Outcome {
    pub parameters: Map<Seq<char>, DecodedParameterView>,
    pub error: Option<DecodeError>,
}

/// Where the walk over the indexed inputs stands.
pub struct TopicWalk {
    pub outcome: Outcome,
    /// The index of the next topic that no input has taken.
    pub next_topic: nat,
}

/// Where the walk over the inputs that lie in the data stands.
pub struct DataWalk {
    pub outcome: Outcome,
    /// Where the head slot of the next input starts.
    pub head: nat,
    /// Whether an input had a type of unknown size, so that no later one can be found.
    pub stuck: bool,
}

/// The earlier error where there is one, else the later one.
pub open spec fn first_error(earlier: Option<DecodeError>, later: DecodeError) -> Option<DecodeError> {
    match earlier {
        Some(e) => Some(e),
        None => Some(later),
    }
}

impl Outcome {
    /// This outcome with one more parameter.
    pub open spec fn with_parameter(self, name: Seq<char>, parameter: DecodedParameterView) -> Outcome {
        Outcome { parameters: self.parameters.insert(name, parameter), error: self.error }
    }

    /// This outcome with one more error.
    pub open spec fn with_error(self, error: DecodeError) -> Outcome {
        Outcome { parameters: self.parameters, error: first_error(self.error, error) }
    }

    /// This outcome after one more input had the result `decoded`.
    pub open spec fn with_result(
        self,
        signature: EventSignatureView,
        i: int,
        decoded: Result<ValueView, DecodeError>,
    ) -> Outcome {
        match decoded {
            Ok(value) => self.with_parameter(
                signature.input_names[i],
                DecodedParameterView {
                    value,
                    declared_type: signature.input_types[i],
                    indexed: signature.indexed_inputs[i],
                    description: signature.inputs[i].description,
                },
            ),
            Err(e) => self.with_error(e),
        }
    }
}

/// The value that `topic` holds of an input of the type that `descriptor` names.
pub open spec fn topic_value(topic: Seq<char>, descriptor: Seq<char>) -> Result<
    ValueView,
    DecodeError,
> {
    match parsed_descriptor(descriptor) {
        None => Err(DecodeError::UnsupportedType),
        Some(ty) => match hex_payload(encode_utf8(topic)) {
            None => Err(DecodeError::MalformedHexData),
            Some(bytes) => decoded_topic(ty, bytes),
        },
    }
}

/// The walk over the first `count` inputs that takes a topic for each indexed one,
/// as long as there are topics. It starts with the error of a first topic that is
/// not the hash of the signature.
pub open spec fn topic_walk(log: LogEntryView, signature: EventSignatureView, count: nat) -> TopicWalk
    decreases count,
{
    if count == 0 {
        TopicWalk {
            outcome: Outcome {
                parameters: Map::empty(),
                error: if log.topics[0] == signature.signature_hash {
                    None
                } else {
                    Some(DecodeError::SignatureMismatch)
                },
            },
            next_topic: 1,
        }
    } else {
        let before = topic_walk(log, signature, (count - 1) as nat);
        let i = count - 1;
        if !signature.indexed_inputs[i] || before.next_topic >= log.topics.len() {
            before
        } else {
            TopicWalk {
                outcome: before.outcome.with_result(
                    signature,
                    i,
                    topic_value(log.topics[before.next_topic as int], signature.input_types[i]),
                ),
                next_topic: before.next_topic + 1,
            }
        }
    }
}

/// The walk over the first `count` inputs that decodes from `data` each one that is
/// not indexed. It starts from the outcome `start`.
pub open spec fn data_walk(
    signature: EventSignatureView,
    data: Seq<u8>,
    start: Outcome,
    count: nat,
) -> DataWalk
    decreases count,
{
    if count == 0 {
        DataWalk { outcome: start, head: 0, stuck: false }
    } else {
        let before = data_walk(signature, data, start, (count - 1) as nat);
        let i = count - 1;
        if signature.indexed_inputs[i] || before.stuck {
            before
        } else {
            match parsed_descriptor(signature.input_types[i]) {
                None => DataWalk {
                    outcome: before.outcome.with_error(DecodeError::UnsupportedType),
                    head: before.head,
                    stuck: true,
                },
                Some(ty) => DataWalk {
                    outcome: before.outcome.with_result(
                        signature,
                        i,
                        decoded_at(ty, data, 0, before.head as int),
                    ),
                    head: before.head + ty.head_size(),
                    stuck: false,
                },
            }
        }
    }
}

/// Whether `data` says that there is no data.
pub open spec fn is_empty_data(data: Seq<char>) -> bool {
    data.len() == 0 || data == "0x"@
}

/// What decoding makes of the inputs of a log with at least one topic, against a
/// well-formed signature.
pub open spec fn decoded_parameters(log: LogEntryView, signature: EventSignatureView) -> Outcome {
    let count = signature.input_types.len();
    let indexed = topic_walk(log, signature, count).outcome;
    if count == 0 || is_empty_data(log.data) {
        indexed
    } else {
        match hex_payload(encode_utf8(log.data)) {
            None => indexed.with_error(DecodeError::MalformedHexData),
            Some(data) => data_walk(signature, data, indexed, count).outcome,
        }
    }
}

/// The text that reports `error`.
pub open spec fn error_text(error: Option<DecodeError>) -> Option<Seq<char>> {
    match error {
        Some(e) => Some(e.message_spec()),
        None => None,
    }
}

/// What decoding makes of `log` against `signature`.
pub open spec fn decoded_log(log: LogEntryView, signature: EventSignatureView) -> DecodedLogView {
    if log.topics.len() == 0 {
        DecodedLogView {
            event: "Unknown"@,
            parameters: None,
            signature: None,
            decode_error: Some(DecodeError::NoTopics.message_spec()),
            log_index: log.log_index,
        }
    } else if !signature.well_formed() {
        DecodedLogView {
            event: signature.event_name,
            parameters: None,
            signature: Some(log.topics[0]),
            decode_error: Some(DecodeError::MalformedSignature.message_spec()),
            log_index: log.log_index,
        }
    } else {
        let outcome = decoded_parameters(log, signature);
        DecodedLogView {
            event: signature.event_name,
            parameters: Some(outcome.parameters),
            signature: Some(log.topics[0]),
            decode_error: error_text(outcome.error),
            log_index: log.log_index,
        }
    }
}

/// Decodes what `topic` holds of an input of the type that `descriptor` names.
fn decode_topic_text(topic: &str, descriptor: &str) -> (out: Result<DecodedValue, DecodeError>)
    ensures
        crate::param::agrees(out, topic_value(topic@, descriptor@)),
{
    let ty = match AbiType::parse(descriptor) {
        Err(e) => {
            return Err(e);
        },
        Ok(ty) => ty,
    };
    let bytes = match decode_prefixed_hex(topic) {
        Err(e) => {
            return Err(e);
        },
        Ok(bytes) => bytes,
    };
    decode_topic(&ty, bytes.as_slice())
}

/// Records the result that input `i` had: the parameter under its name, or the
/// error where no earlier one stands.
fn record(
    parameters: &mut ParameterMap,
    error: &mut Option<DecodeError>,
    signature: &EventSignature,
    i: usize,
    decoded: Result<DecodedValue, DecodeError>,
    Ghost(expected): Ghost<Result<ValueView, DecodeError>>,
)
    requires
        signature@.well_formed(),
        i < signature.input_types@.len(),
        crate::param::agrees(decoded, expected),
    ensures
        (Outcome { parameters: final(parameters)@, error: *final(error) }) == (Outcome {
            parameters: old(parameters)@,
            error: *old(error),
        }).with_result(signature@, i as int, expected),
{
    match decoded {
        Ok(value) => {
            let parameter = DecodedParameter {
                value,
                declared_type: signature.input_types[i].clone(),
                indexed: signature.indexed_inputs[i],
                description: copy_optional(&signature.inputs[i].description),
            };
            parameters.insert(signature.input_names[i].clone(), parameter);
        },
        Err(e) => {
            if error.is_none() {
                *error = Some(e);
            }
        },
    }
}

/// Takes a topic for each indexed input, as long as there are topics, and records
/// what it holds.
fn decode_topics(
    log: &LogEntry,
    signature: &EventSignature,
    parameters: &mut ParameterMap,
    error: &mut Option<DecodeError>,
)
    requires
        log.topics@.len() >= 1,
        signature@.well_formed(),
        (Outcome { parameters: old(parameters)@, error: *old(error) }) == topic_walk(
            log@,
            signature@,
            0,
        ).outcome,
    ensures
        (Outcome { parameters: final(parameters)@, error: *final(error) }) == topic_walk(
            log@,
            signature@,
            signature@.input_types.len(),
        ).outcome,
{
    let count = signature.input_types.len();
    let mut next_topic: usize = 1;
    let mut i: usize = 0;
    while i < count
        invariant
            i <= count,
            count == signature.input_types@.len(),
            signature@.well_formed(),
            log.topics@.len() >= 1,
            1 <= next_topic <= i + 1,
            topic_walk(log@, signature@, i as nat) == (TopicWalk {
                outcome: Outcome { parameters: parameters@, error: *error },
                next_topic: next_topic as nat,
            }),
        decreases count - i,
    {
        if signature.indexed_inputs[i] && next_topic < log.topics.len() {
            let decoded = decode_topic_text(
                log.topics[next_topic].as_str(),
                signature.input_types[i].as_str(),
            );
            record(
                parameters,
                error,
                signature,
                i,
                decoded,
                Ghost(topic_value(log@.topics[next_topic as int], signature@.input_types[i as int])),
            );
            next_topic += 1;
        }
        i += 1;
    }
}

/// Decodes from `data` each input that is not indexed, and records what it holds.
/// The head of each lies behind the heads of those before it.
fn decode_data(
    signature: &EventSignature,
    data: &[u8],
    parameters: &mut ParameterMap,
    error: &mut Option<DecodeError>,
)
    requires
        signature@.well_formed(),
    ensures
        (Outcome { parameters: final(parameters)@, error: *final(error) }) == data_walk(
            signature@,
            data@,
            Outcome { parameters: old(parameters)@, error: *old(error) },
            signature@.input_types.len(),
        ).outcome,
{
    let count = signature.input_types.len();
    let len = data.len();
    let ghost start = Outcome { parameters: parameters@, error: *error };
    let mut head: Option<usize> = Some(0);
    let mut stuck = false;
    let mut i: usize = 0;
    while i < count && !stuck
        invariant
            i <= count,
            count == signature.input_types@.len(),
            len == data@.len(),
            signature@.well_formed(),
            head matches Some(h) ==> data_walk(signature@, data@, start, i as nat).head == h,
            head is None ==> data_walk(signature@, data@, start, i as nat).head > usize::MAX,
            data_walk(signature@, data@, start, i as nat).outcome == (Outcome {
                parameters: parameters@,
                error: *error,
            }),
            data_walk(signature@, data@, start, i as nat).stuck == stuck,
        decreases count - i,
    {
        if !signature.indexed_inputs[i] {
            match AbiType::parse(signature.input_types[i].as_str()) {
                Err(e) => {
                    if error.is_none() {
                        *error = Some(e);
                    }
                    stuck = true;
                },
                Ok(ty) => {
                    let ghost before = data_walk(signature@, data@, start, i as nat);
                    let ghost expected = decoded_at(ty@, data@, 0, before.head as int);
                    let decoded = match head {
                        Some(at) => decode_head(&ty, data, 0, at),
                        None => {
                            proof {
                                lemma_beyond_is_truncated(ty@, data@, before.head as int);
                            }
                            Err(DecodeError::TruncatedWord)
                        },
                    };
                    record(parameters, error, signature, i, decoded, Ghost(expected));
                    head = match (head, ty.head_size()) {
                        (Some(at), Some(size)) => at.checked_add(size),
                        _ => None,
                    };
                },
            }
        }
        i += 1;
    }
    proof {
        lemma_stuck_stays(signature@, data@, start, i as nat, count as nat);
    }
}

/// Decodes `log` against `signature`.
pub fn decode(log: &LogEntry, signature: &EventSignature) -> (out: DecodedLog)
    ensures
        out@ == decoded_log(log@, signature@),
{
    if log.topics.len() == 0 {
        return DecodedLog {
            event: "Unknown".to_owned(),
            parameters: None,
            signature: None,
            decode_error: Some(DecodeError::NoTopics.message()),
            log_index: log.log_index,
        };
    }
    if !signature.is_well_formed() {
        return DecodedLog {
            event: signature.event_name.clone(),
            parameters: None,
            signature: Some(log.topics[0].clone()),
            decode_error: Some(DecodeError::MalformedSignature.message()),
            log_index: log.log_index,
        };
    }
    let mut parameters = ParameterMap::new();
    let mut error: Option<DecodeError> = if text_eq(
        log.topics[0].as_str(),
        signature.signature_hash.as_str(),
    ) {
        None
    } else {
        Some(DecodeError::SignatureMismatch)
    };
    decode_topics(log, signature, &mut parameters, &mut error);
    let no_data = "0x";
    if signature.input_types.len() > 0 && !(log.data.as_str().is_empty() || text_eq(
        log.data.as_str(),
        no_data,
    )) {
        match decode_prefixed_hex(log.data.as_str()) {
            Err(e) => {
                if error.is_none() {
                    error = Some(e);
                }
            },
            Ok(data) => {
                decode_data(signature, data.as_slice(), &mut parameters, &mut error);
            },
        }
    }
    let decode_error = match error {
        Some(e) => Some(e.message()),
        None => None,
    };
    DecodedLog {
        event: signature.event_name.clone(),
        parameters: Some(parameters),
        signature: Some(log.topics[0].clone()),
        decode_error,
        log_index: log.log_index,
    }
}

/// No value of a type that the decoder knows has its head past the end of the bytes.
proof fn lemma_beyond_is_truncated(ty: AbiTypeView, data: Seq<u8>, at: int)
    requires
        ty.supported(),
        at > data.len(),
    ensures
        decoded_at(ty, data, 0, at) == Err::<ValueView, DecodeError>(DecodeError::TruncatedWord),
{
    if !ty.is_dynamic() {
        match ty {
            AbiTypeView::FixedArray(element, count) => {
                assert(count * element.head_size() >= 0) by (nonlinear_arith);
            },
            _ => {},
        }
    }
}

/// Once the walk over the data is stuck, it stays where it is.
proof fn lemma_stuck_stays(
    signature: EventSignatureView,
    data: Seq<u8>,
    start: Outcome,
    from: nat,
    count: nat,
)
    requires
        from <= count,
        from < count ==> data_walk(signature, data, start, from).stuck,
    ensures
        data_walk(signature, data, start, count).outcome == data_walk(
            signature,
            data,
            start,
            from,
        ).outcome,
    decreases count,
{
    if from < count {
        lemma_stuck_stays(signature, data, start, from, (count - 1) as nat);
        lemma_stuck_holds(signature, data, start, from, (count - 1) as nat);
    }
}

/// Once the walk over the data is stuck, it is stuck at every later input.
proof fn lemma_stuck_holds(
    signature: EventSignatureView,
    data: Seq<u8>,
    start: Outcome,
    from: nat,
    count: nat,
)
    requires
        from <= count,
        data_walk(signature, data, start, from).stuck,
    ensures
        data_walk(signature, data, start, count).stuck,
    decreases count,
{
    if from < count {
        lemma_stuck_holds(signature, data, start, from, (count - 1) as nat);
    }
}

/// A decoder of logs, with the cache of signatures that it owns.
pub struct LogDecoder {
    event_signature_cache: EventSignatureCache,
}

impl LogDecoder {
    /// The cache of signatures.
    pub closed spec fn cache(&self) -> EventSignatureCache {
        self.event_signature_cache
    }

    /// A decoder with an empty cache of its own, for `DEFAULT_CAPACITY` signatures.
    pub fn new() -> (out: LogDecoder)
        ensures
            out.cache().well_formed(),
            out.cache().entries().len() == 0,
            out.cache().capacity() == crate::cache::DEFAULT_CAPACITY,
            out.cache().time_to_live() == crate::cache::TIME_TO_LIVE_SECS,
    {
        LogDecoder { event_signature_cache: EventSignatureCache::with_default_capacity() }
    }

    /// A decoder that owns `cache`.
    pub fn with_cache(cache: EventSignatureCache) -> (out: LogDecoder)
        ensures
            out.cache() == cache,
    {
        LogDecoder { event_signature_cache: cache }
    }

    /// The cache of signatures, to look one up or to put one in.
    pub fn cache_mut(&mut self) -> (out: &mut EventSignatureCache)
        ensures
            *out == old(self).cache(),
            final(self).cache() == *final(out),
    {
        &mut self.event_signature_cache
    }

    /// Decodes what a topic, given in hex, holds of an indexed input of the type
    /// that `param_type` names.
    pub fn decode_parameter(&self, hex_data: &str, param_type: &str) -> (out: Result<
        DecodedValue,
        DecodeError,
    >)
        ensures
            crate::param::agrees(out, topic_value(hex_data@, param_type@)),
    {
        decode_topic_text(hex_data, param_type)
    }

    /// Decodes `log` against `event_sig`. The cache is not consulted: the caller
    /// looks the signature up, and resolves it elsewhere where the cache has none.
    pub fn decode_log(&mut self, log: &LogEntry, event_sig: &EventSignature) -> (out: DecodedLog)
        ensures
            out@ == decoded_log(log@, event_sig@),
            *final(self) == *old(self),
    {
        decode(log, event_sig)
    }
}

} // verus!
