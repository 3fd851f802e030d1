//! What holds of decoding, whatever the log and the signature.

use crate::decoder::{
    data_walk, decoded_log, decoded_parameters, topic_value, topic_walk, DecodedLog, EventSignature,
    EventSignatureView, LogEntry, LogEntryView, Outcome,
};
use vstd::prelude::*;

verus! {

/// Decoding is deterministic: two results of decoding the same log against the same
/// signature are the same.
pub proof fn law_decoding_is_deterministic(
    log: LogEntry,
    signature: EventSignature,
    same_log: LogEntry,
    same_signature: EventSignature,
    first: DecodedLog,
    second: DecodedLog,
)
    requires
        log@ == same_log@,
        signature@ == same_signature@,
        first@ == decoded_log(log@, signature@),
        second@ == decoded_log(same_log@, same_signature@),
    ensures
        first@ == second@,
{
}

/// A log without topics decodes to the event `Unknown`, with an error.
pub proof fn law_no_topics_is_unknown(log: LogEntryView, signature: EventSignatureView)
    requires
        log.topics.len() == 0,
    ensures
        decoded_log(log, signature).event == "Unknown"@,
        decoded_log(log, signature).decode_error is Some,
        decoded_log(log, signature).parameters is None,
        decoded_log(log, signature).signature is None,
{
}

/// Against a signature without inputs, a log whose first topic is the hash of the
/// signature decodes to an empty mapping, without an error.
pub proof fn law_no_inputs_is_empty(log: LogEntryView, signature: EventSignatureView)
    requires
        log.topics.len() >= 1,
        log.topics[0] == signature.signature_hash,
        signature.well_formed(),
        signature.input_types.len() == 0,
    ensures
        decoded_log(log, signature).parameters == Some(
            Map::<Seq<char>, crate::parameters::DecodedParameterView>::empty(),
        ),
        decoded_log(log, signature).decode_error is None,
{
}

/// The number of indexed inputs among the first `count`.
pub open spec fn indexed_before(signature: EventSignatureView, count: nat) -> nat
    decreases count,
{
    if count == 0 {
        0
    } else {
        indexed_before(signature, (count - 1) as nat) + if signature.indexed_inputs[count - 1] {
            1nat
        } else {
            0nat
        }
    }
}

/// Whether there is a topic for every indexed input, and each of these topics holds
/// a word in hex for an input of a type that the decoder knows.
pub open spec fn topics_suffice(log: LogEntryView, signature: EventSignatureView) -> bool {
    &&& indexed_before(signature, signature.input_types.len()) <= log.topics.len() - 1
    &&& forall|i: int|
        0 <= i < signature.input_types.len() && #[trigger] signature.indexed_inputs[i]
            ==> topic_value(
            log.topics[1 + indexed_before(signature, i as nat) as int],
            signature.input_types[i],
        ) is Ok
}

proof fn lemma_indexed_before_monotonic(signature: EventSignatureView, i: nat, j: nat)
    requires
        i <= j,
    ensures
        indexed_before(signature, i) <= indexed_before(signature, j),
    decreases j,
{
    if i < j {
        lemma_indexed_before_monotonic(signature, i, (j - 1) as nat);
    }
}

proof fn lemma_topic_walk_takes_all(log: LogEntryView, signature: EventSignatureView, count: nat)
    requires
        log.topics.len() >= 1,
        signature.well_formed(),
        topics_suffice(log, signature),
        count <= signature.input_types.len(),
    ensures
        topic_walk(log, signature, count).next_topic == 1 + indexed_before(signature, count),
        forall|i: int|
            0 <= i < count && #[trigger] signature.indexed_inputs[i] ==> topic_walk(
                log,
                signature,
                count,
            ).outcome.parameters.contains_key(signature.input_names[i]),
    decreases count,
{
    if count > 0 {
        let before = (count - 1) as nat;
        lemma_topic_walk_takes_all(log, signature, before);
        lemma_indexed_before_monotonic(signature, count, signature.input_types.len());
        if signature.indexed_inputs[count - 1] {
            assert(topic_value(
                log.topics[1 + indexed_before(signature, before) as int],
                signature.input_types[count - 1],
            ) is Ok);
        }
    }
}

proof fn lemma_data_walk_keeps(
    signature: EventSignatureView,
    data: Seq<u8>,
    start: Outcome,
    count: nat,
    name: Seq<char>,
)
    requires
        start.parameters.contains_key(name),
    ensures
        data_walk(signature, data, start, count).outcome.parameters.contains_key(name),
    decreases count,
{
    if count > 0 {
        lemma_data_walk_keeps(signature, data, start, (count - 1) as nat, name);
    }
}

/// Where a log has a topic for each indexed input of a signature, and each of these
/// topics holds a word in hex for an input of a type that the decoder knows, every
/// indexed input is in the mapping under its declared name.
pub proof fn law_indexed_inputs_are_present(log: LogEntryView, signature: EventSignatureView)
    requires
        log.topics.len() >= 1,
        signature.well_formed(),
        topics_suffice(log, signature),
    ensures
        decoded_log(log, signature).parameters is Some,
        forall|i: int|
            0 <= i < signature.input_types.len() && #[trigger] signature.indexed_inputs[i]
                ==> decoded_log(log, signature).parameters->0.contains_key(signature.input_names[i]),
{
    let count = signature.input_types.len();
    lemma_topic_walk_takes_all(log, signature, count);
    let indexed = topic_walk(log, signature, count).outcome;
    assert forall|i: int| 0 <= i < count && #[trigger] signature.indexed_inputs[i] implies decoded_log(
        log,
        signature,
    ).parameters->0.contains_key(signature.input_names[i]) by {
        let name = signature.input_names[i];
        assert(indexed.parameters.contains_key(name));
        match crate::hexdata::hex_payload(vstd::utf8::encode_utf8(log.data)) {
            None => {},
            Some(data) => {
                lemma_data_walk_keeps(signature, data, indexed, count, name);
            },
        }
    }
}

} // verus!
