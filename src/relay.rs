use vstd::prelude::*;
use crate::decode::{decoded, fits, lemma_event_round_trip};
use vstd::utf8::valid_utf8;
use crate::event::{EditEvent, EditModel};
use crate::session::record_of;
use crate::wire::{encode_event, event_json};

verus! {

/// What the fan-out loop does with one record read from the log.
pub enum FanOut {
    /// The record holds no edit: it is passed over and the loop goes on.
    Skip,
    /// The record holds `event`: `body` goes to the notification sink, and `event` to the
    /// broadcast bus.
    Forward { body: Vec<u8>, event: EditEvent },
}

/// Decides what becomes of one log record, given what decoding it as an edit gave: an edit
/// is forwarded, with its JSON text as the body for the notification sink; a record that
/// did not decode is skipped.
pub fn fan_out_record(decoded: Option<EditEvent>) -> (r: FanOut)
    ensures
        match decoded {
            None => r is Skip,
            Some(e) => match r {
                FanOut::Forward { body, event } => event@ == e@ && body@ == event_json(e@) && valid_utf8(
                    body@,
                ),
                FanOut::Skip => false,
            },
        },
{
    match decoded {
        Some(event) => {
            let body = encode_event(&event);
            FanOut::Forward { body, event }
        },
        None => FanOut::Skip,
    }
}

/// The edits that the fan-out loop forwards, in order, when decoding the records it reads
/// gives `results`.
pub open spec fn observed(results: Seq<Option<EditModel>>) -> Seq<EditModel>
    decreases results.len(),
{
    if results.len() == 0 {
        Seq::empty()
    } else {
        match results.last() {
            Some(e) => observed(results.drop_last()).push(e),
            None => observed(results.drop_last()),
        }
    }
}

/// What the library's own decoder gives for each record, in order.
pub open spec fn decode_all(records: Seq<Seq<u8>>) -> Seq<Option<EditModel>> {
    records.map_values(|b: Seq<u8>| decoded(b))
}

/// The values of the log records for `edits`, in the same order.
pub open spec fn encoded(edits: Seq<EditModel>) -> Seq<Seq<u8>> {
    edits.map_values(|e: EditModel| event_json(e))
}

/// The fan-out loop sees the edits of a document in the order in which they were appended:
/// reading the records of a run of submissions gives back exactly those submissions.
pub proof fn lemma_order_kept(edits: Seq<EditModel>, doc: Seq<char>)
    requires
        forall|k: int| 0 <= k < edits.len() ==> fits(#[trigger] edits[k]),
        forall|k: int| 0 <= k < edits.len() ==> (#[trigger] edits[k]).doc_id == doc,
    ensures
        observed(decode_all(encoded(edits))) == edits,
    decreases edits.len(),
{
    if edits.len() > 0 {
        let last = edits.last();
        lemma_event_round_trip(last);
        lemma_order_kept(edits.drop_last(), doc);
        assert(decode_all(encoded(edits)).drop_last() =~= decode_all(encoded(edits.drop_last())));
        assert(edits.drop_last().push(last) =~= edits);
    } else {
        assert(decode_all(encoded(edits)) =~= Seq::<Option<EditModel>>::empty());
    }
}

/// An edit submitted through the endpoint and one sent over a realtime connection for the
/// same document go to the same partition, and the fan-out loop sees both, in log order.
pub proof fn lemma_both_paths_observed(submitted: EditModel, sent: EditModel)
    requires
        fits(submitted),
        fits(sent),
        submitted.doc_id == sent.doc_id,
    ensures
        record_of(submitted).0 == record_of(sent).0,
        observed(decode_all(seq![record_of(submitted).1, record_of(sent).1])) == seq![submitted, sent],
        observed(decode_all(seq![record_of(sent).1, record_of(submitted).1])) == seq![sent, submitted],
{
    let ab = seq![submitted, sent];
    let ba = seq![sent, submitted];
    lemma_order_kept(ab, sent.doc_id);
    lemma_order_kept(ba, sent.doc_id);
    assert(encoded(ab) =~= seq![record_of(submitted).1, record_of(sent).1]);
    assert(encoded(ba) =~= seq![record_of(sent).1, record_of(submitted).1]);
}

} // verus!
