//! The answer of Loki's `query_range` API, as the notifier reads it.
use vstd::prelude::*;

verus! {

/// One answer of the `query_range` API.
#[derive(Debug, Default)]
pub struct LokiResponse {
    pub status: String,
    pub data: LokiData,
}

/// The data part of an answer: the kind of result and the streams found.
#[derive(Debug, Default)]
pub struct LokiData {
    pub result_type: String,
    pub result: Vec<LokiStream>,
}

/// One log stream: its labels (name and value; Loki gives each name once, see
/// `hook::format::labels_unique`) and its entries (timestamp and log line), in the order
/// Loki gave them.
#[derive(Debug, Default)]
pub struct LokiStream {
    pub stream: Vec<(String, String)>,
    pub values: Vec<(String, String)>,
}

/// A stream as text: its labels and its entries.
#[verifier::ext_equal]
pub struct StreamView {
    pub labels: Seq<(Seq<char>, Seq<char>)>,
    pub values: Seq<(Seq<char>, Seq<char>)>,
}

/// The text of each pair of strings.
pub open spec fn pair_texts(v: Seq<(String, String)>) -> Seq<(Seq<char>, Seq<char>)> {
    v.map_values(|p: (String, String)| (p.0@, p.1@))
}

impl View for LokiStream {
    type V = StreamView;

    open spec fn view(&self) -> StreamView {
        StreamView { labels: pair_texts(self.stream@), values: pair_texts(self.values@) }
    }
}

/// The views of a sequence of streams.
pub open spec fn stream_views(v: Seq<LokiStream>) -> Seq<StreamView> {
    v.map_values(|s: LokiStream| s@)
}

/// The streams of all answers, answer after answer, each answer's streams in its order.
pub open spec fn all_streams(responses: Seq<LokiResponse>) -> Seq<StreamView>
    decreases responses.len(),
{
    if responses.len() == 0 {
        Seq::empty()
    } else {
        all_streams(responses.drop_last()) + stream_views(responses.last().data.result@)
    }
}

/// Answers are read independently of each other: the streams of the answers `first +
/// second` are the streams of `first` followed by those of `second`.
pub proof fn lemma_all_streams_concat(first: Seq<LokiResponse>, second: Seq<LokiResponse>)
    ensures
        all_streams(first + second) == all_streams(first) + all_streams(second),
    decreases second.len(),
{
    if second.len() == 0 {
        assert(first + second =~= first);
        assert(all_streams(first) + Seq::<StreamView>::empty() =~= all_streams(first));
    } else {
        lemma_all_streams_concat(first, second.drop_last());
        assert((first + second).drop_last() =~= first + second.drop_last());
        assert((first + second).last() == second.last());
        assert(all_streams(first + second) =~= all_streams(first) + all_streams(second));
    }
}

/// The streams of a single answer are all of that answer's streams, unchanged and in
/// order. Together with `lemma_all_streams_concat` this fixes the streams of any list of
/// answers: every stream of every answer, answer after answer.
pub proof fn lemma_all_streams_single(response: LokiResponse)
    ensures
        all_streams(seq![response]) == stream_views(response.data.result@),
        all_streams(seq![response]).len() == response.data.result@.len(),
        forall|i: int|
            0 <= i < response.data.result@.len() ==> #[trigger] all_streams(seq![response])[i]
                == response.data.result@[i]@,
{
    let one = seq![response];
    assert(one.drop_last() =~= Seq::<LokiResponse>::empty());
    assert(one.last() == response);
    assert(all_streams(one.drop_last()) == Seq::<StreamView>::empty());
    assert(all_streams(one) == Seq::<StreamView>::empty() + stream_views(response.data.result@));
    assert(all_streams(one) =~= stream_views(response.data.result@));
}

/// Counting: the answers `first + second` give as many streams as `first` and `second`
/// together, and adding one more answer adds exactly its streams at the end.
pub proof fn lemma_all_streams_push(responses: Seq<LokiResponse>, response: LokiResponse)
    ensures
        all_streams(responses.push(response)) == all_streams(responses) + stream_views(
            response.data.result@,
        ),
        all_streams(responses.push(response)).len() == all_streams(responses).len()
            + response.data.result@.len(),
{
    lemma_all_streams_concat(responses, seq![response]);
    lemma_all_streams_single(response);
    assert(responses + seq![response] =~= responses.push(response));
}

} // verus!
