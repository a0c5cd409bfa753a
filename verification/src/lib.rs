//! Forwards error logs from Loki to chat webhooks (Slack and Mattermost).
//!
//! One run reads the LogQL queries from a configuration, asks Loki for the log streams
//! that each query matched in the last five minutes and ten seconds, and sends every
//! stream to every configured chat as a Markdown message.
use vstd::prelude::*;

pub mod hook;
pub mod loki;
pub mod query;
pub mod slack;
pub mod text;

use crate::loki::{all_streams, stream_views, LokiResponse, LokiStream};

verus! {

/// How far back, in seconds, one run looks for log lines.
pub const LOOKBACK_SECONDS: u64 = 310;

/// The time range (start, end), in Unix seconds, that one run asks Loki about, when it
/// runs at `now`: the last five minutes and ten seconds.
pub fn query_window(now: u64) -> (window: (u64, u64))
    requires
        now >= LOOKBACK_SECONDS,
    ensures
        window.0 == now - LOOKBACK_SECONDS,
        window.1 == now,
{
    (now - 60 * 5 - 10, now)
}

/// The streams of all answers that Loki gave, one answer after the other, each answer's
/// streams in the order it gave them.
pub fn execute_query(responses: Vec<LokiResponse>) -> (streams: Vec<LokiStream>)
    ensures
        stream_views(streams@) == all_streams(responses@),
{
    let ghost all = responses@;
    assert(all.len() == responses.len());
    let mut rest = responses;
    let mut streams: Vec<LokiStream> = Vec::new();
    let mut k: usize = 0;
    assert(all.take(0) =~= Seq::<LokiResponse>::empty());
    assert(all.skip(0) =~= all);
    while rest.len() > 0
        invariant
            k <= all.len() <= usize::MAX,
            rest@ == all.skip(k as int),
            stream_views(streams@) == all_streams(all.take(k as int)),
        decreases rest.len(),
    {
        let ghost before = stream_views(streams@);
        let mut response = rest.remove(0);
        proof {
            let t = all.take(k + 1);
            assert(t.drop_last() =~= all.take(k as int));
            assert(t.last() == response);
            assert(rest@ =~= all.skip(k + 1));
        }
        let ghost found = response.data.result@;
        streams.append(&mut response.data.result);
        assert(stream_views(streams@) =~= before + stream_views(found));
        k = k + 1;
    }
    assert(all.take(k as int) =~= all);
    streams
}

} // verus!
