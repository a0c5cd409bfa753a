//! The plain Slack notification: a stream's visible labels and log lines, without the
//! data-center header.
use vstd::prelude::*;
use crate::hook::format::{
    header_line, label_lines, message, push_label_lines, push_value_lines, value_lines, MarkdownFlavor,
};
use crate::hook::slack::{slack_payload, text_payload};
use crate::loki::LokiStream;
use crate::text::texts;

verus! {

/// The plain notification about a stream: its visible labels and its log lines, in
/// Slack's Markdown.
pub open spec fn plain_message(
    labels: Seq<(Seq<char>, Seq<char>)>,
    values: Seq<(Seq<char>, Seq<char>)>,
    visible: Seq<Seq<char>>,
) -> Seq<char> {
    label_lines(MarkdownFlavor::Slack, labels, visible) + value_lines(values)
}

/// The plain notification about `loki_stream`: each visible label that the stream has, in
/// the order of `visible_labels`, then each log line as a code block, backticks in it
/// turned into tildes.
pub fn create_message(loki_stream: &LokiStream, visible_labels: &[String]) -> (text: String)
    ensures
        text@ == plain_message(
            loki_stream@.labels,
            loki_stream@.values,
            texts(visible_labels@),
        ),
{
    let mut text = String::new();
    push_label_lines(&mut text, &MarkdownFlavor::Slack, loki_stream, visible_labels);
    push_value_lines(&mut text, loki_stream);
    text
}

/// The Slack payload of the plain notification about `loki_stream`.
pub fn message_payload(loki_stream: &LokiStream, visible_labels: &[String]) -> (p:
    slack_hook::Payload)
    ensures
        p == slack_payload(
            plain_message(loki_stream@.labels, loki_stream@.values, texts(visible_labels@)),
        ),
{
    text_payload(create_message(loki_stream, visible_labels))
}

/// The Slack notification about a stream is the plain notification under the data-center
/// header.
pub proof fn lemma_slack_message_is_header_and_plain(
    labels: Seq<(Seq<char>, Seq<char>)>,
    values: Seq<(Seq<char>, Seq<char>)>,
    visible: Seq<Seq<char>>,
    dc: Seq<char>,
)
    ensures
        message(MarkdownFlavor::Slack, labels, values, visible, dc) == header_line(
            MarkdownFlavor::Slack,
            dc,
        ) + plain_message(labels, values, visible),
{
    assert(message(MarkdownFlavor::Slack, labels, values, visible, dc) =~= header_line(
        MarkdownFlavor::Slack,
        dc,
    ) + plain_message(labels, values, visible));
}

} // verus!
