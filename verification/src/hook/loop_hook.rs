//! Notifications sent to a Mattermost (Loop) incoming webhook.
use vstd::prelude::*;
use crate::hook::format::{create_message, message, MarkdownFlavor};
use crate::loki::LokiStream;
use crate::text::texts;

verus! {

/// A chat that receives notifications through a Mattermost incoming webhook.
pub struct LoopHook {
    webhook_url: String,
}

impl View for LoopHook {
    type V = Seq<char>;

    /// The webhook's URL.
    closed spec fn view(&self) -> Seq<char> {
        self.webhook_url@
    }
}

impl LoopHook {
    /// The hook that posts to `webhook_url`.
    pub fn new(webhook_url: String) -> (hook: Self)
        ensures
            hook@ == webhook_url@,
    {
        Self { webhook_url }
    }

    /// The webhook's URL.
    pub fn webhook_url(&self) -> (url: &str)
        ensures
            url@ == self@,
    {
        self.webhook_url.as_str()
    }

    /// The text that notifies this chat about `loki_stream`: the message in Mattermost's
    /// Markdown.
    pub fn message(&self, loki_stream: &LokiStream, visible_labels: &[String], dc: &str) -> (text:
        String)
        ensures
            text@ == message(
                MarkdownFlavor::Mattermost,
                loki_stream@.labels,
                loki_stream@.values,
                texts(visible_labels@),
                dc@,
            ),
    {
        create_message(&MarkdownFlavor::Mattermost, loki_stream, visible_labels, dc)
    }
}

} // verus!
