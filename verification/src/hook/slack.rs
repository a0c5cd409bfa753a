//! Notifications sent to a Slack incoming webhook.
use vstd::prelude::*;
use crate::hook::format::{create_message, message, MarkdownFlavor};
use crate::loki::LokiStream;
use crate::text::texts;

verus! {

/// `slack_hook`'s message payload, carried through unopened.
#[verifier::external_type_specification]
#[verifier::external_body]
pub struct ExPayload(slack_hook::Payload);

/// `slack_hook`'s error type.
#[verifier::external_type_specification]
#[verifier::external_body]
pub struct ExSlackHookError(slack_hook::Error);

/// The payload that `slack_hook` builds for a message with text `text` and nothing else.
pub uninterp spec fn slack_payload(text: Seq<char>) -> slack_hook::Payload;

/// Builds a payload with `slack_hook::PayloadBuilder::new().text(text).build()`.
///
/// The contract claims that the build succeeds and that the payload is determined by the
/// text. In the crate's source the builder starts from `Ok(Payload::default())`, `text`
/// sets the payload's text to `SlackText::new(text)` and keeps it `Ok`, and `build`
/// returns it. What the payload holds (the text with `&`, `<` and `>` escaped) is left
/// unsaid: the payload is opaque here.
#[verifier::external_body]
pub(crate) fn build_text_payload(text: String) -> (res: Result<
    slack_hook::Payload,
    slack_hook::Error,
>)
    ensures
        res is Ok,
        res matches Ok(p) ==> p == slack_payload(text@),
{
    slack_hook::PayloadBuilder::new().text(text).build()
}

/// The Slack payload whose text is `text`.
pub(crate) fn text_payload(text: String) -> (payload: slack_hook::Payload)
    ensures
        payload == slack_payload(text@),
{
    match build_text_payload(text) {
        Ok(payload) => payload,
        Err(_) => vstd::pervasive::unreached(),
    }
}

/// A chat that receives notifications through a Slack incoming webhook.
pub struct SlackHook {
    webhook_url: String,
}

impl View for SlackHook {
    type V = Seq<char>;

    /// The webhook's URL.
    closed spec fn view(&self) -> Seq<char> {
        self.webhook_url@
    }
}

impl SlackHook {
    /// The hook that posts to `webhook_url`.
    pub fn new(webhook_url: String) -> (hook: Self)
        ensures
            hook@ == webhook_url@,
    {
        Self { webhook_url }
    }

    /// The webhook's URL.
    pub fn webhook_url(&self) -> (url: &str)
        ensures
            url@ == self@,
    {
        self.webhook_url.as_str()
    }

    /// The payload that notifies this chat about `loki_stream`: the message in Slack's
    /// Markdown.
    pub fn payload(&self, loki_stream: &LokiStream, visible_labels: &[String], dc: &str) -> (p:
        slack_hook::Payload)
        ensures
            p == slack_payload(
                message(
                    MarkdownFlavor::Slack,
                    loki_stream@.labels,
                    loki_stream@.values,
                    texts(visible_labels@),
                    dc@,
                ),
            ),
    {
        let text = create_message(&MarkdownFlavor::Slack, loki_stream, visible_labels, dc);
        text_payload(text)
    }
}

} // verus!
