use loki_to_slack_notification::hook::format::{create_message as create_flavored, MarkdownFlavor};
use loki_to_slack_notification::hook::slack::SlackHook;
use loki_to_slack_notification::loki::LokiStream;
use loki_to_slack_notification::slack::{create_message, message_payload};
use slack_hook::SlackText;

fn test_stream() -> LokiStream {
    LokiStream {
        stream: vec![
            ("pod".to_string(), "podA".to_string()),
            ("namespace".to_string(), "production".to_string()),
        ],
        values: vec![
            ("time".to_string(), "message1".to_string()),
            ("time".to_string(), "message2`1".to_string()),
        ],
    }
}

#[test]
fn test_create_message() {
    let stream = test_stream();
    let labels = vec!["pod".to_string(), "namespace".to_string()];
    let message = create_message(&stream, &labels);
    assert_eq!(
        "*pod* `podA`\n*namespace* `production`\n```message1```\n```message2~1```\n",
        message
    );
}

#[test]
fn slack_message_is_header_and_plain_message() {
    let stream = test_stream();
    let labels = vec!["namespace".to_string(), "pod".to_string()];
    let plain = create_message(&stream, &labels);
    let full = create_flavored(&MarkdownFlavor::Slack, &stream, &labels, "dc-7");
    assert_eq!(format!("Datacenter *dc-7*\n{}", plain), full);
}

#[test]
fn plain_payload_carries_the_escaped_message() {
    let stream = LokiStream {
        stream: vec![("app".to_string(), "a<b>&c".to_string())],
        values: vec![("t".to_string(), "x < y".to_string())],
    };
    let labels = vec!["app".to_string()];
    let payload = message_payload(&stream, &labels);
    assert_eq!(
        payload.text,
        Some(SlackText::new("*app* `a<b>&c`\n```x < y```\n"))
    );
    assert_eq!(
        format!("{:?}", payload.text),
        "Some(SlackText(\"*app* `a&lt;b&gt;&amp;c`\\n```x &lt; y```\\n\"))"
    );
    assert!(payload.channel.is_none());
    assert!(payload.username.is_none());
}

#[test]
fn slack_hook_keeps_its_url_and_builds_its_payload() {
    let hook = SlackHook::new("https://hooks.example/services/x".to_string());
    assert_eq!(hook.webhook_url(), "https://hooks.example/services/x");
    let stream = test_stream();
    let labels = vec!["pod".to_string()];
    let payload = hook.payload(&stream, &labels, "dc");
    assert_eq!(
        payload.text,
        Some(SlackText::new(
            "Datacenter *dc*\n*pod* `podA`\n```message1```\n```message2~1```\n"
        ))
    );
}
