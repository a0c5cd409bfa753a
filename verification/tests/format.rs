use loki_to_slack_notification::hook::format::{create_message, MarkdownFlavor};
use loki_to_slack_notification::loki::LokiStream;

fn test_stream() -> LokiStream {
    LokiStream {
        stream: vec![
            ("pod".to_string(), "podA".to_string()),
            ("namespace".to_string(), "production".to_string()),
        ],
        values: vec![
            ("time".to_string(), "message1".to_string()),
            ("time".to_string(), "message2`1".to_string()),
        ],
    }
}

#[test]
fn test_slack_flavor() {
    let labels = vec!["pod".to_string(), "namespace".to_string()];
    let message = create_message(&MarkdownFlavor::Slack, &test_stream(), &labels, "dc");
    assert_eq!(
        "Datacenter *dc*\n*pod* `podA`\n*namespace* `production`\n```message1```\n```message2~1```\n",
        message
    );
}

#[test]
fn test_mattermost_flavor() {
    let labels = vec!["pod".to_string(), "namespace".to_string()];
    let message = create_message(&MarkdownFlavor::Mattermost, &test_stream(), &labels, "dc");
    assert_eq!(
        "Datacenter **dc**\n**pod** `podA`\n**namespace** `production`\n```message1```\n```message2~1```\n",
        message
    );
}

#[test]
fn missing_labels_are_skipped_and_order_follows_visible_labels() {
    let labels = vec![
        "namespace".to_string(),
        "container".to_string(),
        "pod".to_string(),
    ];
    let message = create_message(&MarkdownFlavor::Slack, &test_stream(), &labels, "eu");
    assert_eq!(
        "Datacenter *eu*\n*namespace* `production`\n*pod* `podA`\n```message1```\n```message2~1```\n",
        message
    );
}

#[test]
fn empty_stream_gives_header_only() {
    let labels: Vec<String> = vec![];
    let message = create_message(&MarkdownFlavor::Mattermost, &LokiStream::default(), &labels, "dc1");
    assert_eq!("Datacenter **dc1**\n", message);
}

#[test]
fn absent_labels_show_nothing() {
    let labels = vec!["job".to_string(), "app".to_string()];
    let stream = LokiStream {
        stream: vec![("pod".to_string(), "p".to_string())],
        values: vec![],
    };
    let message = create_message(&MarkdownFlavor::Slack, &stream, &labels, "x");
    assert_eq!("Datacenter *x*\n", message);
}

#[test]
fn every_backtick_in_a_log_line_is_masked() {
    let labels: Vec<String> = vec![];
    let stream = LokiStream {
        stream: vec![],
        values: vec![("t".to_string(), "``a`b```".to_string())],
    };
    let message = create_message(&MarkdownFlavor::Slack, &stream, &labels, "d");
    assert_eq!("Datacenter *d*\n```~~a~b~~~```\n", message);
}

#[test]
fn label_values_are_shown_unmasked_and_first_label_wins() {
    let labels = vec!["k".to_string()];
    let stream = LokiStream {
        stream: vec![
            ("k".to_string(), "a`b".to_string()),
            ("k".to_string(), "other".to_string()),
        ],
        values: vec![],
    };
    let message = create_message(&MarkdownFlavor::Mattermost, &stream, &labels, "");
    assert_eq!("Datacenter ****\n**k** `a`b`\n", message);
}

#[test]
fn labels_concatenate_and_values_concatenate() {
    let stream = test_stream();
    let first = vec!["pod".to_string()];
    let second = vec!["namespace".to_string()];
    let both = vec!["pod".to_string(), "namespace".to_string()];
    let header = "Datacenter *dc*\n";
    let values = "```message1```\n```message2~1```\n";
    let m1 = create_message(&MarkdownFlavor::Slack, &stream, &first, "dc");
    let m2 = create_message(&MarkdownFlavor::Slack, &stream, &second, "dc");
    let m12 = create_message(&MarkdownFlavor::Slack, &stream, &both, "dc");
    let l1 = &m1[header.len()..m1.len() - values.len()];
    let l2 = &m2[header.len()..m2.len() - values.len()];
    assert_eq!(format!("{}{}{}{}", header, l1, l2, values), m12);
}

#[test]
fn log_lines_concatenate() {
    let labels: Vec<String> = vec![];
    let one = LokiStream {
        stream: vec![],
        values: vec![("1".to_string(), "a`".to_string())],
    };
    let two = LokiStream {
        stream: vec![],
        values: vec![("2".to_string(), "b".to_string())],
    };
    let both = LokiStream {
        stream: vec![],
        values: vec![
            ("1".to_string(), "a`".to_string()),
            ("2".to_string(), "b".to_string()),
        ],
    };
    let header = "Datacenter *z*\n";
    let m1 = create_message(&MarkdownFlavor::Slack, &one, &labels, "z");
    let m2 = create_message(&MarkdownFlavor::Slack, &two, &labels, "z");
    let m12 = create_message(&MarkdownFlavor::Slack, &both, &labels, "z");
    assert_eq!(format!("{}{}", m1, &m2[header.len()..]), m12);
    assert_eq!("Datacenter *z*\n```a~```\n```b```\n", m12);
}
