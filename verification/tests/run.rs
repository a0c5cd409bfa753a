use loki_to_slack_notification::hook::format::MarkdownFlavor;
use loki_to_slack_notification::hook::loop_hook::LoopHook;
use loki_to_slack_notification::loki::{LokiData, LokiResponse, LokiStream};
use loki_to_slack_notification::{execute_query, query_window, LOOKBACK_SECONDS};

fn stream(pod: &str) -> LokiStream {
    LokiStream {
        stream: vec![("pod".to_string(), pod.to_string())],
        values: vec![("1".to_string(), format!("line of {}", pod))],
    }
}

fn response(pods: &[&str]) -> LokiResponse {
    LokiResponse {
        status: "success".to_string(),
        data: LokiData {
            result_type: "streams".to_string(),
            result: pods.iter().map(|p| stream(p)).collect(),
        },
    }
}

fn pods(streams: &[LokiStream]) -> Vec<String> {
    streams.iter().map(|s| s.stream[0].1.clone()).collect()
}

#[test]
fn query_window_covers_the_last_310_seconds() {
    assert_eq!(query_window(1631234687), (1631234377, 1631234687));
    assert_eq!(query_window(310), (0, 310));
    assert_eq!(LOOKBACK_SECONDS, 310);
}

#[test]
fn streams_of_all_answers_in_order() {
    let streams = execute_query(vec![response(&["a", "b"]), response(&[]), response(&["c"])]);
    assert_eq!(pods(&streams), vec!["a", "b", "c"]);
    assert_eq!(streams[2].values[0].1, "line of c");
}

#[test]
fn no_answers_no_streams() {
    assert!(execute_query(vec![]).is_empty());
}

#[test]
fn answers_concatenate() {
    let first = execute_query(vec![response(&["a"]), response(&["b", "c"])]);
    let second = execute_query(vec![response(&["d"])]);
    let both = execute_query(vec![response(&["a"]), response(&["b", "c"]), response(&["d"])]);
    let mut joined = pods(&first);
    joined.extend(pods(&second));
    assert_eq!(pods(&both), joined);
}

#[test]
fn loop_hook_writes_mattermost_markdown() {
    let hook = LoopHook::new("https://loop.example/hooks/t".to_string());
    assert_eq!(hook.webhook_url(), "https://loop.example/hooks/t");
    let labels = vec!["pod".to_string()];
    let text = hook.message(&stream("p1"), &labels, "dc");
    assert_eq!("Datacenter **dc**\n**pod** `p1`\n```line of p1```\n", text);
    let _ = MarkdownFlavor::Mattermost;
}
