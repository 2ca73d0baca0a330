use stardust::relay::{relay_messages, LlmResponse};

fn resp(text: &str, done: bool) -> Option<LlmResponse> {
    Some(LlmResponse { response: text.to_string(), done })
}

fn lines(v: &[&str]) -> Vec<String> {
    v.iter().map(|s| s.to_string()).collect()
}

#[test]
fn relays_responses_and_raw_lines() {
    let l = lines(&["{a}", "garbage", "{b}"]);
    let p = vec![resp("Hel", false), None, resp("lo", false)];
    assert_eq!(relay_messages(&l, &p), vec!["Hel", "garbage", "lo"]);
}

#[test]
fn relay_stops_at_done() {
    let l = lines(&["{a}", "{b}", "{c}", "tail"]);
    let p = vec![resp("x", false), resp("y", true), resp("z", false), None];
    assert_eq!(relay_messages(&l, &p), vec!["x", "y"]);
}

#[test]
fn relay_unparsed_passes_through() {
    let l = lines(&["a", "b"]);
    let p = vec![None, None];
    assert_eq!(relay_messages(&l, &p), vec!["a", "b"]);
}

#[test]
fn relay_of_nothing() {
    assert!(relay_messages(&vec![], &vec![]).is_empty());
}
