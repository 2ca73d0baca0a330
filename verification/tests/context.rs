use stardust::context::build_context;
use stardust::jobs::{final_prompt, generate_reply, embed_request, ClientPayload, Config};

fn triple(t: &str, s: &str, sc: &str) -> (String, String, String) {
    (t.to_string(), s.to_string(), sc.to_string())
}

#[test]
fn context_of_no_chunks_is_empty() {
    assert_eq!(build_context(vec![]), "");
}

#[test]
fn context_of_one_chunk() {
    let ctx = build_context(vec![triple("hello", "a.md", "0.91")]);
    assert_eq!(ctx, "[Source: a.md | Score: 0.91]\nhello");
}

#[test]
fn context_of_two_chunks_has_separator() {
    let ctx = build_context(vec![triple("one", "a.md", "0.90"), triple("two", "b.pdf", "0.50")]);
    assert_eq!(
        ctx,
        "[Source: a.md | Score: 0.90]\none\n\n---\n\n[Source: b.pdf | Score: 0.50]\ntwo"
    );
}

#[test]
fn context_of_concatenation_joins_contexts() {
    let a = vec![triple("x", "s1", "1.00")];
    let b = vec![triple("y", "s2", "0.00"), triple("z", "s3", "0.25")];
    let mut ab = a.clone();
    ab.extend(b.clone());
    assert_eq!(build_context(ab), format!("{}\n\n---\n\n{}", build_context(a), build_context(b)));
}

#[test]
fn final_prompt_places_context_and_question() {
    let p = final_prompt("CTX", "Q?");
    let expected = "### SYSTEM\n            Answer ONLY using the provided context.\n            If answer is not present, say: Not found.\n            ### CONTEXT\n            CTX\n            ### QUESTION\n            Q?\n            ### ANSWER\n            ";
    assert_eq!(p, expected);
}

#[test]
fn generate_replies() {
    assert_eq!(generate_reply(true), "Request enqueued");
    assert_eq!(generate_reply(false), "Failed");
}

#[test]
fn urls_and_embed_request() {
    let cfg = Config { ollama_url: "http://localhost:11434".to_string() };
    assert_eq!(cfg.embed_url(), "http://localhost:11434/api/embed");
    assert_eq!(cfg.generate_url(), "http://localhost:11434/api/generate");
    let req = embed_request("some text");
    assert_eq!(req.model, "nomic-embed-text:latest");
    assert_eq!(req.input, "some text");
}

#[test]
fn client_payload_becomes_job() {
    let p = ClientPayload::new("c-1".to_string(), "what?".to_string());
    let job = p.into_job("ctx".to_string());
    assert_eq!(job.client_id, "c-1");
    assert_eq!(job.prompt, "what?");
    assert_eq!(job.retrieval_context, "ctx");
}

#[test]
fn generation_request_fields() {
    let req = stardust::jobs::generate_request("CTX", "Q?");
    assert_eq!(req.model, "phi3:mini");
    assert_eq!(req.prompt, final_prompt("CTX", "Q?"));
    assert!(req.stream);
    assert_eq!(req.stop, vec!["\n\n".to_string()]);
    assert_eq!((req.top_k, req.num_ctx, req.num_predict), (40, 2048, 200));
}
