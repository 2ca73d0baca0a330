use vstd::prelude::*;
use vstd::string::*;

verus! {

/// Where the language-model service listens.
pub struct Config {
    pub ollama_url: String,
}

/// Route of the embedding call of the language-model service.
pub open spec fn embed_route() -> Seq<char> {
    "/api/embed"@
}

/// Route of the generation call of the language-model service.
pub open spec fn generate_route() -> Seq<char> {
    "/api/generate"@
}

/// Model that turns text into embedding vectors.
pub open spec fn embedding_model() -> Seq<char> {
    "nomic-embed-text:latest"@
}

impl Config {
    /// URL of the embedding call.
    pub fn embed_url(&self) -> (url: String)
        ensures
            url@ == self.ollama_url@ + embed_route(),
    {
        let mut url = self.ollama_url.clone();
        url.append("/api/embed");
        url
    }

    /// URL of the generation call.
    pub fn generate_url(&self) -> (url: String)
        ensures
            url@ == self.ollama_url@ + generate_route(),
    {
        let mut url = self.ollama_url.clone();
        url.append("/api/generate");
        url
    }
}

/// Body of an embedding request.
pub struct EmbedRequest {
    pub model: String,
    pub input: String,
}

/// The embedding request for `text`.
pub fn embed_request(text: &str) -> (req: EmbedRequest)
    ensures
        req.model@ == embedding_model(),
        req.input@ == text@,
{
    EmbedRequest {
        model: String::from_str("nomic-embed-text:latest"),
        input: String::from_str(text),
    }
}

/// A chat job put on the inference queue.
pub struct JobPayload {
    pub prompt: String,
    pub client_id: String,
    pub retrieval_context: String,
}

/// A chat message from a client: who sent it and what it asks.
pub struct ClientPayload {
    client_id: String,
    prompt: String,
}

impl ClientPayload {
    /// The id of the client that sent the message.
    pub closed spec fn client_id_view(&self) -> Seq<char> {
        self.client_id@
    }

    /// The prompt of the message.
    pub closed spec fn prompt_view(&self) -> Seq<char> {
        self.prompt@
    }

    pub fn new(client_id: String, prompt: String) -> (p: ClientPayload)
        ensures
            p.client_id_view() == client_id@,
            p.prompt_view() == prompt@,
    {
        ClientPayload { client_id, prompt }
    }

    /// The id of the client that sent the message.
    pub fn client_id(&self) -> (id: &String)
        ensures
            id@ == self.client_id_view(),
    {
        &self.client_id
    }

    /// The prompt of the message.
    pub fn prompt(&self) -> (prompt: &String)
        ensures
            prompt@ == self.prompt_view(),
    {
        &self.prompt
    }

    /// The job for this message, with the context retrieved for its prompt.
    pub fn into_job(self, retrieval_context: String) -> (job: JobPayload)
        ensures
            job.client_id@ == self.client_id_view(),
            job.prompt@ == self.prompt_view(),
            job.retrieval_context@ == retrieval_context@,
    {
        JobPayload { client_id: self.client_id, prompt: self.prompt, retrieval_context }
    }
}

/// Text of the prompt before the retrieved context.
pub open spec fn prompt_head() -> Seq<char> {
    "### SYSTEM\n            Answer ONLY using the provided context.\n            If answer is not present, say: Not found.\n            ### CONTEXT\n            "@
}

/// Text of the prompt between the retrieved context and the question.
pub open spec fn prompt_middle() -> Seq<char> {
    "\n            ### QUESTION\n            "@
}

/// Text of the prompt after the question.
pub open spec fn prompt_tail() -> Seq<char> {
    "\n            ### ANSWER\n            "@
}

/// The prompt given to the language model for a job: instructions to
/// answer only from the context, the context, the question.
pub fn final_prompt(retrieval_context: &str, prompt: &str) -> (text: String)
    ensures
        text@ == prompt_head() + retrieval_context@ + prompt_middle() + prompt@ + prompt_tail(),
{
    let mut text = String::from_str(
        "### SYSTEM\n            Answer ONLY using the provided context.\n            If answer is not present, say: Not found.\n            ### CONTEXT\n            ",
    );
    text.append(retrieval_context);
    text.append("\n            ### QUESTION\n            ");
    text.append(prompt);
    text.append("\n            ### ANSWER\n            ");
    text
}

/// Model that answers chat jobs.
pub open spec fn chat_model() -> Seq<char> {
    "phi3:mini"@
}

/// The parts of a generation request that are not floating-point sampling
/// options: model, prompt, streaming, stop sequences and integer options.
pub struct GenerateRequest {
    pub model: String,
    pub prompt: String,
    pub stream: bool,
    pub stop: Vec<String>,
    pub top_k: u64,
    pub num_ctx: u64,
    pub num_predict: u64,
}

/// The generation request for a job: the job's final prompt, answered by
/// the chat model as a stream, stopping at a blank line, sampling from the
/// 40 likeliest tokens, with a 2048-token context and at most 200 new tokens.
pub fn generate_request(retrieval_context: &str, prompt: &str) -> (req: GenerateRequest)
    ensures
        req.model@ == chat_model(),
        req.prompt@ == prompt_head() + retrieval_context@ + prompt_middle() + prompt@
            + prompt_tail(),
        req.stream,
        req.stop.len() == 1,
        req.stop[0]@ == "\n\n"@,
        req.top_k == 40,
        req.num_ctx == 2048,
        req.num_predict == 200,
{
    let mut stop: Vec<String> = Vec::new();
    stop.push(String::from_str("\n\n"));
    GenerateRequest {
        model: String::from_str("phi3:mini"),
        prompt: final_prompt(retrieval_context, prompt),
        stream: true,
        stop,
        top_k: 40,
        num_ctx: 2048,
        num_predict: 200,
    }
}

/// The answer to a generation request: whether its job was enqueued.
pub fn generate_reply(enqueued: bool) -> (message: String)
    ensures
        message@ == (if enqueued {
            "Request enqueued"@
        } else {
            "Failed"@
        }),
{
    if enqueued {
        String::from_str("Request enqueued")
    } else {
        String::from_str("Failed")
    }
}

} // verus!
