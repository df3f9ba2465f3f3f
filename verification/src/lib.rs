//! Verified core of a chat-completions tool-calling agent: the JSON model of
//! requests and streamed replies, the conversation history, the tool
//! descriptions, line splitting of a byte stream, and the text tools.
pub mod json;
pub mod message;
pub mod tools;
pub mod request;
pub mod lines;
pub mod text;
pub mod search;
pub mod split_stream;
