# chat_agent

A command-line agent that talks to a chat-completions server and lets the
model run shell commands. The logic is a verified library (`src/`):

- `json`: the JSON documents that requests and replies are made of, with
  their mathematical model, the lookups the agent makes in them, and their
  text (read and written by serde_json);
- `message`: the conversation history, the JSON form of messages and tool
  calls, and the merging of streamed reply chunks into a message;
- `request`: the body of a chat-completions request;
- `tools`: the tools offered to the model, their JSON schema and the reading
  of their arguments;
- `search`, `lines`, `text`: the whitespace-agnostic file search, line
  selection and editing, and the texts the tools answer with;
- `split_stream`: splitting a byte stream into lines as it arrives.

`app/` is the program around it: terminal input, HTTP, files and processes.
