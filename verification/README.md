# flnder

The logic of Flnder, a desktop study assistant. It imports course materials into a local
knowledge base, solves questions from screenshots or copied text, shows quick answers while it
goes on, and writes full explanations into `.docx` documents.

`src/` is a library in Rust, verified with Verus: each function states in its contract what it
returns, and the public proof functions state what holds across functions. `app/` is the
application around it: the windows, the network, the database and the files.

| Module | What it is about |
| --- | --- |
| `text` | texts as sequences of characters |
| `patterns` | the regular expressions |
| `parser`, `documents` | reading documents and cutting them into pieces |
| `questions`, `answers` | cutting a text into questions; short answers, previews and file names |
| `payload`, `ai` | reading replies of models; requests and when to repeat them |
| `models`, `settings`, `error`, `stamp` | data, settings, errors, times and identifiers |
| `db` | what is written to the database and what is made of its rows; ranking |
| `exporter` | documents with solved questions |
| `service`, `solving`, `capture` | the tasks, step by step |
