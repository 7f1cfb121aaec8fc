# LLM Wiki server

A personal server for wikis that are kept as directories of Markdown files. One owner signs in,
keeps projects under a data root, reads and writes their files, searches them, and looks at the
graph of their links.

The crate is a library, verified with Verus, and a program around it.

- `src/` holds the rules of the server. Every public function states what it returns and when it
  fails, and Verus proves it.
  - `auth`, `http`: passwords, sessions, and the answers to requests.
  - `config`, `db`, `server_bind`: where the server keeps its own files and where it listens.
  - `paths`, `files`, `file_requests`: paths inside a project and on the system, in the style of Unix
    or of Windows, and reading, writing, uploading and deleting files.
  - `projects`: names, skeletons and imports of projects.
  - `markdown`, `links`, `graph`, `communities`, `insights`: pages, the graph of their links, and
    what it shows.
  - `search`, `wiki_search`, `vectorstore`: searching a wiki by words, by links and by a vector
    index.
  - `skills`: the skills that a project brings for an agent.
  - `text`, `order`: texts, sorting and sets of texts.
  - `outside`: what is taken for granted of functions of other crates and of the standard library.
- `app/` is the program: the HTTP routes, the file system, the SQLite database and LanceDB. It does
  what the library asks for and tells it what came of it. Floating-point scores are computed there.
- `tests/` runs the library.

The file system, the database and the network are events to the library: a request in progress says
what is to be done next and is told what came of it, so each step is proved for whatever comes back.
