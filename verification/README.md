# file-server

A small static file server for package repositories (apt, Gentoo binhost): it
serves a read-only directory tree over HTTP, with byte ranges for resumable
downloads, conditional requests (`ETag` / `Last-Modified` -> `304`) and a correct
`Content-Length` on large files.

`src/` is the library that decides how a request is answered. Its functions carry
contracts that Verus proves. Eight small wrappers around calls into other crates
and the standard library (in `date`, `header` and `path`) are not proved: their
contracts are trusted, and say in their comments what they claim. `app/` is the
program around the library: sockets, threads, the file system and the clock.

| Module     | What it holds                                                       |
|------------|---------------------------------------------------------------------|
| `text`     | trimming, splitting and searching of text                           |
| `number`   | decimal and hexadecimal numerals                                    |
| `calendar` | the days of the Gregorian calendar                                  |
| `date`     | HTTP dates and modification times                                   |
| `header`   | request and response headers                                        |
| `range`    | byte ranges                                                         |
| `cache`    | cache policy, entity tags, conditional requests                     |
| `path`     | request targets, resolved paths, file names and media types         |
| `response` | the responses                                                       |
| `server`   | the steps from a request to its response                            |
| `config`   | settings from the environment                                       |
| `laws`     | what holds of the server as a whole                                 |

## Configuration

| Variable          | Default | Description                                              |
|-------------------|---------|----------------------------------------------------------|
| `FILE_SERVER_DIR` | `/www`  | Directory to serve. The process exits without it.        |
| `PORT`            | `8000`  | TCP port to bind on `0.0.0.0`. `0` lets the system pick. |
| `SERVER_THREADS`  | `64`    | Max concurrent transfers, clamped to `1..=1024`.         |
