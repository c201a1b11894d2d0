# ymelorix

Downloads favourite tracks, albums and playlists from Yandex Music, and writes
tags into the files while they are on their way.

`src/` is the library: links, file names, tags, retries, and the bookkeeping of a
download and of a list of downloads. Every function in it is verified with
[Verus](https://github.com/verus-lang/verus) against its contract; the public
proof functions (`law_...`) say what holds of several functions together. It makes
no requests and opens no files.

`app/` is the program around it: arguments, requests, files and output.

| module | what it is about |
| --- | --- |
| `tags` | tags at the head of a file: `mp4`, `flac`, `id3`; `relocation` says what rewriting an `MP4` keeps |
| `download` | one file: links, answers, the bytes to store |
| `batch` | a list of tracks: reports, counts, when to stop |
| `net` | waits, attempts, bounded bodies |
| `library`, `account` | what to make of the service's answers |
| `track`, `source`, `updater` | names of tracks and files, links, what is there already |
| `config`, `cli` | the token and the options |
| `text`, `bytes` | characters, decimal numbers, big-endian numbers |

What the library takes on trust is small, and marked `external_body` or
`assume_specification`: the header `Retry-After` and the words for a status from
`reqwest`, the words for a quality and the address of the service from
`yandex-music`, and `String::push`, `String::from_utf8_lossy` and the `Debug` of
`char` from the standard library.
