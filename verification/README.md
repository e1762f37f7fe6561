# tape

`tape` records the HTTP traffic of an app, replays it offline, and collects debug logs.

- `src/` is the library: the rules of the tool, verified with Verus.
- `app/` is the command line around it: sockets, files, and the forms in which data is stored.
- `tests/` are the tests of the library.

## What is proved

| Module | Subject |
| --- | --- |
| `http_util`, `percent` | the target of a request, in proxy form and in prefixed form |
| `rewrite`, `pattern`, `codec` | links in responses, packed bodies, redirects |
| `snapshot`, `store`, `clock` | what a snapshot holds, its id and its file, the record of a session |
| `record`, `download` | what is forwarded and returned, what is kept, which resources are fetched |
| `replay`, `mime` | which snapshot or resource answers a request, and how |
| `config`, `cli`, `paths` | the settings, and the filter of upstreams |
| `ingest`, `json`, `logcat`, `log_file` | entries of logs, pushed or read from a device |
| `list`, `tree`, `export` | the table of sites, the files of a recording |
| `calls`, `diff`, `matrix`, `json_path`, `sequence`, `compare`, `report` | the comparison of two recordings |
| `text`, `number`, `order`, `http`, `net` | what the others rest on |

Every public function states in its contract what it returns. Public proof functions whose names
begin with `law_` state what holds of several functions together.

What other crates compute is called through small wrappers. The comment above each of them says
what is taken from that crate without proof.
