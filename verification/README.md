# zhtta

A small web server. Its rules are a library that Verus verifies (`src/`); the
program around it (`app/`) holds the sockets, the files, the threads and the
shell.

| module | what it states |
| --- | --- |
| `args` | what the command line asks for |
| `listener` | what a request asks for, and what answers it |
| `path` | where a path leads, seen from the served directory |
| `schedule` | the order in which waiting file requests are served |
| `server` | the state of the server: queue, connections, visitors, kept files |
| `pages` | the error page and the counter page |
| `dynamic` | pages that show the output of a command |
| `static_file` | files that are sent as they are, and kept |
| `text`, `number`, `utf8` | text, decimal numbers, bytes read as text |

The proof functions whose names begin with `law_` say what holds of the functions
together. What is believed without proof is `getopts::Options::parse`, as
`args::find_options` states it, and `std::str::from_utf8` and `String::push`.
