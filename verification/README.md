# Composer language server

A language server for `composer.json`: it links dependencies to their Packagist pages and shows
which versions are installed and which stable releases are newer. `src/` holds everything that it
decides, verified with Verus. `app/` holds what talks to the outside: the protocol on standard input
and output, files, requests to Packagist, and the extension that installs the server in Zed.

| Module | What it is about |
| --- | --- |
| `text`, `position` | characters, numbers, and positions as editors count them |
| `scanner`, `composer` | tokens of a manifest, its values, and the dependencies that it names |
| `recovery`, `tree` | what is read of a manifest that is cut off, and of one that is complete |
| `json`, `installed`, `packagist` | metadata of installed packages and of releases |
| `version` | which versions are stable, and how they are ordered |
| `entries`, `backend` | maps by name, open documents, versions kept in memory |
| `version_cache`, `cache_laws`, `budget` | the cache that outlives the server, and its hourly budget of requests |
| `sharing` | two servers that use the file of the cache at the same time |
| `answers`, `settings` | links, hints, and what a client asks for |
| `platform`, `fallback`, `extension` | how an editor gets hold of the server and starts it |

Proof functions whose names begin with `law_` state what holds of all inputs and over several calls.
Functions marked `external_body` call other crates; what is taken for granted of those calls stands
in their contracts and in the comments above them.
