# behat-lsp

A language server that completes Behat steps in feature files.

The server reads `behat.yaml` for the context classes of a project, finds their PHP files with
the PSR-4 mappings of the `composer.json` and `composer.lock` files below the root, and offers the
steps that the `#[Given]`, `#[When]`, `#[Then]`, `#[And]` and `#[But]` attributes on their methods
define.

- `src/` is the library, verified with Verus: what is read from configurations, Composer files and
  PHP files, how classes are found, how steps turn into completions, and what the server says to
  its client.
- `app/` is the server around it: the file system, the file watcher and the protocol.
- `tests/` runs the library.

| module | what it is about |
| --- | --- |
| `text`, `paths` | text and file system paths |
| `yaml`, `json`, `php` | documents as trees, and the steps in PHP files |
| `contexts` | the contexts that a configuration names |
| `psr4` | where Composer says that classes lie |
| `index`, `stages` | the steps of a project, and how they are found turn by turn |
| `snippet`, `steps`, `completion` | how steps are shown and inserted |
| `document` | open documents, and the word before a position |
| `sameness` | what does not change the index |
| `watch`, `progress`, `server` | the file system, progress, and the client |

`Cargo.toml` names `mago-php-version` and `mago-text-edit` only to hold the crates that
`mago-syntax` and `mago-database` depend on to the same version as those two.
