# treedoc

A `tree(1)`-style directory listing whose entries can carry a short comment,
kept beside the project in a `.treedoc.yaml` sidecar file.

- `src/` is the library, with its contracts and proofs:
  - `text.rs`: the order on names, keys without trailing slashes, path joining;
  - `comments.rs`: the comments map, reading and writing the sidecar text;
  - `yaml.rs`: the calls into `serde_yaml`;
  - `tree.rs`: building the shown tree from a listing of the file system;
  - `render.rs`: drawing the tree with aligned comments;
  - `output.rs`: colour, Markdown fencing, and when `init` may write.
- `app/` is the `treedoc` command: it reads the directory and the sidecar,
  calls the library, and prints or writes the result.
- `tests/` runs the library on concrete trees and comments.
