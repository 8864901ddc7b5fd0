# pi

The logic of a coding agent's terminal, with its behaviour stated in contracts
and proved by Verus.

| where | what |
|---|---|
| `src/hashline` | edits anchored on the text of a file, the patch format, and the plan of files a patch makes |
| `src/syntax` | which rows of a file open a block, and where each ends, from a parsed tree |
| `src/tui` | the line editor, the rows of the screen, the menus and panels, the lanes, and the decisions of the loop that drives them |
| `src/wechat.rs` | the phone bridge: what goes out, in which pieces, and what comes in |
| `src/worktree.rs` | the checkouts of a repository |
| `src/text.rs`, `src/width.rs`, `src/render.rs` | text as a sequence of characters, and the columns it takes |
| `app` | the terminal, the keyboard, files, git and the shell |
| `tests` | the library run on concrete values |

A type with texts in it has a view with sequences in their place, and contracts
speak of views. Laws that span functions are public proof functions whose names
begin with `law_`; most stand at the end of the module they are about, those on
patches in `src/hashline/laws.rs`, those on the hunks of stacked sections in
`src/hashline/stacking.rs`, those on the line editor in
`src/tui/editor_laws.rs`.

What is believed without proof: what `tree-sitter` makes of a text
(`src/syntax/tree.rs`), the columns that `unicode-width` gives a character or a
text (`src/width.rs`), and three functions of the standard library
(`String::push` in `src/text.rs`, `str::to_lowercase` in
`src/tui/complete.rs`, `Debug` of a text in `src/wechat.rs`).
