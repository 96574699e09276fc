# ClipTo (`ct`)

`ct` converts what is on the clipboard between plain text, Markdown and rich text. The library
holds the rules of the program with their contracts, proved by Verus; the binary around it reads
and writes the clipboard, files and the terminal.

## Layout

- `src/convert.rs`: flavors and targets, the Markdown and HTML detection, the skip rule that
  leaves a clipboard alone when it already holds the target, the conversions, and the order in
  which flavors are read.
- `src/markdown.rs`: Markdown to HTML (pulldown-cmark), HTML to Markdown (htmd) with the
  `<pre>` and blank-line clean-up, and Markdown to plain text by walking the parser's events.
- `src/text.rs`: lines, trimming, searching and numbers on character sequences.
- `src/cli.rs`: the command line: options, commands, what a run does, and every text it prints.
- `src/daemon.rs`: the resident mode's decisions: the hotkey's description, the menu, the
  preview, the tray icon, and what a conversion request does and reports.
- `src/chooser.rs`: the chooser panel's state: rows, selection, force switch, choice, preview.
- `src/config.rs`: the settings file that lists the hidden choices.
- `src/clipboard/`: what each platform writes and carries over, and the message that hands
  the clipboard's content to the background server on Linux.
- `src/autostart.rs`, `src/paste.rs`, `src/term.rs`: login start, the paste keystroke, colours.
- `app/`: the `ct` binary for Linux: arguments, terminal, files, and the clipboard via arboard.
- `tests/`: the scenarios, run against the compiled library.

Each public proof function states a property of the library as a whole, such as that `md`
restores what `rich` wrote, that the chooser never runs out of rows, that the settings file
reads back what was written, or that cleaning up Markdown or `<pre>` blocks twice changes
nothing. Markdown, HTML and the parsers' output are left to pulldown-cmark and htmd; what the
library decides around them, such as showing raw HTML as text, is proved.
