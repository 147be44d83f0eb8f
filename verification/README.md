# ss

A terminal slideshow for a directory of markdown files, with images drawn
through the kitty graphics protocol (also inside tmux).

- `src/` is the verified library:
  - `text`: characters, lines, trimming, numbers;
  - `model`, `cmark`, `markdown`: the slide model and the markdown parser over
    pulldown-cmark's event stream;
  - `deck`: natural ordering of file names, front matter, slide and deck
    assembly;
  - `layout`, `highlight`, `style`: laying a slide out in rows (wrapping,
    lists, quotes, tables, highlighted code, image slots) and the viewport;
  - `render`, `slides`, `images`: the plain markdown renderer (with its pipe
    tables and image slots) and the plain slide and image helpers; image links
    are matched with `regex`, against a stated pattern;
  - `graphics`: the image compositor (which images to retire and draw) and the
    kitty backend;
  - `tmux`, `tmux_pane`: what tmux is asked and what its answers mean;
  - `nav`: the navigation state machine (keys, clicks, search, outline, visual
    mode, commands), the header's and the outline popup's texts, screen geometry,
    links and file watching.
- `tests/` runs the library on concrete values.
- `app/` is the program: reading files, running tmux, the terminal UI loop.
