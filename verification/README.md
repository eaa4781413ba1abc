# memex

A small wiki builder: markdown pages with a light link syntax become HTML and
gemtext pages, each with the pages that link to it, the directory of all pages
and the list of recent changes.

The library under `src/` is written in Verus; every function in it carries a
contract that the verifier proves.

- `scanner`: the link syntax (`[[id]]`, `{title}[[id]]`, `&image&`, header
  anchors, code fences) turned into markdown by a character scanner.
- `entry`: a page read into an entry: id, status, links, outline and date.
- `directory_tree`: the directory of pages as an arena of path segments, and
  its HTML and markdown renderings.
- `render`: templates, markdown to HTML, gemtext, references (backlinks) and
  recent changes; the rendering of a whole site.
- `site`: reading page files into entries, renaming a page, reading the RSS
  feed and adding a post to it, and
  when a change on disk calls for a new build.
- `sketch`: colors and the frame recorder of the generative sketches.
- `common`, `regexes`, `text`, `parser`: statuses, the regular expressions,
  text helpers and the scanner's error.

`app/` is the command-line program (`build`, `watch`, `rename`, `rss`): it
reads and writes files, runs `git`, watches the disk and hands plain values to
the library.
