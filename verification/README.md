# mango

A small static site generator: markdown pages with JSON frontmatter are
rendered through Tera templates into a static site with section indexes, tag
pages, an RSS feed and a sitemap.

## Layout

- `src/` is the library, written in Verus and verified: frontmatter parsing
  and key checks, dates, slugs and tags, paths below a folder compared
  component by component, what the site and assets walks do with each entry,
  the section and tag indexes, the listing order, every generated output
  (pages, sections, home, tags, feed, sitemap, assets), the collision check,
  the config rules and the safety check before cleaning. Each public function
  states what it returns in its `ensures`; laws that relate several functions
  are public proof functions.
- `app/` is the `mango` command around it: argument handling, reading the
  site and assets folders and resolving their entries, reading files, the
  typed JSON reads, Tera rendering and writing the output folder.
- `tests/` runs the library on concrete inputs.
