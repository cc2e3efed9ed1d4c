# md_wiki

A library that turns a corpus of Markdown notes into a wiki: every note gets
an entry page and fragment pages split at its headings, wikilinks are
resolved into relative links, and index pages (tags, headings, links,
unresolved links, directories, the root index) are planned alongside. Large
Markdown inputs are scanned line by line and cut into leaf pages under the
page budget. For agents, every page carries an `md_wiki` metadata block, and
an agent guide, a term index and a page catalog are written beside the wiki;
long indexes are split into pages. The plan of output files, the manifest of
a run and the context packs built from a schema are computed here too.

The library is written in Verus: each public function states in its
contract what it returns, and Verus proves the code against it. Laws that
span functions are stated as proof functions, among them: fragments joined
again give back the note's body, fragment slugs are distinct, the leaves of a
large input cover its bytes, stay within the limit and have distinct paths and
ids, a reader of a large input holds a bounded number of bytes, paging a
catalog or the term index keeps every row once and in order, aliases win over
file names when links resolve, a plan read after a write gives what was
written. An update writes only over files that an earlier run generated.

- `src/` — the verified library. Calls into `regex`, `unicode-normalization`
  and a few `std` functions stand behind small trusted wrappers whose
  contracts say what the outside documentation promises.
- `tests/` — tests run against the compiled library.
- `app/` — the command-line front end (`init`, `add`): walking directories,
  reading and writing files, and the JSON form of the manifest.
