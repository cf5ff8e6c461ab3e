# tlx — TeX Live eXpress

`tlx` installs TeX Live: it finds a CTAN mirror, downloads and checks the
package database `texlive.tlpdb`, resolves the packages of a scheme,
downloads and unpacks their archives in parallel, and writes the local
database, the hyphenation files and the `ls-R` indexes of kpathsea.

## Layout

- `src/` — the library, verified with Verus:
  - `package.rs`, `database.rs`: the records of `texlive.tlpdb`, their
    parser and writer, the index by name, dependency resolution and the
    local database.
  - `addformat.rs`, `addhyphen.rs`, `command.rs`: the `execute` directives
    and the hyphenation files made from them.
  - `tree.rs`, `order.rs`: the tree of installed files, the directories to
    create, and the `ls-R` index in byte order.
  - `pipeline.rs`, `codec.rs`: URLs, checksums, XZ and tar unpacking and
    the routing of archive entries.
  - `bootstrap.rs`, `signature.rs`: the checks on the downloaded database
    (XZ, SHA-512, OpenPGP signature).
  - `arch.rs`, `location.rs`: architectures and the installation layout.
  - `text.rs`, `chars.rs`, `collections.rs`: text primitives and the hash
    collections of `ahash`.
  - `laws.rs`: properties across operations; `record_laws.rs`: that a
    record written to the database reads back as itself.
- `app/` — the program: network, files, processes, async pipeline.
- `tests/` — tests of the library.

## Assets

The program reads the TeX Live keyring `texlive.asc` and the heads of the
hyphenation files (`language.dat`, `language_begin.def`,
`language_end.def`, `language.dat.lua`) from the directory named by
`TLX_ASSETS`, or from `assets/` in the working directory.
