# kopi-registry

Generates the registry data of kopi, a JVM toolchain manager: for each
candidate (Gradle, Hadoop, JMeter, Kotlin, Maven, Tomcat) a list of versions,
newest first, with download paths and checksums, written to
`candidates/{name}.json`, and an `index.json` that lists the candidates.

## Layout

- `src/` is the library, verified with Verus: version ordering and
  de-duplication, the parsers of directory listings, Maven metadata and
  checksum files, the per-candidate download paths and mirrors, the rules for
  reusing the checksums of an earlier run, the HTTP retry policy, and the
  decisions of a run (which versions are kept, when a file is rewritten, the
  `updated` timestamp of the index).
- `app/` is the program around it: HTTP requests, JSON (de)serialisation,
  the file system and the main loop.
- `tests/` runs the library on concrete values.
