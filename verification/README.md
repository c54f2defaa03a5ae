# bbf

Bound Book Format (`.bbf`): an ordered, deduplicated container for page-based media
(comics, manga, artbooks, image sequences), little-endian, format version 3.

The library under `src/` is written in Verus: every function there carries a contract
that the verifier proves, and the properties that span several functions are stated
and proved as proof functions in `src/bbf/laws.rs`.

## Layout of a container

A container as the builder writes it:

```text
[header, 64 bytes]
[payloads, each aligned]
[asset table]   48 bytes per entry
[page table]    16 bytes per entry
[section table] 32 bytes per entry
[meta table]    32 bytes per entry
[string pool]   zero-terminated strings
[footer, 256 bytes]
```

A linearized ("petrified") container moves the footer right after the header and
the tables and string pool after it, so the first 320 bytes locate everything. Zero
bytes after the string pool make the payload region move by a multiple of the largest
power of two, at most 2^max(alignment, 3), that divides some payload offset, so every
payload keeps its alignment:

```text
[header][footer][tables][string pool][zero padding][payloads (aligned)]
```

The footer holds the XXH3-64 hash of the region from the asset table to the end of
the string pool; each asset entry holds the XXH3-128 hash of its payload, and pages
whose payloads hash alike share one asset.

## Modules

- `bbf::types` - the six fixed-size records, their encodings and decodings.
- `bbf::reader` - opening a container held in memory and reading its tables,
  strings and payloads; hash checks.
- `bbf::writer` - the builder: pages (deduplicated by hash), strings, metadata,
  sections, and the index and footer written by `finalize`.
- `bbf::petrify` - linearizing a finished container.
- `bbf::laws` - what a finished or linearized container gives back when read, and
  what the builder keeps (deduplication, alignment, interning). `Builder::lemma_model_wf`
  hands a builder's model to these laws.
- `bbf::bytes`, `bbf::hash`, `bbf::error` - little-endian helpers, the XXH3 calls,
  the error type.
- `archive` - the comic-book archive formats (zip, tar, 7z, RAR).
- `codec` - the container items under a second module name.

`app/` holds what works with files and the JVM: opening containers from disk,
streaming a builder's output to a file, linearizing files, writing zip/tar/7z
archives, and the JNI entry points.
