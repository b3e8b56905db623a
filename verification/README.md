# device_tree

A reader of flattened device tree blobs, verified with Verus.

- `dtb_reader`: `DtbReader` opens a blob, `DtbStructIterator` reads the items of its structure
  block and searches for paths.
- `dtb_format`, `layout`: the header, and where the blocks of a blob lie.
- `struct_item`, `struct_block`, `tree`: items, how they follow one another in a structure block,
  and how a tree is laid out in one.
- `path`, `search`, `text`: paths, what a search comes to, and text as UTF-8.
- `laws`: what holds of every blob, every place in a structure block and every search.
- `utf8`: what is taken for granted of `core::str::from_utf8`. The only other thing taken for
  granted is what `u64::from_ne_bytes` returns, in `dtb_format`.

`new`, `next` and `find` ask that no offset in the blob leads out of range. `try_new`, `try_next`
and `try_find` take any input, and have no result where one does.

`app/` adds the `Iterator` trait of the standard library.
