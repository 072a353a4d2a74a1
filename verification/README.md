# lionfs

The core of a copy-on-write file system, written and proved in Verus.

`src/` is the library. Its functions have contracts, and Verus proves them; there
is no unsafe code, and no verified function panics.

- `fs/`: the mounted file system. `volume` is what an image holds, `placement`
  and `store` say in which blocks its files lie and put them there, `load` takes
  over what was read from an image once it is known to be sound, `page_cache`
  is what is buffered over it, `filesystem` and `commit` are the transactions on
  their way to the device. `vfs_names`, `vfs_data`, `vfs_attrs`, `vfs_acl`,
  `vfs_copy` and `vfs_impl` are the operations; `names_laws`, `copy_laws` and
  `space_laws` state what they promise together. `damage` is what of a file
  cannot be read. `snapshots`, `reflink`, `retention` and `compression` stand
  beside them.
- `file/`: the blocks of files. Writing goes around what a snapshot still reads;
  `isolation` states that nothing a snapshot froze is changed.
- `ondisk/`: the structures of the format, their encoding and their checks.
- `integrity/`: checksums, the coverage tree of pinned blocks, bad blocks.
- `security/`: access lists.
- `io_engine/`: queues, shards, buffers and the two engines that use them.
- `gc/`, `guardian/`, `media/`, `migrate/`, `mount/`: policies that decide and
  leave the doing to others.
- `ordmap`, `btree`, `bytes`, `codec`, `common/`, `posix`: what the rest is
  built of.

Public proof functions state the laws of the library, such as that what was
written is what is read, that a file that was flushed and has landed is there at
the next mount, that the free blocks are counted, that a decoded record is the
one that was encoded, that deleting a snapshot undoes the pins of making it, and
that a snapshot reads a file as it was.

What the library believes without proof is marked `external_body` and says in its
comment which outside function it calls: the clock and the arithmetic of times
(`inode/timestamps`), the checksum functions (`integrity/algorithms`), the
compressors (`fs/compression`) and the reading of names that are not UTF-8
(`ondisk/xattr`). Of what the clock says nothing is claimed.

`app/` is ordinary Rust around the library: the kernel bridge, the threads, the
devices, and the figures in floating point. `tests/` runs the library from
outside.
