# Pengwin

An ext4 file system for Windows whose logic is verified with Verus.

`src/` is the library. It reads and writes ext4 volumes through a `BlockDevice`, and
answers the requests that a mounted volume gets. Every function says in its contract
what it returns and what it leaves on the device; `laws/` and the `laws` modules below
state what the requests promise of one another.

| Module | What it holds |
| --- | --- |
| `bytes`, `text`, `clock` | numbers and texts in raw bytes, the time of day |
| `block_device`, `cache` | devices of sectors, one in memory, and a cache in front of one |
| `superblock`, `superblock_write`, `group_desc` | the layout of a volume |
| `inode`, `inode_write`, `extent`, `extent_write`, `extent_insert` | inodes and their extent trees |
| `allocator` | the bitmaps of blocks and inodes |
| `dir`, `dir_write`, `file`, `file_write` | directories and file data |
| `journal` | transactions, commit and replay |
| `fs_context`, `fsp_impl` | a mounted volume and its requests |
| `cli` | what the command line asks for |
| `laws` | what holds across requests: what a read gives back of a write, where a name leads after files were created, renamed and deleted, and what other files keep |

`app/` is the program around it: the command line, image files and raw disks, and the
WinFsp host that hands requests to the library.

`tests/` holds the tests.
