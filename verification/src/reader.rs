//! The archive reader: header decoding at construction, and the two-stage
//! tile lookup (root directory first, then leaf delegation through a
//! secondary directory fragment decoded on demand).
//!
//! The archive bytes come from a read-only memory mapping.  The mapping is
//! opaque to the verifier; `mmap_bytes` names its contents, and the one
//! trusted accessor below exposes them as a slice.

use vstd::arithmetic::div_mod::lemma_basic_div;
use vstd::arithmetic::div_mod::lemma_fundamental_div_mod;
use vstd::arithmetic::power2::lemma2_to64;
use vstd::arithmetic::power2::lemma_pow2_strictly_increases;
use vstd::arithmetic::power2::pow2;
use vstd::bits::lemma_u32_shr_is_div;
use vstd::prelude::*;
use vstd::slice::slice_subrange;

use crate::codec::le16;
use crate::codec::le32;
use crate::codec::read_u16_le;
use crate::codec::read_u32_le;
use crate::directory::decode_records;
use crate::directory::load_directory;
use crate::directory::Directory;
use crate::directory::TileEntry;
use crate::directory::TileKey;

verus! {

#[verifier::external_type_specification]
#[verifier::external_body]
pub struct ExMmap(memmap2::Mmap);

#[verifier::external_type_specification]
#[verifier::external_body]
pub struct ExJsonValue(serde_json::Value);

#[verifier::external_type_specification]
#[verifier::external_body]
pub struct ExJsonError(serde_json::Error);

/// The byte contents of a mapping.  A `memmap2::Mmap` is a read-only
/// mapping, so one value has one contents for its whole lifetime.
pub uninterp spec fn mmap_bytes(m: memmap2::Mmap) -> Seq<u8>;

/// Relies on `memmap2::Mmap`'s `Deref<Target = [u8]>`: the whole mapped
/// region as a byte slice.
#[verifier::external_body]
fn mmap_as_slice(m: &memmap2::Mmap) -> (r: &[u8])
    ensures
        r@ == mmap_bytes(*m),
{
    &m[..]
}

/// Whether a byte sequence is a well-formed JSON document.
pub uninterp spec fn json_ok(b: Seq<u8>) -> bool;

/// The structured value that a well-formed JSON document denotes.
pub uninterp spec fn json_value_of(b: Seq<u8>) -> serde_json::Value;

/// Relies on `serde_json::from_slice`: parses a JSON document from bytes and
/// succeeds exactly on well-formed input; the outcome depends on the bytes
/// alone.
#[verifier::external_body]
fn json_from_slice(b: &[u8]) -> (r: Result<serde_json::Value, serde_json::Error>)
    ensures
        r is Ok <==> json_ok(b@),
        r matches Ok(v) ==> v == json_value_of(b@),
{
    serde_json::from_slice(b)
}

/// Why an archive, or a lookup into it, was rejected as invalid.  A missing
/// tile is never an error; it is the `None` outcome of a lookup.
#[derive(Clone, Copy, Debug, PartialEq, Eq, Structural)]
pub enum ArchiveError {
    /// The archive does not start with the fixed magic value.
    BadMagic,
    /// The header, a directory run or a fragment reaches past the end of the
    /// archive.
    Truncated,
    /// A leaf pointer's target length is not a whole number of records.
    MalformedDirectory,
    /// A directory entry's byte range reaches past the end of the archive.
    TileOutOfBounds,
    /// The metadata blob is not well-formed JSON.
    MalformedMetadata,
}

/// The magic value at the start of every archive.
pub const MAGIC: u16 = 0x4D50;

/// The magic field: the first two header bytes.
pub open spec fn spec_magic(a: Seq<u8>) -> int {
    le16(a.subrange(0, 2))
}

/// The format version field of the header.
pub open spec fn spec_version(a: Seq<u8>) -> int {
    le16(a.subrange(2, 4))
}

/// The metadata blob length field of the header.
pub open spec fn spec_metadata_len(a: Seq<u8>) -> int {
    le32(a.subrange(4, 8))
}

/// The root directory entry count field of the header.
pub open spec fn spec_root_entries(a: Seq<u8>) -> int {
    le16(a.subrange(8, 10))
}

/// Where the root directory records start: after the 10 header bytes and the
/// metadata blob.
pub open spec fn root_dir_offset(a: Seq<u8>) -> int {
    10 + spec_metadata_len(a)
}

/// The metadata blob: the bytes between the header and the root directory.
pub open spec fn metadata_bytes(a: Seq<u8>) -> Seq<u8> {
    a.subrange(10, root_dir_offset(a))
}

/// Whether the archive opens: the header is complete, the magic matches, and
/// the metadata blob and the root directory run lie within the archive.
pub open spec fn header_valid(a: Seq<u8>) -> bool {
    &&& a.len() >= 10
    &&& spec_magic(a) == MAGIC
    &&& root_dir_offset(a) + 17 * spec_root_entries(a) <= a.len()
}

/// The root decode: regular directory, leaf routing table, leaf level and
/// whether a leaf pointer was seen.
pub open spec fn spec_root_state(a: Seq<u8>) -> (
    Map<TileKey, TileEntry>,
    Map<TileKey, TileEntry>,
    u8,
    bool,
) {
    decode_records(a, root_dir_offset(a), spec_root_entries(a) as nat)
}

/// A coordinate divided by two to the `d`: the grid position at a zoom level
/// `d` steps coarser.
pub open spec fn rescaled(c: u32, d: nat) -> u32 {
    (c as nat / pow2(d)) as u32
}

/// The key that a lookup for `(z, x, y)` probes the leaf routing table with:
/// the coordinates rescaled down to the leaf level.
pub open spec fn leaf_probe_key(leaf_level: u8, z: u8, x: u32, y: u32) -> TileKey
    recommends
        leaf_level <= z,
{
    TileKey {
        z: leaf_level,
        x: rescaled(x, (z - leaf_level) as nat),
        y: rescaled(y, (z - leaf_level) as nat),
    }
}

/// Resolving a directory entry: the recorded byte range of the archive, or a
/// fault when the range reaches past its end.
pub open spec fn spec_tile(a: Seq<u8>, e: TileEntry) -> Result<Option<Seq<u8>>, ArchiveError> {
    if e.offset + e.length <= a.len() {
        Ok(Some(a.subrange(e.offset as int, e.offset + e.length)))
    } else {
        Err(ArchiveError::TileOutOfBounds)
    }
}

/// The outcome of a lookup for `(z, x, y)`: the root directory is probed
/// first; on a miss the leaf routing table delegates, at the rescaled
/// coordinates, to a fragment that is decoded and probed with the exact key.
/// `Ok(None)` is a plain miss; an error marks a corrupt archive.
pub open spec fn spec_lookup(
    a: Seq<u8>,
    root: Map<TileKey, TileEntry>,
    leaves: Map<TileKey, TileEntry>,
    leaf_level: u8,
    z: u8,
    x: u32,
    y: u32,
) -> Result<Option<Seq<u8>>, ArchiveError> {
    let k = TileKey { z, x, y };
    if root.contains_key(k) {
        spec_tile(a, root[k])
    } else if leaves.len() == 0 {
        Ok(None)
    } else if z < leaf_level {
        Ok(None)
    } else {
        let lk = leaf_probe_key(leaf_level, z, x, y);
        if !leaves.contains_key(lk) {
            Ok(None)
        } else {
            let fe = leaves[lk];
            if fe.length % 17 != 0 {
                Err(ArchiveError::MalformedDirectory)
            } else if fe.offset + fe.length > a.len() {
                Err(ArchiveError::Truncated)
            } else {
                let frag = decode_records(a, fe.offset as int, (fe.length as int / 17) as nat).0;
                if frag.contains_key(k) {
                    spec_tile(a, frag[k])
                } else {
                    Ok(None)
                }
            }
        }
    }
}

/// A read-only reader over one archive.  The root directory and the leaf
/// routing table are decoded once at construction and never change; leaf
/// fragments are decoded per lookup and dropped.
pub struct Reader {
    mmap: memmap2::Mmap,
    metadata_len: usize,
    root_entries_len: usize,
    root_dir: Directory,
    leaves: Directory,
    leaves_len: usize,
    leaf_level: u8,
}

impl Reader {
    /// The archive bytes.
    pub closed spec fn archive(&self) -> Seq<u8> {
        mmap_bytes(self.mmap)
    }

    /// The regular root directory.
    pub closed spec fn root_map(&self) -> Map<TileKey, TileEntry> {
        self.root_dir@
    }

    /// The leaf routing table.
    pub closed spec fn leaf_map(&self) -> Map<TileKey, TileEntry> {
        self.leaves@
    }

    /// The detected leaf level.
    pub closed spec fn leaf_level(&self) -> u8 {
        self.leaf_level
    }

    /// The reader holds exactly what decoding the archive's header and root
    /// directory run yields.
    pub closed spec fn wf(&self) -> bool {
        &&& header_valid(self.archive())
        &&& self.metadata_len == spec_metadata_len(self.archive())
        &&& self.root_entries_len == spec_root_entries(self.archive())
        &&& self.root_dir.wf()
        &&& self.leaves.wf()
        &&& self.root_dir@ == spec_root_state(self.archive()).0
        &&& self.leaves@ == spec_root_state(self.archive()).1
        &&& self.leaf_level == spec_root_state(self.archive()).2
        &&& self.leaves_len == self.leaves@.len()
    }

    /// The outcome that `get` must produce for `(z, x, y)`.
    pub open spec fn lookup_spec(&self, z: u8, x: u32, y: u32) -> Result<
        Option<Seq<u8>>,
        ArchiveError,
    > {
        spec_lookup(self.archive(), self.root_map(), self.leaf_map(), self.leaf_level(), z, x, y)
    }

    /// Builds a reader over a mapped archive: checks the magic, reads the
    /// header fields, and decodes the root directory run.  Construction
    /// fails, and no reader exists, exactly when the archive is not a valid
    /// instance of the format.
    pub fn new(mmap: memmap2::Mmap) -> (r: Result<Reader, ArchiveError>)
        ensures
            ({
                let a = mmap_bytes(mmap);
                &&& (r is Ok <==> header_valid(a))
                &&& (a.len() < 10 ==> r == Err::<Reader, ArchiveError>(ArchiveError::Truncated))
                &&& (a.len() >= 10 && spec_magic(a) != MAGIC ==> r == Err::<Reader, ArchiveError>(
                    ArchiveError::BadMagic,
                ))
                &&& (a.len() >= 10 && spec_magic(a) == MAGIC && root_dir_offset(a) + 17
                    * spec_root_entries(a) > a.len() ==> r == Err::<Reader, ArchiveError>(
                    ArchiveError::Truncated,
                ))
                &&& (r matches Ok(rd) ==> {
                    &&& rd.wf()
                    &&& rd.archive() == a
                    &&& rd.root_map() == spec_root_state(a).0
                    &&& rd.leaf_map() == spec_root_state(a).1
                    &&& rd.leaf_level() == spec_root_state(a).2
                })
            }),
    {
        let a = mmap_as_slice(&mmap);
        let alen: usize = a.len();
        if alen < 10 {
            return Err(ArchiveError::Truncated);
        }
        let magic = read_u16_le(a, 0);
        if magic != MAGIC {
            return Err(ArchiveError::BadMagic);
        }
        let metadata_len = read_u32_le(a, 4) as usize;
        let root_entries_len = read_u16_le(a, 8) as usize;
        if metadata_len > alen - 10 {
            return Err(ArchiveError::Truncated);
        }
        let dir_off = 10 + metadata_len;
        let dir_bytes = root_entries_len * 17;
        if dir_bytes > alen - dir_off {
            return Err(ArchiveError::Truncated);
        }
        let (root_dir, leaves, leaf_level) = load_directory(a, dir_off, root_entries_len);
        let leaves_len = leaves.len();
        Ok(
            Reader {
                mmap,
                metadata_len,
                root_entries_len,
                root_dir,
                leaves,
                leaves_len,
                leaf_level,
            },
        )
    }

    /// The format version recorded in the header.
    pub fn get_version(&self) -> (v: u16)
        requires
            self.wf(),
        ensures
            v == spec_version(self.archive()),
    {
        let a = mmap_as_slice(&self.mmap);
        read_u16_le(a, 2)
    }

    /// Parses the metadata blob as JSON: the value denoted by exactly the
    /// blob's bytes.  It fails, with the one error kind for malformed
    /// metadata, exactly when the blob is not well-formed.
    pub fn get_metadata(&self) -> (r: Result<serde_json::Value, ArchiveError>)
        requires
            self.wf(),
        ensures
            r is Ok <==> json_ok(metadata_bytes(self.archive())),
            r matches Ok(v) ==> v == json_value_of(metadata_bytes(self.archive())),
            r is Err ==> r == Err::<serde_json::Value, ArchiveError>(ArchiveError::MalformedMetadata),
    {
        let a = mmap_as_slice(&self.mmap);
        // Pins the slice length as a usize, bounding the subrange arithmetic.
        let _alen: usize = a.len();
        let raw = slice_subrange(a, 10, 10 + self.metadata_len);
        match json_from_slice(raw) {
            Ok(v) => Ok(v),
            Err(_) => Err(ArchiveError::MalformedMetadata),
        }
    }

    /// How many records the root directory run holds.
    pub fn root_entries_len(&self) -> (n: usize)
        requires
            self.wf(),
        ensures
            n == spec_root_entries(self.archive()),
    {
        self.root_entries_len
    }

    /// How many distinct keys the leaf routing table holds.
    pub fn leaves_len(&self) -> (n: usize)
        requires
            self.wf(),
        ensures
            n == self.leaf_map().len(),
    {
        self.leaves_len
    }

    /// Looks the tile `(z, x, y)` up: the root directory first, then, on a
    /// miss, the leaf routing table at the rescaled coordinates, whose hit
    /// names a fragment that is decoded and probed with the exact key.
    /// Returns the tile's bytes, `None` for a miss, or the error that marks
    /// the archive corrupt.
    pub fn get(&self, z: u8, x: u32, y: u32) -> (r: Result<Option<&[u8]>, ArchiveError>)
        requires
            self.wf(),
        ensures
            ({
                let m = self.lookup_spec(z, x, y);
                match r {
                    Ok(Some(bytes)) => m == Ok::<Option<Seq<u8>>, ArchiveError>(Some(bytes@)),
                    Ok(None) => m == Ok::<Option<Seq<u8>>, ArchiveError>(None),
                    Err(e) => m == Err::<Option<Seq<u8>>, ArchiveError>(e),
                }
            }),
    {
        let a = mmap_as_slice(&self.mmap);
        let key = TileKey { z, x, y };
        if let Some(e) = self.root_dir.get(key) {
            return tile_slice(a, e);
        }
        if self.leaves_len == 0 {
            return Ok(None);
        }
        if z < self.leaf_level {
            return Ok(None);
        }
        let d = z - self.leaf_level;
        let lkey = TileKey { z: self.leaf_level, x: rescale_coord(x, d), y: rescale_coord(y, d) };
        match self.leaves.get(lkey) {
            None => Ok(None),
            Some(fe) => {
                if fe.length % 17 != 0 {
                    return Err(ArchiveError::MalformedDirectory);
                }
                let alen: usize = a.len();
                if !(fe.offset <= alen as u64 && fe.length as u64 <= alen as u64 - fe.offset) {
                    return Err(ArchiveError::Truncated);
                }
                let n = (fe.length / 17) as usize;
                proof {
                    lemma_fundamental_div_mod(fe.length as int, 17);
                }
                let (frag, _frag_leaves, _frag_level) = load_directory(a, fe.offset as usize, n);
                match frag.get(key) {
                    Some(e2) => tile_slice(a, e2),
                    None => Ok(None),
                }
            },
        }
    }
}

/// Resolves a directory entry into the recorded byte range, or reports the
/// range as out of bounds.
fn tile_slice<'a>(a: &'a [u8], e: TileEntry) -> (r: Result<Option<&'a [u8]>, ArchiveError>)
    ensures
        match r {
            Ok(Some(b)) => spec_tile(a@, e) == Ok::<Option<Seq<u8>>, ArchiveError>(Some(b@)),
            Ok(None) => false,
            Err(err) => spec_tile(a@, e) == Err::<Option<Seq<u8>>, ArchiveError>(err),
        },
{
    let alen: usize = a.len();
    if e.offset <= alen as u64 && e.length as u64 <= alen as u64 - e.offset {
        let start = e.offset as usize;
        let end = start + e.length as usize;
        Ok(Some(slice_subrange(a, start, end)))
    } else {
        Err(ArchiveError::TileOutOfBounds)
    }
}

/// Divides a coordinate by two to the `d`, for any `d`.
fn rescale_coord(c: u32, d: u8) -> (r: u32)
    ensures
        r == rescaled(c, d as nat),
{
    if d >= 32 {
        proof {
            lemma2_to64();
            if d > 32 {
                lemma_pow2_strictly_increases(32, d as nat);
            }
            assert(c < pow2(d as nat));
            lemma_basic_div(c as int, pow2(d as nat) as int);
        }
        0
    } else {
        proof {
            lemma_u32_shr_is_div(c, d as u32);
        }
        c >> (d as u32)
    }
}

} // verus!
