//! Directories: mappings from tile coordinates to payload locations, and the
//! decoder that builds them from a run of fixed-size 17-byte records.
//!
//! A record is one byte of zoom (its top bit marks a leaf pointer, the low
//! seven bits are the zoom level), a 3-byte x coordinate, a 3-byte y
//! coordinate, a 6-byte payload offset and a 4-byte payload length, all
//! little-endian.  Decoding a run partitions it into a regular directory and
//! a leaf directory, and reports the zoom level of the first leaf pointer
//! seen (0 when there is none).

use vstd::prelude::*;

use crate::codec::le24;
use crate::codec::le32;
use crate::codec::le48;

verus! {

/// Identifies a tile: zoom level and grid coordinates.
#[derive(Clone, Copy, Debug, PartialEq, Eq, Structural)]
pub struct TileKey {
    pub z: u8,
    pub x: u32,
    pub y: u32,
}

/// Where a payload lives in the archive: byte offset and byte length.
#[derive(Clone, Copy, Debug, PartialEq, Eq, Structural)]
pub struct TileEntry {
    pub offset: u64,
    pub length: u32,
}

/// The mapping described by a run of key/entry pairs, later pairs winning.
pub open spec fn entries_map(s: Seq<(TileKey, TileEntry)>) -> Map<TileKey, TileEntry>
    decreases s.len(),
{
    if s.len() == 0 {
        Map::empty()
    } else {
        entries_map(s.drop_last()).insert(s.last().0, s.last().1)
    }
}

/// A directory: a mapping from `TileKey` to `TileEntry`, keys unique, order
/// irrelevant.
pub struct Directory {
    items: Vec<(TileKey, TileEntry)>,
}

impl View for Directory {
    type V = Map<TileKey, TileEntry>;

    closed spec fn view(&self) -> Map<TileKey, TileEntry> {
        entries_map(self.items@)
    }
}

proof fn lemma_entries_map_contains(s: Seq<(TileKey, TileEntry)>, k: TileKey)
    ensures
        entries_map(s).contains_key(k) <==> exists|i: int| 0 <= i < s.len() && s[i].0 == k,
    decreases s.len(),
{
    if s.len() > 0 {
        lemma_entries_map_contains(s.drop_last(), k);
        let t = s.drop_last();
        if entries_map(s).contains_key(k) {
            if s.last().0 == k {
                assert(s[s.len() - 1].0 == k);
            } else {
                let i = choose|i: int| 0 <= i < t.len() && t[i].0 == k;
                assert(s[i].0 == k);
            }
        }
        if exists|i: int| 0 <= i < s.len() && s[i].0 == k {
            let i = choose|i: int| 0 <= i < s.len() && s[i].0 == k;
            if i < s.len() - 1 {
                assert(t[i].0 == k);
            }
        }
    }
}

proof fn lemma_entries_map_index(s: Seq<(TileKey, TileEntry)>, i: int, k: TileKey)
    requires
        forall|p: int, q: int| 0 <= p < q < s.len() ==> s[p].0 != s[q].0,
        0 <= i < s.len(),
        s[i].0 == k,
    ensures
        entries_map(s).contains_key(k),
        entries_map(s)[k] == s[i].1,
    decreases s.len(),
{
    if i == s.len() - 1 {
    } else {
        assert(s[i].0 != s[s.len() - 1].0);
        lemma_entries_map_index(s.drop_last(), i, k);
    }
}

proof fn lemma_entries_map_len(s: Seq<(TileKey, TileEntry)>)
    requires
        forall|p: int, q: int| 0 <= p < q < s.len() ==> s[p].0 != s[q].0,
    ensures
        entries_map(s).dom().finite(),
        entries_map(s).dom().len() == s.len(),
    decreases s.len(),
{
    if s.len() > 0 {
        let t = s.drop_last();
        lemma_entries_map_len(t);
        lemma_entries_map_contains(t, s.last().0);
        assert(forall|i: int| 0 <= i < t.len() ==> t[i].0 != s.last().0);
        assert(!entries_map(t).contains_key(s.last().0));
        vstd::map::axiom_map_insert_domain(entries_map(t), s.last().0, s.last().1);
        vstd::set::axiom_set_insert_len(entries_map(t).dom(), s.last().0);
    }
}

proof fn lemma_entries_map_update(s: Seq<(TileKey, TileEntry)>, i: int, k: TileKey, e: TileEntry)
    requires
        forall|p: int, q: int| 0 <= p < q < s.len() ==> s[p].0 != s[q].0,
        0 <= i < s.len(),
        s[i].0 == k,
    ensures
        entries_map(s.update(i, (k, e))) == entries_map(s).insert(k, e),
    decreases s.len(),
{
    let t = s.update(i, (k, e));
    if i == s.len() - 1 {
        assert(t.drop_last() =~= s.drop_last());
        assert(entries_map(t) =~= entries_map(s).insert(k, e));
    } else {
        assert(s[i].0 != s[s.len() - 1].0);
        assert(t.drop_last() =~= s.drop_last().update(i, (k, e)));
        lemma_entries_map_update(s.drop_last(), i, k, e);
        assert(entries_map(t) == entries_map(s.drop_last()).insert(k, e).insert(
            s.last().0,
            s.last().1,
        ));
        assert(entries_map(s.drop_last()).insert(k, e).insert(s.last().0, s.last().1)
            =~= entries_map(s).insert(k, e));
    }
}

impl Directory {
    /// Keys are unique across the stored pairs.
    pub closed spec fn wf(&self) -> bool {
        forall|p: int, q: int| 0 <= p < q < self.items@.len() ==> self.items@[p].0
            != self.items@[q].0
    }

    /// An empty directory.
    pub fn new() -> (d: Directory)
        ensures
            d@ == Map::<TileKey, TileEntry>::empty(),
            d.wf(),
    {
        Directory { items: Vec::new() }
    }

    /// Inserts an entry, replacing any entry already stored under the key.
    pub fn insert(&mut self, k: TileKey, e: TileEntry)
        requires
            old(self).wf(),
        ensures
            final(self).wf(),
            final(self)@ == old(self)@.insert(k, e),
    {
        let n = self.items.len();
        let mut i: usize = 0;
        while i < n
            invariant
                self.wf(),
                n == self.items@.len(),
                i <= n,
                self.items@ == old(self).items@,
                forall|j: int| 0 <= j < i ==> self.items@[j].0 != k,
            decreases n - i,
        {
            let (ki, _) = self.items[i];
            if ki == k {
                proof {
                    lemma_entries_map_update(self.items@, i as int, k, e);
                    let s = self.items@;
                    let t = s.update(i as int, (k, e));
                    assert(forall|j: int| 0 <= j < t.len() ==> t[j].0 == s[j].0);
                }
                self.items.set(i, (k, e));
                return ;
            }
            i += 1;
        }
        proof {
            let t = self.items@.push((k, e));
            assert(t.drop_last() =~= self.items@);
            assert(forall|p: int, q: int| 0 <= p < q < t.len() ==> t[p].0 != t[q].0);
        }
        self.items.push((k, e));
    }

    /// Looks a key up; `Some` exactly when the directory maps it.
    pub fn get(&self, k: TileKey) -> (r: Option<TileEntry>)
        requires
            self.wf(),
        ensures
            match r {
                Some(e) => self@.contains_key(k) && self@[k] == e,
                None => !self@.contains_key(k),
            },
    {
        let n = self.items.len();
        let mut i: usize = 0;
        while i < n
            invariant
                self.wf(),
                n == self.items@.len(),
                i <= n,
                forall|j: int| 0 <= j < i ==> self.items@[j].0 != k,
            decreases n - i,
        {
            let (ki, ei) = self.items[i];
            if ki == k {
                proof {
                    lemma_entries_map_index(self.items@, i as int, k);
                }
                return Some(ei);
            }
            i += 1;
        }
        proof {
            lemma_entries_map_contains(self.items@, k);
        }
        None
    }

    /// How many keys the directory maps.
    pub fn len(&self) -> (n: usize)
        requires
            self.wf(),
        ensures
            n == self@.len(),
    {
        proof {
            lemma_entries_map_len(self.items@);
        }
        self.items.len()
    }
}

/// Whether the record at byte offset `o` is a leaf pointer: its zoom byte has
/// the top bit set.
pub open spec fn rec_is_leaf(a: Seq<u8>, o: int) -> bool {
    a[o] & 0x80 != 0
}

/// The zoom level of the record at `o`, with the leaf flag cleared.
pub open spec fn rec_leaf_zoom(a: Seq<u8>, o: int) -> u8 {
    a[o] & 0x7f
}

/// The x coordinate of the record at `o`.
pub open spec fn rec_x(a: Seq<u8>, o: int) -> u32 {
    le24(a.subrange(o + 1, o + 4)) as u32
}

/// The y coordinate of the record at `o`.
pub open spec fn rec_y(a: Seq<u8>, o: int) -> u32 {
    le24(a.subrange(o + 4, o + 7)) as u32
}

/// The key of a regular tile record at `o`: its zoom byte as stored.
pub open spec fn rec_tile_key(a: Seq<u8>, o: int) -> TileKey {
    TileKey { z: a[o], x: rec_x(a, o), y: rec_y(a, o) }
}

/// The key of a leaf record at `o`: its zoom with the flag cleared.
pub open spec fn rec_leaf_key(a: Seq<u8>, o: int) -> TileKey {
    TileKey { z: rec_leaf_zoom(a, o), x: rec_x(a, o), y: rec_y(a, o) }
}

/// The key under which the record at `o` is filed: the leaf key of a leaf
/// record, the tile key of a regular one.
pub open spec fn rec_routed_key(a: Seq<u8>, o: int) -> TileKey {
    if rec_is_leaf(a, o) {
        rec_leaf_key(a, o)
    } else {
        rec_tile_key(a, o)
    }
}

/// The payload location recorded at `o`.
pub open spec fn rec_entry(a: Seq<u8>, o: int) -> TileEntry {
    TileEntry {
        offset: le48(a.subrange(o + 7, o + 13)) as u64,
        length: le32(a.subrange(o + 13, o + 17)) as u32,
    }
}

/// One decoding step: routes the record at `o` into the state
/// `(regular, leaves, leaf level, leaf seen)`.  The leaf level is fixed by
/// the first leaf record and never revised.
pub open spec fn decode_step(
    st: (Map<TileKey, TileEntry>, Map<TileKey, TileEntry>, u8, bool),
    a: Seq<u8>,
    o: int,
) -> (Map<TileKey, TileEntry>, Map<TileKey, TileEntry>, u8, bool) {
    if rec_is_leaf(a, o) {
        (
            st.0,
            st.1.insert(rec_leaf_key(a, o), rec_entry(a, o)),
            if st.3 {
                st.2
            } else {
                rec_leaf_zoom(a, o)
            },
            true,
        )
    } else {
        (st.0.insert(rec_tile_key(a, o), rec_entry(a, o)), st.1, st.2, st.3)
    }
}

/// The state after decoding `n` consecutive records starting at `off`.
pub open spec fn decode_records(a: Seq<u8>, off: int, n: nat) -> (
    Map<TileKey, TileEntry>,
    Map<TileKey, TileEntry>,
    u8,
    bool,
)
    decreases n,
{
    if n == 0 {
        (Map::empty(), Map::empty(), 0u8, false)
    } else {
        decode_step(decode_records(a, off, (n - 1) as nat), a, off + 17 * (n - 1))
    }
}

/// Decodes `num_entries` consecutive 17-byte records starting at `offset`
/// into a regular directory and a leaf directory, and reports the detected
/// leaf level (0 when no leaf pointer was seen).  The caller guarantees that
/// the run lies within `archive`.
pub fn load_directory(archive: &[u8], offset: usize, num_entries: usize) -> (r: (
    Directory,
    Directory,
    u8,
))
    requires
        offset + num_entries * 17 <= archive@.len(),
    ensures
        ({
            let d = decode_records(archive@, offset as int, num_entries as nat);
            r.0@ == d.0 && r.1@ == d.1 && r.2 == d.2 && r.0.wf() && r.1.wf()
        }),
{
    let alen: usize = archive.len();
    let mut directory = Directory::new();
    let mut leaves = Directory::new();
    let mut leaf_level: u8 = 0;
    let mut seen_leaf: bool = false;
    let mut i: usize = 0;
    while i < num_entries
        invariant
            i <= num_entries,
            alen == archive@.len(),
            offset + num_entries * 17 <= alen,
            directory.wf(),
            leaves.wf(),
            (directory@, leaves@, leaf_level, seen_leaf) == decode_records(
                archive@,
                offset as int,
                i as nat,
            ),
        decreases num_entries - i,
    {
        let o = offset + i * 17;
        let z = *vstd::slice::slice_index_get(archive, o);
        let x = crate::codec::read_u24_le(archive, o + 1);
        let y = crate::codec::read_u24_le(archive, o + 4);
        let tile_off = crate::codec::read_u48_le(archive, o + 7);
        let tile_len = crate::codec::read_u32_le(archive, o + 13);
        let entry = TileEntry { offset: tile_off, length: tile_len };
        if z & 0x80 > 0 {
            if !seen_leaf {
                leaf_level = z & 0x7f;
                seen_leaf = true;
            }
            leaves.insert(TileKey { z: z & 0x7f, x, y }, entry);
        } else {
            directory.insert(TileKey { z, x, y }, entry);
        }
        proof {
            assert(decode_records(archive@, offset as int, (i + 1) as nat) == decode_step(
                decode_records(archive@, offset as int, i as nat),
                archive@,
                offset + 17 * i,
            ));
        }
        i += 1;
    }
    (directory, leaves, leaf_level)
}

} // verus!
