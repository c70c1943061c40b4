//! The library's general guarantees, each stated and proved over the spec
//! functions that the reader's contracts use.

use vstd::arithmetic::power2::lemma2_to64;
use vstd::prelude::*;

use crate::directory::decode_records;
use crate::directory::rec_entry;
use crate::directory::rec_is_leaf;
use crate::directory::rec_leaf_key;
use crate::directory::rec_routed_key;
use crate::directory::rec_tile_key;
use crate::directory::TileEntry;
use crate::directory::TileKey;
use crate::reader::leaf_probe_key;
use crate::reader::rescaled;
use crate::reader::spec_lookup;
use crate::reader::ArchiveError;

verus! {

/// A key present in the root directory, whose entry lies within the archive,
/// resolves to exactly the bytes at the recorded offset and length.
pub proof fn lemma_root_hit(
    a: Seq<u8>,
    root: Map<TileKey, TileEntry>,
    leaves: Map<TileKey, TileEntry>,
    leaf_level: u8,
    z: u8,
    x: u32,
    y: u32,
)
    requires
        root.contains_key(TileKey { z, x, y }),
        root[TileKey { z, x, y }].offset + root[TileKey { z, x, y }].length <= a.len(),
    ensures
        ({
            let e = root[TileKey { z, x, y }];
            spec_lookup(a, root, leaves, leaf_level, z, x, y) == Ok::<
                Option<Seq<u8>>,
                ArchiveError,
            >(Some(a.subrange(e.offset as int, e.offset + e.length)))
        }),
{
}

/// A key absent from the root directory and from every fragment the lookup
/// can reach resolves to a plain miss, never to an error: the leaf routing
/// table is empty, or the requested zoom lies above it, or the probe misses,
/// or the probed fragment is whole, within bounds, and free of the key.
pub proof fn lemma_absent_not_found(
    a: Seq<u8>,
    root: Map<TileKey, TileEntry>,
    leaves: Map<TileKey, TileEntry>,
    leaf_level: u8,
    z: u8,
    x: u32,
    y: u32,
)
    requires
        !root.contains_key(TileKey { z, x, y }),
        ({
            let lk = leaf_probe_key(leaf_level, z, x, y);
            ||| leaves.len() == 0
            ||| z < leaf_level
            ||| !leaves.contains_key(lk)
            ||| {
                &&& leaves[lk].length % 17 == 0
                &&& leaves[lk].offset + leaves[lk].length <= a.len()
                &&& !decode_records(
                    a,
                    leaves[lk].offset as int,
                    (leaves[lk].length as int / 17) as nat,
                ).0.contains_key(TileKey { z, x, y })
            }
        }),
    ensures
        spec_lookup(a, root, leaves, leaf_level, z, x, y) == Ok::<Option<Seq<u8>>, ArchiveError>(
            None,
        ),
{
}

/// Leaf delegation is deterministic: two keys at one zoom level whose
/// coordinates rescale to the same coarse pair probe the leaf routing table
/// with the same key, and so resolve through the same fragment.
pub proof fn lemma_delegation_deterministic(
    leaves: Map<TileKey, TileEntry>,
    leaf_level: u8,
    z: u8,
    x1: u32,
    y1: u32,
    x2: u32,
    y2: u32,
)
    requires
        leaf_level <= z,
        rescaled(x1, (z - leaf_level) as nat) == rescaled(x2, (z - leaf_level) as nat),
        rescaled(y1, (z - leaf_level) as nat) == rescaled(y2, (z - leaf_level) as nat),
    ensures
        leaf_probe_key(leaf_level, z, x1, y1) == leaf_probe_key(leaf_level, z, x2, y2),
        leaves.contains_key(leaf_probe_key(leaf_level, z, x1, y1)) ==> leaves[leaf_probe_key(
            leaf_level,
            z,
            x1,
            y1,
        )] == leaves[leaf_probe_key(leaf_level, z, x2, y2)],
{
}

/// A run of `n` records spans `17 * n` bytes, and that byte length divides
/// back to exactly `n` records.
pub proof fn lemma_entry_count_round_trip(n: nat, byte_length: nat)
    requires
        byte_length == 17 * n,
    ensures
        byte_length % 17 == 0,
        byte_length / 17 == n,
{
    assert(byte_length % 17 == 0 && byte_length / 17 == n) by (nonlinear_arith)
        requires
            byte_length == 17 * n,
    ;
}

/// A delegated lookup that reaches a leaf pointer whose target length is not
/// a whole number of records reports the archive as malformed rather than
/// guessing at a record count.
pub proof fn lemma_malformed_fragment_flagged(
    a: Seq<u8>,
    root: Map<TileKey, TileEntry>,
    leaves: Map<TileKey, TileEntry>,
    leaf_level: u8,
    z: u8,
    x: u32,
    y: u32,
)
    requires
        !root.contains_key(TileKey { z, x, y }),
        leaves.len() > 0,
        z >= leaf_level,
        leaves.contains_key(leaf_probe_key(leaf_level, z, x, y)),
        leaves[leaf_probe_key(leaf_level, z, x, y)].length % 17 != 0,
    ensures
        spec_lookup(a, root, leaves, leaf_level, z, x, y) == Err::<Option<Seq<u8>>, ArchiveError>(
            ArchiveError::MalformedDirectory,
        ),
{
}

/// Every key in the decoded state comes from a record of the run, with the
/// matching leafness.
spec fn decode_keys_from_records(a: Seq<u8>, off: int, n: nat) -> bool {
    &&& forall|k: TileKey|
        #[trigger] decode_records(a, off, n).0.contains_key(k) ==> exists|j: int|
            0 <= j < n && !rec_is_leaf(a, off + 17 * j) && (#[trigger] rec_routed_key(
                a,
                off + 17 * j,
            )) == k
    &&& forall|k: TileKey|
        #[trigger] decode_records(a, off, n).1.contains_key(k) ==> exists|j: int|
            0 <= j < n && rec_is_leaf(a, off + 17 * j) && (#[trigger] rec_routed_key(
                a,
                off + 17 * j,
            )) == k
}

proof fn lemma_decode_key_origin(a: Seq<u8>, off: int, n: nat)
    ensures
        decode_keys_from_records(a, off, n),
    decreases n,
{
    if n > 0 {
        lemma_decode_key_origin(a, off, (n - 1) as nat);
        let o = off + 17 * (n - 1);
        assert forall|k: TileKey| #[trigger]
            decode_records(a, off, n).0.contains_key(k) implies exists|j: int|
            0 <= j < n && !rec_is_leaf(a, off + 17 * j) && (#[trigger] rec_routed_key(
                a,
                off + 17 * j,
            )) == k by {
            if !rec_is_leaf(a, o) && rec_routed_key(a, o) == k {
                assert(0 <= n - 1 < n && !rec_is_leaf(a, off + 17 * (n - 1)) && rec_routed_key(
                    a,
                    off + 17 * (n - 1),
                ) == k);
            } else {
                assert(decode_records(a, off, (n - 1) as nat).0.contains_key(k));
                let j = choose|j: int|
                    0 <= j < n - 1 && !rec_is_leaf(a, off + 17 * j) && (#[trigger] rec_routed_key(
                        a,
                        off + 17 * j,
                    )) == k;
                assert(0 <= j < n && !rec_is_leaf(a, off + 17 * j) && rec_routed_key(a, off + 17
                    * j) == k);
            }
        }
        assert forall|k: TileKey| #[trigger]
            decode_records(a, off, n).1.contains_key(k) implies exists|j: int|
            0 <= j < n && rec_is_leaf(a, off + 17 * j) && (#[trigger] rec_routed_key(
                a,
                off + 17 * j,
            )) == k by {
            if rec_is_leaf(a, o) && rec_routed_key(a, o) == k {
                assert(0 <= n - 1 < n && rec_is_leaf(a, off + 17 * (n - 1)) && rec_routed_key(
                    a,
                    off + 17 * (n - 1),
                ) == k);
            } else {
                assert(decode_records(a, off, (n - 1) as nat).1.contains_key(k));
                let j = choose|j: int|
                    0 <= j < n - 1 && rec_is_leaf(a, off + 17 * j) && (#[trigger] rec_routed_key(
                        a,
                        off + 17 * j,
                    )) == k;
                assert(0 <= j < n && rec_is_leaf(a, off + 17 * j) && rec_routed_key(a, off + 17
                    * j) == k);
            }
        }
    }
}

/// Decoding a run whose records all carry distinct routed keys loses none of
/// them: the regular directory and the leaf directory together hold exactly
/// one entry per record.
pub proof fn lemma_decode_count(a: Seq<u8>, off: int, n: nat)
    requires
        forall|p: int, q: int|
            0 <= p < q < n ==> (#[trigger] rec_routed_key(a, off + 17 * p)) != (
            #[trigger] rec_routed_key(a, off + 17 * q)),
    ensures
        decode_records(a, off, n).0.dom().finite(),
        decode_records(a, off, n).1.dom().finite(),
        decode_records(a, off, n).0.len() + decode_records(a, off, n).1.len() == n,
    decreases n,
{
    if n == 0 {
        assert(decode_records(a, off, n).0.dom() =~= Set::empty());
        assert(decode_records(a, off, n).1.dom() =~= Set::empty());
    } else {
        lemma_decode_count(a, off, (n - 1) as nat);
        lemma_decode_key_origin(a, off, (n - 1) as nat);
        let st = decode_records(a, off, (n - 1) as nat);
        let o = off + 17 * (n - 1);
        let k = rec_routed_key(a, o);
        if rec_is_leaf(a, o) {
            assert(!st.1.contains_key(k)) by {
                if st.1.contains_key(k) {
                    let j = choose|j: int|
                        0 <= j < n - 1 && rec_is_leaf(a, off + 17 * j) && (
                        #[trigger] rec_routed_key(a, off + 17 * j)) == k;
                    assert(rec_routed_key(a, off + 17 * j) != rec_routed_key(a, off + 17 * (n
                        - 1)));
                }
            }
            vstd::map::axiom_map_insert_domain(st.1, rec_leaf_key(a, o), rec_entry(a, o));
            vstd::set::axiom_set_insert_len(st.1.dom(), rec_leaf_key(a, o));
        } else {
            assert(!st.0.contains_key(k)) by {
                if st.0.contains_key(k) {
                    let j = choose|j: int|
                        0 <= j < n - 1 && !rec_is_leaf(a, off + 17 * j) && (
                        #[trigger] rec_routed_key(a, off + 17 * j)) == k;
                    assert(rec_routed_key(a, off + 17 * j) != rec_routed_key(a, off + 17 * (n
                        - 1)));
                }
            }
            vstd::map::axiom_map_insert_domain(st.0, rec_tile_key(a, o), rec_entry(a, o));
            vstd::set::axiom_set_insert_len(st.0.dom(), rec_tile_key(a, o));
        }
    }
}

/// Decoding reads nothing outside the run: two archives that agree on the
/// `17 * n` bytes from `off` decode to the same directories and leaf level.
pub proof fn lemma_decode_reads_only_run(a1: Seq<u8>, a2: Seq<u8>, off: int, n: nat)
    requires
        0 <= off,
        off + 17 * n <= a1.len(),
        off + 17 * n <= a2.len(),
        a1.subrange(off, off + 17 * n) == a2.subrange(off, off + 17 * n),
    ensures
        decode_records(a1, off, n) == decode_records(a2, off, n),
    decreases n,
{
    assert forall|j: int| off <= j < off + 17 * n implies (#[trigger] a1[j]) == a2[j] by {
        assert(a1[j] == a1.subrange(off, off + 17 * n)[j - off]);
        assert(a2[j] == a2.subrange(off, off + 17 * n)[j - off]);
    }
    if n > 0 {
        assert(a1.subrange(off, off + 17 * (n - 1)) =~= a2.subrange(off, off + 17 * (n - 1)));
        lemma_decode_reads_only_run(a1, a2, off, (n - 1) as nat);
        let o = off + 17 * (n - 1);
        assert(a1[o] == a2[o]);
        assert(a1.subrange(o + 1, o + 4) =~= a2.subrange(o + 1, o + 4));
        assert(a1.subrange(o + 4, o + 7) =~= a2.subrange(o + 4, o + 7));
        assert(a1.subrange(o + 7, o + 13) =~= a2.subrange(o + 7, o + 13));
        assert(a1.subrange(o + 13, o + 17) =~= a2.subrange(o + 13, o + 17));
    }
}

/// A lookup at exactly the leaf level probes the leaf routing table with the
/// coordinates unshifted.
pub proof fn lemma_leaf_level_no_shift(leaf_level: u8, x: u32, y: u32)
    ensures
        leaf_probe_key(leaf_level, leaf_level, x, y) == (TileKey { z: leaf_level, x, y }),
{
    lemma2_to64();
    assert(rescaled(x, 0) == x);
    assert(rescaled(y, 0) == y);
}

} // verus!
