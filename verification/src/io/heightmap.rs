//! The binary heightmap file: the x and y offsets and the scale (the bit
//! patterns of their floating-point values), the width and height of the grid,
//! then the cells row by row (bit patterns too); every field is a
//! little-endian `u64`.

use vstd::prelude::*;
use vstd::bytes::*;

verus! {

/// A heightmap as stored: the bit patterns of its floating-point values.
pub struct HeightMapBits {
    pub xoffset_bits: u64,
    pub yoffset_bits: u64,
    pub scale_bits: u64,
    pub width: u64,
    pub height: u64,
    /// The cells, row by row.
    pub cells: Vec<u64>,
}

impl HeightMapBits {
    /// The fields, the cells as a sequence.
    pub open spec fn parts(&self) -> (u64, u64, u64, u64, u64, Seq<u64>) {
        (self.xoffset_bits, self.yoffset_bits, self.scale_bits, self.width, self.height, self.cells@)
    }
}

/// The encodings of the cells, one after the other.
pub open spec fn cells_bytes(cs: Seq<u64>) -> Seq<u8>
    decreases cs.len(),
{
    if cs.len() == 0 {
        Seq::empty()
    } else {
        cells_bytes(cs.drop_last()) + spec_u64_to_le_bytes(cs.last())
    }
}

/// The file that holds a heightmap with these fields.
pub open spec fn heightmap_bytes(parts: (u64, u64, u64, u64, u64, Seq<u64>)) -> Seq<u8> {
    spec_u64_to_le_bytes(parts.0) + spec_u64_to_le_bytes(parts.1) + spec_u64_to_le_bytes(parts.2)
        + spec_u64_to_le_bytes(parts.3) + spec_u64_to_le_bytes(parts.4) + cells_bytes(parts.5)
}

/// The little-endian `u64` at offset `off`.
pub open spec fn u64_at(b: Seq<u8>, off: int) -> u64 {
    spec_u64_from_le_bytes(b.subrange(off, off + 8))
}

/// The heightmap that the bytes `b` begin with: `None` when they end before
/// its header or before its last cell. Bytes after the last cell are ignored.
pub open spec fn heightmap_decoded(b: Seq<u8>) -> Option<(u64, u64, u64, u64, u64, Seq<u64>)> {
    if b.len() < 40 {
        None
    } else {
        let w = u64_at(b, 24);
        let h = u64_at(b, 32);
        if 40 + 8 * (w * h) > b.len() {
            None
        } else {
            Some(
                (
                    u64_at(b, 0),
                    u64_at(b, 8),
                    u64_at(b, 16),
                    w,
                    h,
                    Seq::new((w * h) as nat, |i: int| u64_at(b, 40 + 8 * i)),
                ),
            )
        }
    }
}

/// The encoding of cells is eight bytes a cell, each the cell's encoding.
pub proof fn lemma_cells_bytes(cs: Seq<u64>)
    ensures
        cells_bytes(cs).len() == 8 * cs.len(),
        forall|i: int|
            0 <= i < cs.len() ==> #[trigger] cells_bytes(cs).subrange(8 * i, 8 * i + 8)
                == spec_u64_to_le_bytes(cs[i]),
    decreases cs.len(),
{
    lemma_auto_spec_u64_to_from_le_bytes();
    if cs.len() > 0 {
        let p = cs.drop_last();
        lemma_cells_bytes(p);
        let b = cells_bytes(cs);
        assert forall|i: int| 0 <= i < cs.len() implies #[trigger] b.subrange(8 * i, 8 * i + 8)
            == spec_u64_to_le_bytes(cs[i]) by {
            if i < p.len() {
                assert(b.subrange(8 * i, 8 * i + 8) =~= cells_bytes(p).subrange(8 * i, 8 * i + 8));
                assert(cs[i] == p[i]);
            } else {
                assert(b.subrange(8 * i, 8 * i + 8) =~= spec_u64_to_le_bytes(cs.last()));
            }
        }
    }
}

/// The file of a heightmap holds, in order, the x offset, the y offset, the
/// scale, the width, the height, and then the cells, eight bytes each.
pub proof fn lemma_heightmap_layout(parts: (u64, u64, u64, u64, u64, Seq<u64>))
    ensures
        heightmap_bytes(parts).len() == 40 + 8 * parts.5.len(),
        heightmap_bytes(parts).subrange(0, 8) == spec_u64_to_le_bytes(parts.0),
        heightmap_bytes(parts).subrange(8, 16) == spec_u64_to_le_bytes(parts.1),
        heightmap_bytes(parts).subrange(16, 24) == spec_u64_to_le_bytes(parts.2),
        heightmap_bytes(parts).subrange(24, 32) == spec_u64_to_le_bytes(parts.3),
        heightmap_bytes(parts).subrange(32, 40) == spec_u64_to_le_bytes(parts.4),
        forall|i: int|
            0 <= i < parts.5.len() ==> #[trigger] heightmap_bytes(parts).subrange(40 + 8 * i, 48 + 8 * i)
                == spec_u64_to_le_bytes(parts.5[i]),
{
    lemma_auto_spec_u64_to_from_le_bytes();
    lemma_cells_bytes(parts.5);
    let b = heightmap_bytes(parts);
    assert(b.subrange(0, 8) =~= spec_u64_to_le_bytes(parts.0));
    assert(b.subrange(8, 16) =~= spec_u64_to_le_bytes(parts.1));
    assert(b.subrange(16, 24) =~= spec_u64_to_le_bytes(parts.2));
    assert(b.subrange(24, 32) =~= spec_u64_to_le_bytes(parts.3));
    assert(b.subrange(32, 40) =~= spec_u64_to_le_bytes(parts.4));
    assert forall|i: int| 0 <= i < parts.5.len() implies #[trigger] b.subrange(40 + 8 * i, 48 + 8 * i)
        == spec_u64_to_le_bytes(parts.5[i]) by {
        assert(b.subrange(40 + 8 * i, 48 + 8 * i) =~= cells_bytes(parts.5).subrange(8 * i, 8 * i + 8));
    }
}

/// A heightmap read back from its file is the heightmap written.
pub proof fn lemma_heightmap_round_trip(parts: (u64, u64, u64, u64, u64, Seq<u64>))
    requires
        parts.5.len() == parts.3 * parts.4,
    ensures
        heightmap_decoded(heightmap_bytes(parts)) == Some(parts),
{
    lemma_auto_spec_u64_to_from_le_bytes();
    lemma_cells_bytes(parts.5);
    let b = heightmap_bytes(parts);
    assert(b.subrange(0, 8) =~= spec_u64_to_le_bytes(parts.0));
    assert(b.subrange(8, 16) =~= spec_u64_to_le_bytes(parts.1));
    assert(b.subrange(16, 24) =~= spec_u64_to_le_bytes(parts.2));
    assert(b.subrange(24, 32) =~= spec_u64_to_le_bytes(parts.3));
    assert(b.subrange(32, 40) =~= spec_u64_to_le_bytes(parts.4));
    let cells = Seq::new((parts.3 * parts.4) as nat, |i: int| u64_at(b, 40 + 8 * i));
    assert forall|i: int| 0 <= i < parts.5.len() implies cells[i] == parts.5[i] by {
        assert(b.subrange(40 + 8 * i, 40 + 8 * i + 8) =~= cells_bytes(parts.5).subrange(8 * i, 8 * i + 8));
    }
    assert(cells =~= parts.5);
}

/// Writes a heightmap as its file.
pub fn heightmap_to_bytes(hm: &HeightMapBits) -> (r: Vec<u8>)
    ensures
        r@ == heightmap_bytes(hm.parts()),
        r@.len() == 40 + 8 * hm.cells@.len(),
        r@.subrange(0, 8) == spec_u64_to_le_bytes(hm.xoffset_bits),
        r@.subrange(8, 16) == spec_u64_to_le_bytes(hm.yoffset_bits),
        r@.subrange(16, 24) == spec_u64_to_le_bytes(hm.scale_bits),
        r@.subrange(24, 32) == spec_u64_to_le_bytes(hm.width),
        r@.subrange(32, 40) == spec_u64_to_le_bytes(hm.height),
        forall|i: int|
            0 <= i < hm.cells@.len() ==> #[trigger] r@.subrange(40 + 8 * i, 48 + 8 * i)
                == spec_u64_to_le_bytes(hm.cells@[i]),
{
    let mut out = u64_to_le_bytes(hm.xoffset_bits);
    let mut f = u64_to_le_bytes(hm.yoffset_bits);
    out.append(&mut f);
    let mut f = u64_to_le_bytes(hm.scale_bits);
    out.append(&mut f);
    let mut f = u64_to_le_bytes(hm.width);
    out.append(&mut f);
    let mut f = u64_to_le_bytes(hm.height);
    out.append(&mut f);
    let ghost head = out@;
    let mut i: usize = 0;
    while i < hm.cells.len()
        invariant
            i <= hm.cells@.len(),
            out@ == head + cells_bytes(hm.cells@.subrange(0, i as int)),
        decreases hm.cells@.len() - i,
    {
        proof {
            let s = hm.cells@.subrange(0, i as int + 1);
            assert(s.drop_last() =~= hm.cells@.subrange(0, i as int));
            assert(s.last() == hm.cells@[i as int]);
        }
        let mut c = u64_to_le_bytes(hm.cells[i]);
        out.append(&mut c);
        i = i + 1;
    }
    assert(hm.cells@.subrange(0, hm.cells@.len() as int) =~= hm.cells@);
    assert(out@ =~= heightmap_bytes(hm.parts()));
    proof {
        lemma_heightmap_layout(hm.parts());
    }
    out
}

fn read_u64_at(b: &[u8], off: usize) -> (r: u64)
    requires
        off + 8 <= b@.len(),
    ensures
        r == u64_at(b@, off as int),
{
    let len = b.len();
    assert(off + 8 <= len);
    let s = vstd::slice::slice_subrange(b, off, off + 8);
    u64_from_le_bytes(s)
}

/// Reads the heightmap that the bytes begin with; `None` when they end too soon.
pub fn heightmap_from_bytes(b: &[u8]) -> (r: Option<HeightMapBits>)
    ensures
        match r {
            Some(hm) => heightmap_decoded(b@) == Some(hm.parts()),
            None => heightmap_decoded(b@) is None,
        },
        r matches Some(hm) ==> {
            &&& hm.xoffset_bits == spec_u64_from_le_bytes(b@.subrange(0, 8))
            &&& hm.yoffset_bits == spec_u64_from_le_bytes(b@.subrange(8, 16))
            &&& hm.scale_bits == spec_u64_from_le_bytes(b@.subrange(16, 24))
            &&& hm.width == spec_u64_from_le_bytes(b@.subrange(24, 32))
            &&& hm.height == spec_u64_from_le_bytes(b@.subrange(32, 40))
            &&& hm.cells@.len() == hm.width * hm.height
            &&& 40 + 8 * hm.cells@.len() <= b@.len()
            &&& forall|i: int|
                0 <= i < hm.cells@.len() ==> #[trigger] hm.cells@[i] == spec_u64_from_le_bytes(
                    b@.subrange(40 + 8 * i, 48 + 8 * i),
                )
        },
        r is None <==> (b@.len() < 40 || b@.len() < 40 + 8 * (spec_u64_from_le_bytes(b@.subrange(24, 32))
            * spec_u64_from_le_bytes(b@.subrange(32, 40)))),
{
    let len = b.len();
    if len < 40 {
        return None;
    }
    let w = read_u64_at(b, 24);
    let h = read_u64_at(b, 32);
    let n: u64 = match w.checked_mul(h) {
        Some(n) => n,
        None => {
            assert(w * h > u64::MAX);
            return None;
        },
    };
    if (n as u128) * 8 + 40 > len as u128 {
        return None;
    }
    let n = n as usize;
    let mut cells: Vec<u64> = Vec::new();
    let mut i: usize = 0;
    while i < n
        invariant
            n == w * h,
            40 + 8 * n <= b@.len(),
            len == b@.len(),
            i <= n,
            cells@ =~= Seq::new(i as nat, |k: int| u64_at(b@, 40 + 8 * k)),
        decreases n - i,
    {
        let c = read_u64_at(b, 40 + 8 * i);
        cells.push(c);
        i = i + 1;
    }
    Some(
        HeightMapBits {
            xoffset_bits: read_u64_at(b, 0),
            yoffset_bits: read_u64_at(b, 8),
            scale_bits: read_u64_at(b, 16),
            width: w,
            height: h,
            cells,
        },
    )
}

} // verus!
