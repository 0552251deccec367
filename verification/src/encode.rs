//! A reference encoder for the run-length tile codec. Its contract is the
//! codec's round trip: decoding what `encode_cells` produces from a fresh
//! cursor yields exactly the encoded cell set.

use vstd::prelude::*;

use crate::rle::{advance, flat, long_run, rle_decode, rle_step, run_cells, short_run, GRID_CELLS};

verus! {

/// The set of cell indices listed in `cells`.
pub open spec fn cell_set(cells: Seq<usize>) -> Set<int> {
    Set::new(|v: int| exists|i: int| 0 <= i < cells.len() && cells[i] as int == v)
}

/// A strictly increasing list names each cell once: its set has exactly as
/// many elements as the list.
pub proof fn lemma_cell_set_len(cells: Seq<usize>)
    requires
        forall|i: int, j: int| 0 <= i < j < cells.len() ==> cells[i] < cells[j],
    ensures
        cell_set(cells).finite(),
        cell_set(cells).len() == cells.len(),
    decreases cells.len(),
{
    if cells.len() == 0 {
        assert(cell_set(cells) =~= Set::<int>::empty());
    } else {
        let n = cells.len() as int;
        let pre = cells.take(n - 1);
        let last = cells[n - 1] as int;
        lemma_cell_set_len(pre);
        assert forall|v: int| cell_set(cells).contains(v) implies cell_set(pre).insert(
            last).contains(v) by {
            let i = choose|i: int| 0 <= i < cells.len() && cells[i] as int == v;
            if i < n - 1 {
                assert(pre[i] as int == v);
            }
        }
        assert forall|v: int| cell_set(pre).insert(last).contains(v) implies cell_set(
            cells).contains(v) by {
            if cell_set(pre).contains(v) {
                let i = choose|i: int| 0 <= i < pre.len() && pre[i] as int == v;
                assert(cells[i] as int == v);
            } else {
                assert(cells[n - 1] as int == v);
            }
        }
        assert(cell_set(cells) =~= cell_set(pre).insert(last));
        assert(!cell_set(pre).contains(last)) by {
            if cell_set(pre).contains(last) {
                let i = choose|i: int| 0 <= i < pre.len() && pre[i] as int == last;
                assert(cells[i] < cells[n - 1]);
            }
        }
    }
}

/// Appending one cell to the list inserts it into the set.
proof fn lemma_cell_set_push(cells: Seq<usize>, k: int)
    requires
        0 <= k < cells.len(),
    ensures
        cell_set(cells.take(k + 1)) == cell_set(cells.take(k)).insert(cells[k] as int),
{
    let tk1 = cells.take(k + 1);
    let tk = cells.take(k);
    assert forall|v: int| cell_set(tk1).contains(v) implies cell_set(tk).insert(
        cells[k] as int).contains(v) by {
        let i = choose|i: int| 0 <= i < tk1.len() && tk1[i] as int == v;
        if i < k {
            assert(tk[i] as int == v);
        }
    }
    assert forall|v: int| cell_set(tk).insert(cells[k] as int).contains(v) implies cell_set(
        tk1).contains(v) by {
        if cell_set(tk).contains(v) {
            let i = choose|i: int| 0 <= i < tk.len() && tk[i] as int == v;
            assert(tk1[i] as int == v);
        } else {
            assert(tk1[k] as int == v);
        }
    }
    assert(cell_set(tk1) =~= cell_set(tk).insert(cells[k] as int));
}

/// Encodes a strictly increasing list of flattened cell indices as a
/// run-length record stream: each gap becomes a chain of two-byte empty-runs
/// and each cell a one-byte present-run of one. The ensures clause is the
/// codec's round trip: decoding the output from a fresh cursor over an empty
/// region produces exactly the encoded cells.
pub fn encode_cells(cells: &Vec<usize>) -> (out: Vec<u8>)
    requires
        forall|i: int| 0 <= i < cells@.len() ==> cells@[i] < GRID_CELLS,
        forall|i: int, j: int| 0 <= i < j < cells@.len() ==> cells@[i] < cells@[j],
    ensures
        exists|c: (u16, u16)|
            rle_decode(out@, (0u16, 0u16), Set::<int>::empty()) == Some(
                (c, cell_set(cells@)),
            ),
{
    let mut out: Vec<u8> = Vec::new();
    let mut cur: (u16, u16) = (0, 0);
    let mut pos: usize = 0;
    let mut k: usize = 0;
    proof {
        assert(cell_set(cells@.take(0)) =~= Set::<int>::empty());
    }
    while k < cells.len()
        invariant
            k <= cells@.len(),
            forall|i: int| 0 <= i < cells@.len() ==> cells@[i] < GRID_CELLS,
            forall|i: int, j: int| 0 <= i < j < cells@.len() ==> cells@[i] < cells@[j],
            cur.0 < 1024,
            pos == flat(cur),
            k < cells@.len() ==> pos <= cells@[k as int],
            pos <= GRID_CELLS,
            rle_decode(out@, (0u16, 0u16), Set::<int>::empty()) == Some(
                (cur, cell_set(cells@.take(k as int)))),
        decreases cells@.len() - k,
    {
        let target = cells[k];
        while pos < target
            invariant
                k < cells@.len(),
                target == cells@[k as int],
                target < GRID_CELLS,
                cur.0 < 1024,
                pos == flat(cur),
                pos <= target,
                rle_decode(out@, (0u16, 0u16), Set::<int>::empty()) == Some(
                    (cur, cell_set(cells@.take(k as int)))),
            decreases target - pos,
        {
            let room: usize = 1024 - cur.0 as usize;
            let gap: usize = target - pos;
            let run: u16 = if gap < room {
                gap as u16
            } else {
                room as u16
            };
            let run1: u16 = run - 1;
            let hi: u8 = (run1 / 256) as u8;
            let lo: u8 = (run1 % 256) as u8;
            let b0: u8 = 0x20 + hi;
            let b1: u8 = lo;
            let ghost out0 = out@;
            let ghost cur0 = cur;
            out.push(b0);
            out.push(b1);
            proof {
                reveal_with_fuel(rle_decode, 3);
                assert(0x20 <= b0 <= 0x23);
                assert(0x20 <= b0 <= 0x23 ==> b0 >> 5 == 1) by (bit_vector);
                assert(0x20 <= b0 <= 0x23 ==> (b0 & 3) == b0 - 0x20) by (bit_vector);
                assert(long_run(b0, b1) == hi * 256 + lo + 1);
                assert(hi * 256 + lo == run1);
                assert(out@ =~= out0 + seq![b0, b1]);
                crate::rle::lemma_rle_decode_append(
                    out0, seq![b0, b1], (0u16, 0u16), Set::<int>::empty());
                assert(seq![b0, b1].skip(2) =~= Seq::<u8>::empty());
                assert(rle_step(seq![b0, b1], cur0, cell_set(cells@.take(k as int)))
                    == Some((2int, advance(cur0, run as int),
                        cell_set(cells@.take(k as int)))));
                assert(rle_decode(seq![b0, b1], cur0, cell_set(cells@.take(k as int)))
                    == Some((advance(cur0, run as int), cell_set(cells@.take(k as int)))));
                assert(rle_decode(out@, (0u16, 0u16), Set::<int>::empty())
                    == Some((advance(cur0, run as int), cell_set(cells@.take(k as int)))));
            }
            if cur.0 as usize + run as usize >= 1024 {
                cur = (0, cur.1 + 1);
            } else {
                cur = (cur.0 + run, cur.1);
            }
            pos = pos + run as usize;
            proof {
                assert(cur == advance(cur0, run as int));
                assert(pos == flat(cur));
            }
        }
        // A one-byte present-run of one cell at the cursor.
        let b0: u8 = 0x40;
        let ghost out0 = out@;
        let ghost cur0 = cur;
        out.push(b0);
        proof {
            reveal_with_fuel(rle_decode, 3);
            assert(0x40u8 >> 5 == 2) by (bit_vector);
            assert(0x40u8 & 0x1f == 0) by (bit_vector);
            assert(short_run(b0) == 1);
            assert(out@ =~= out0 + seq![b0]);
            crate::rle::lemma_rle_decode_append(
                out0, seq![b0], (0u16, 0u16), Set::<int>::empty());
            assert(seq![b0].skip(1) =~= Seq::<u8>::empty());
            assert(rle_step(seq![b0], cur0, cell_set(cells@.take(k as int)))
                == Some((1int, advance(cur0, 1),
                    cell_set(cells@.take(k as int)).union(run_cells(cur0, 1)))));
            assert(run_cells(cur0, 1) =~= Set::<int>::empty().insert(target as int));
            lemma_cell_set_push(cells@, k as int);
            assert(cell_set(cells@.take(k as int)).union(run_cells(cur0, 1)) =~= cell_set(
                cells@.take(k as int + 1)));
            assert(rle_decode(seq![b0], cur0, cell_set(cells@.take(k as int)))
                == Some((advance(cur0, 1), cell_set(cells@.take(k as int + 1)))));
            assert(rle_decode(out@, (0u16, 0u16), Set::<int>::empty())
                == Some((advance(cur0, 1), cell_set(cells@.take(k as int + 1)))));
        }
        if cur.0 as usize + 1 >= 1024 {
            cur = (0, cur.1 + 1);
        } else {
            cur = (cur.0 + 1, cur.1);
        }
        pos = pos + 1;
        proof {
            assert(cur == advance(cur0, 1));
            assert(pos == flat(cur));
        }
        k = k + 1;
    }
    proof {
        assert(cells@.take(cells@.len() as int) =~= cells@);
        let c = cur;
        assert(rle_decode(out@, (0u16, 0u16), Set::<int>::empty()) == Some(
            (c, cell_set(cells@))));
    }
    out
}

} // verus!
