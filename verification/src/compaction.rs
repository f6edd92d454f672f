use vstd::prelude::*;

use crate::pixel::{lemma_snapshot_index_in_area, Pixel};
use crate::screen::Size;

verus! {

/// Why a readback batch was rejected. A rejected batch changes nothing.
#[derive(Clone, Copy, PartialEq, Eq, Structural, Debug)]
pub enum CompactError {
    /// The all-pixels snapshot does not cover the screen.
    CapacityMismatch,
    /// A read-back record carries coordinates outside the screen or an
    /// escaped flag that is neither 0 nor 1.
    InvalidRecord,
}

/// Every record of the batch is one a well-behaved readback can produce.
pub open spec fn batch_valid(batch: Seq<Pixel>, size: Size) -> bool {
    forall|i: int| 0 <= i < batch.len() ==> (#[trigger] batch[i]).valid(size)
}

/// The all-pixels snapshot after writing every escaped record of the batch
/// into its row-major slot, in batch order.
pub open spec fn snapshot_after(snapshot: Seq<Pixel>, batch: Seq<Pixel>, width: u32) -> Seq<Pixel>
    decreases batch.len(),
{
    if batch.len() == 0 {
        snapshot
    } else {
        let prev = snapshot_after(snapshot, batch.drop_last(), width);
        let p = batch.last();
        if p.escaped == 1 {
            prev.update(p.snapshot_index(width), p)
        } else {
            prev
        }
    }
}

/// Each snapshot cell ends up either untouched or holding some escaped
/// record of the batch; the snapshot's length never changes.
pub proof fn lemma_snapshot_after_cases(snapshot: Seq<Pixel>, batch: Seq<Pixel>, size: Size, i: int)
    requires
        snapshot.len() == size.area(),
        batch_valid(batch, size),
        0 <= i < snapshot.len(),
    ensures
        snapshot_after(snapshot, batch, size.width).len() == snapshot.len(),
        snapshot_after(snapshot, batch, size.width)[i] == snapshot[i] || exists|q: int|
            0 <= q < batch.len() && (#[trigger] batch[q]).escaped == 1 && snapshot_after(
                snapshot,
                batch,
                size.width,
            )[i] == batch[q],
    decreases batch.len(),
{
    let width = size.width;
    if batch.len() > 0 {
        assert forall|v: int| 0 <= v < batch.drop_last().len() implies (#[trigger] batch.drop_last()[v]).valid(
            size,
        ) by {
            assert(batch.drop_last()[v] == batch[v]);
        }
        lemma_snapshot_after_cases(snapshot, batch.drop_last(), size, i);
        let prev = snapshot_after(snapshot, batch.drop_last(), width);
        let cur = snapshot_after(snapshot, batch, width);
        let p = batch.last();
        if p.escaped == 1 {
            lemma_snapshot_index_in_area(
                p.x as int,
                p.y as int,
                size.width as int,
                size.height as int,
            );
            assert(0 <= p.snapshot_index(width) < snapshot.len());
        }
        if p.escaped == 1 && p.snapshot_index(width) == i {
            assert(cur[i] == p);
            assert(batch[batch.len() - 1] == p);
        } else {
            assert(cur[i] == prev[i]);
            if prev[i] != snapshot[i] {
                let q = choose|q: int|
                    0 <= q < batch.drop_last().len() && (#[trigger] batch.drop_last()[q]).escaped
                        == 1 && prev[i] == batch.drop_last()[q];
                assert(batch[q] == batch.drop_last()[q]);
            }
        }
    }
}

/// Splits the first `count` read-back records of a frame into next frame's
/// working set and this frame's newly escaped list, writing each newly
/// escaped record into the all-pixels snapshot at its row-major slot.
/// Records past `count` are leftovers of earlier frames and are never read.
/// The batch is validated before anything is touched: on a rejected batch
/// all three buffers keep their previous contents.
#[verifier::loop_isolation(false)]
pub fn compact(
    read_back: &Vec<Pixel>,
    count: usize,
    size: Size,
    all_pixels: &mut Vec<Pixel>,
    unescaped: &mut Vec<Pixel>,
    newly_escaped: &mut Vec<Pixel>,
) -> (result: Result<(), CompactError>)
    requires
        count <= read_back@.len(),
    ensures
        result is Ok <==> (old(all_pixels)@.len() == size.area() && batch_valid(
            read_back@.take(count as int),
            size,
        )),
        result == Err::<(), CompactError>(CompactError::CapacityMismatch) <==> old(
            all_pixels,
        )@.len() != size.area(),
        result == Err::<(), CompactError>(CompactError::InvalidRecord) <==> (old(
            all_pixels,
        )@.len() == size.area() && !batch_valid(read_back@.take(count as int), size)),
        result is Err ==> final(all_pixels)@ == old(all_pixels)@ && final(unescaped)@ == old(
            unescaped,
        )@ && final(newly_escaped)@ == old(newly_escaped)@,
        result is Ok ==> {
            &&& final(all_pixels)@.len() == size.area()
            &&& final(newly_escaped)@ == read_back@.take(count as int).filter(
                |p: Pixel| p.escaped == 1,
            )
            &&& final(unescaped)@ == read_back@.take(count as int).filter(
                |p: Pixel| p.escaped != 1,
            )
            &&& final(all_pixels)@ == snapshot_after(
                old(all_pixels)@,
                read_back@.take(count as int),
                size.width,
            )
            &&& final(unescaped)@.len() + final(newly_escaped)@.len() == count
            &&& final(unescaped)@.len() <= count
            &&& batch_valid(final(unescaped)@, size)
            &&& batch_valid(final(newly_escaped)@, size)
        },
{
    let area = size.cell_count();
    if all_pixels.len() as u64 != area {
        return Err(CompactError::CapacityMismatch);
    }
    let mut t: usize = 0;
    while t < count
        invariant
            t <= count,
            forall|v: int| 0 <= v < t ==> (#[trigger] read_back@[v]).valid(size),
        decreases count - t,
    {
        let p = read_back[t];
        if !(p.x < size.width && p.y < size.height && p.escaped <= 1) {
            proof {
                assert(read_back@.take(count as int)[t as int] == read_back@[t as int]);
                assert(!batch_valid(read_back@.take(count as int), size));
            }
            return Err(CompactError::InvalidRecord);
        }
        t = t + 1;
    }
    proof {
        assert forall|v: int| 0 <= v < count implies (#[trigger] read_back@.take(
            count as int,
        )[v]).valid(size) by {
            assert(read_back@.take(count as int)[v] == read_back@[v]);
        }
    }
    let ghost snapshot0 = all_pixels@;
    unescaped.clear();
    newly_escaped.clear();
    proof {
        reveal(Seq::filter);
        assert(read_back@.take(0) =~= Seq::<Pixel>::empty());
        assert(Seq::<Pixel>::empty().filter(|p: Pixel| p.escaped == 1) =~= Seq::<Pixel>::empty());
        assert(Seq::<Pixel>::empty().filter(|p: Pixel| p.escaped != 1) =~= Seq::<Pixel>::empty());
    }
    let mut t: usize = 0;
    while t < count
        invariant
            t <= count,
            all_pixels@.len() == size.area(),
            all_pixels@ == snapshot_after(snapshot0, read_back@.take(t as int), size.width),
            newly_escaped@ == read_back@.take(t as int).filter(|p: Pixel| p.escaped == 1),
            unescaped@ == read_back@.take(t as int).filter(|p: Pixel| p.escaped != 1),
            unescaped@.len() + newly_escaped@.len() == t,
            batch_valid(unescaped@, size),
            batch_valid(newly_escaped@, size),
        decreases count - t,
    {
        let ghost pre_snapshot = all_pixels@;
        let ghost pre_newly = newly_escaped@;
        let ghost pre_unescaped = unescaped@;
        let p = read_back[t];
        proof {
            assert(read_back@.take(count as int)[t as int] == read_back@[t as int]);
            assert(p.valid(size));
        }
        if p.escaped == 1 {
            proof {
                lemma_snapshot_index_in_area(
                    p.x as int,
                    p.y as int,
                    size.width as int,
                    size.height as int,
                );
            }
            let idx64: u64 = p.y as u64 * size.width as u64 + p.x as u64;
            let idx: usize = idx64 as usize;
            all_pixels[idx] = p;
            newly_escaped.push(p);
        } else {
            unescaped.push(p);
        }
        t = t + 1;
        proof {
            reveal(Seq::filter);
            let taken = read_back@.take(t as int);
            assert(taken.drop_last() =~= read_back@.take(t - 1));
            assert(taken.last() == read_back@[t - 1]);
            assert(all_pixels@ == snapshot_after(snapshot0, taken, size.width));
        }
    }
    proof {
        assert(read_back@.take(count as int).filter(|p: Pixel| p.escaped == 1).len()
            <= count) by {
            assert(unescaped@.len() + newly_escaped@.len() == count);
        }
    }
    Ok(())
}

} // verus!
