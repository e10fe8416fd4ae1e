//! Points and point clouds.

use vstd::prelude::*;

use crate::float::double::F64;
use crate::float::single::F32;

verus! {

/// A row of a cloud: the three coordinates of a point.
#[derive(Clone, Copy, PartialEq, Eq, Structural, Debug)]
pub struct P3 {
    pub x: F32,
    pub y: F32,
    pub z: F32,
}

/// A point of a frame with the time at which it was taken.
#[derive(Clone, Copy, PartialEq, Eq, Structural, Debug)]
pub struct PointXYZT {
    pub x: F32,
    pub y: F32,
    pub z: F32,
    pub timestamp: F64,
}

/// A point of a saved map.
#[derive(Clone, Copy, PartialEq, Eq, Structural, Debug)]
pub struct PointXYZ {
    pub x: F32,
    pub y: F32,
    pub z: F32,
}

/// The coordinates of the points of a frame.
pub fn pcd_to_array2(pcd_points: &Vec<PointXYZT>) -> (arr: Vec<P3>)
    ensures
        arr@ == pcd_points@.map_values(|p: PointXYZT| P3 { x: p.x, y: p.y, z: p.z }),
{
    let mut arr: Vec<P3> = Vec::new();
    let mut i: usize = 0;
    while i < pcd_points.len()
        invariant
            i <= pcd_points.len(),
            arr.len() == i,
            forall|k: int|
                0 <= k < i ==> #[trigger] arr[k] == (P3 {
                    x: pcd_points[k].x,
                    y: pcd_points[k].y,
                    z: pcd_points[k].z,
                }),
        decreases pcd_points.len() - i,
    {
        let p: PointXYZT = pcd_points[i];
        arr.push(P3 { x: p.x, y: p.y, z: p.z });
        i = i + 1;
    }
    arr
}

/// The rows of a cloud as points of a map.
pub fn array2_to_pcd(arr: &Vec<P3>) -> (pcd_points: Vec<PointXYZ>)
    ensures
        pcd_points@ == arr@.map_values(|p: P3| PointXYZ { x: p.x, y: p.y, z: p.z }),
{
    let mut pcd_points: Vec<PointXYZ> = Vec::new();
    let mut i: usize = 0;
    while i < arr.len()
        invariant
            i <= arr.len(),
            pcd_points.len() == i,
            forall|k: int|
                0 <= k < i ==> #[trigger] pcd_points[k] == (PointXYZ {
                    x: arr[k].x,
                    y: arr[k].y,
                    z: arr[k].z,
                }),
        decreases arr.len() - i,
    {
        let p: P3 = arr[i];
        pcd_points.push(PointXYZ { x: p.x, y: p.y, z: p.z });
        i = i + 1;
    }
    pcd_points
}

/// Appends the rows of `more` to `rows`.
pub fn append_rows(rows: &mut Vec<P3>, more: &Vec<P3>)
    ensures
        final(rows)@ == old(rows)@ + more@,
{
    let ghost before = rows@;
    let mut i: usize = 0;
    while i < more.len()
        invariant
            i <= more.len(),
            rows@ == before + more@.take(i as int),
        decreases more.len() - i,
    {
        rows.push(more[i]);
        i = i + 1;
        assert(rows@ =~= before + more@.take(i as int));
    }
    assert(more@.take(i as int) =~= more@);
}

/// A copy of a cloud.
pub fn copy_rows(rows: &Vec<P3>) -> (copy: Vec<P3>)
    ensures
        copy@ == rows@,
{
    let mut copy: Vec<P3> = Vec::new();
    append_rows(&mut copy, rows);
    assert(copy@ =~= rows@);
    copy
}

/// The rows of all frames, one frame after the other.
pub open spec fn stacked(frames: Seq<Seq<P3>>) -> Seq<P3>
    decreases frames.len(),
{
    if frames.len() == 0 {
        Seq::empty()
    } else {
        stacked(frames.drop_last()) + frames.last()
    }
}

/// Nothing is left out when clouds are joined: there are as many rows as the clouds have together,
/// whatever the number of clouds.
pub proof fn stacking_leaves_nothing_out(frames: Seq<Seq<P3>>)
    ensures
        stacked(frames) == frames.flatten(),
        stacked(frames).len() == frames.fold_left(0nat, |n: nat, f: Seq<P3>| n + f.len()),
    decreases frames.len(),
{
    frames.lemma_flatten_and_flatten_alt_are_equivalent();
    if frames.len() > 0 {
        let front = frames.drop_last();
        stacking_leaves_nothing_out(front);
        front.lemma_flatten_and_flatten_alt_are_equivalent();
    }
}

/// Row `j` of cloud `k` stands right after all rows of the clouds before it and the `j` rows before
/// it, for every cloud and every row.
pub proof fn joined_rows_have_their_place(frames: Seq<Seq<P3>>, k: int, j: int)
    requires
        0 <= k < frames.len(),
        0 <= j < frames[k].len(),
    ensures
        ({
            let at = frames.take(k).fold_left(0nat, |n: nat, f: Seq<P3>| n + f.len()) + j;
            at < stacked(frames).len() && stacked(frames)[at] == frames[k][j]
        }),
    decreases frames.len(),
{
    let front = frames.drop_last();
    stacking_leaves_nothing_out(front);
    if k < front.len() {
        joined_rows_have_their_place(front, k, j);
        assert(front.take(k) =~= frames.take(k));
    } else {
        assert(frames.take(k) =~= front);
    }
}

/// Joining the clouds of two lists, one after the other, is joining each list and then the two
/// results; a single cloud is joined to itself, and none to nothing.
pub proof fn stacking_is_joining(a: Seq<Seq<P3>>, b: Seq<Seq<P3>>, f: Seq<P3>)
    ensures
        stacked(a + b) == stacked(a) + stacked(b),
        stacked(seq![f]) == f,
        stacked(Seq::<Seq<P3>>::empty()) == Seq::<P3>::empty(),
    decreases b.len(),
{
    reveal_with_fuel(stacked, 2);
    assert(stacked(seq![f]) =~= f);
    if b.len() == 0 {
        assert(a + b =~= a);
        assert(stacked(a) + stacked(b) =~= stacked(a));
    } else {
        stacking_is_joining(a, b.drop_last(), f);
        assert((a + b).drop_last() =~= a + b.drop_last());
        assert((a + b).last() == b.last());
        assert(stacked(a + b) =~= stacked(a) + stacked(b));
    }
}

/// The rows of each frame.
pub open spec fn rows_of_each(frames: Seq<Vec<P3>>) -> Seq<Seq<P3>> {
    frames.map_values(|f: Vec<P3>| f@)
}

/// The rows of all frames, one frame after the other; `None` where there is no frame.
pub fn concatenate(frames: &Vec<Vec<P3>>) -> (r: Option<Vec<P3>>)
    ensures
        frames.len() == 0 <==> r is None,
        r matches Some(rows) ==> rows@ == stacked(rows_of_each(frames@)) && rows@
            == frames@.map_values(|f: Vec<P3>| f@).flatten(),
{
    if frames.len() == 0 {
        return None;
    }
    let ghost all = rows_of_each(frames@);
    let mut rows: Vec<P3> = Vec::new();
    let mut i: usize = 0;
    while i < frames.len()
        invariant
            i <= frames.len(),
            all == rows_of_each(frames@),
            rows@ == stacked(all.take(i as int)),
        decreases frames.len() - i,
    {
        append_rows(&mut rows, &frames[i]);
        i = i + 1;
        assert(all.take(i as int).drop_last() =~= all.take(i - 1));
    }
    proof {
        assert(all.take(i as int) =~= all);
        assert(all =~= frames@.map_values(|f: Vec<P3>| f@));
        stacking_leaves_nothing_out(all);
    }
    Some(rows)
}

} // verus!
