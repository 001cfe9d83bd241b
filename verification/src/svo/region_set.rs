//! Sets of top-level regions round the player.

use crate::coord_map::CoordMap;
use crate::types::ChunkCoord;
use vstd::prelude::*;

verus! {

/// The number of a top-level region along an axis, from a position in voxels:
/// the quotient by 512, rounded towards zero.
pub open spec fn spec_region_of(v: int) -> int {
    if v >= 0 {
        v / 512
    } else {
        -((-v) / 512)
    }
}

/// The number of a top-level region along an axis.
pub fn region_of(v: i32) -> (r: i32)
    ensures
        r == spec_region_of(v as int),
        -4194304 <= r <= 4194303,
{
    if v >= 0 {
        v / 512
    } else {
        let up: i64 = -(v as i64);
        (-(up / 512)) as i32
    }
}

/// The regions of a square of columns round (`tx`, `tz`), `rd` to each side, at
/// the heights `y_min` to `y_max`.
pub open spec fn in_square(
    tx: int,
    tz: int,
    rd: int,
    y_min: int,
    y_max: int,
    c: ChunkCoord,
) -> bool {
    -rd <= c.cx - tx <= rd && -rd <= c.cz - tz <= rd && y_min <= c.cy <= y_max
}

/// The columns of a square have 32-bit coordinates.
pub open spec fn square_fits(tx: int, tz: int, rd: int) -> bool {
    &&& rd < i32::MAX
    &&& rd >= 0 ==> i32::MIN <= tx - rd && tx + rd <= i32::MAX
    &&& rd >= 0 ==> i32::MIN <= tz - rd && tz + rd <= i32::MAX
}

/// Builds the set of the regions of a square.
pub fn square(tx: i32, tz: i32, rd: i32, y_min: i32, y_max: i32) -> (r: CoordMap<()>)
    requires
        square_fits(tx as int, tz as int, rd as int),
        y_max < i32::MAX,
    ensures
        r.wf(),
        forall|c: ChunkCoord| #[trigger]
            r@.contains_key(c) <==> in_square(
                tx as int,
                tz as int,
                rd as int,
                y_min as int,
                y_max as int,
                c,
            ),
{
    let mut out: CoordMap<()> = CoordMap::new();
    if rd < 0 {
        return out;
    }
    let mut dz: i32 = -rd;
    while dz <= rd
        invariant
            0 <= rd,
            square_fits(tx as int, tz as int, rd as int),
            -rd <= dz <= rd + 1,
            y_max < i32::MAX,
            out.wf(),
            forall|c: ChunkCoord| #[trigger]
                out@.contains_key(c) <==> in_square(
                    tx as int,
                    tz as int,
                    rd as int,
                    y_min as int,
                    y_max as int,
                    c,
                ) && c.cz - tz < dz,
        decreases rd + 1 - dz,
    {
        let mut dx: i32 = -rd;
        while dx <= rd
            invariant
                0 <= rd,
                square_fits(tx as int, tz as int, rd as int),
                -rd <= dz <= rd,
                -rd <= dx <= rd + 1,
                y_max < i32::MAX,
                out.wf(),
                forall|c: ChunkCoord| #[trigger]
                    out@.contains_key(c) <==> in_square(
                        tx as int,
                        tz as int,
                        rd as int,
                        y_min as int,
                        y_max as int,
                        c,
                    ) && (c.cz - tz < dz || (c.cz - tz == dz && c.cx - tx < dx)),
            decreases rd + 1 - dx,
        {
            let mut y: i32 = y_min;
            while y <= y_max
                invariant
                    0 <= rd,
                    square_fits(tx as int, tz as int, rd as int),
                    -rd <= dz <= rd,
                    -rd <= dx <= rd,
                    y_max < i32::MAX,
                    y_min <= y,
                    y_min <= y_max ==> y <= y_max + 1,
                    out.wf(),
                    forall|c: ChunkCoord| #[trigger]
                        out@.contains_key(c) <==> in_square(
                            tx as int,
                            tz as int,
                            rd as int,
                            y_min as int,
                            y_max as int,
                            c,
                        ) && (c.cz - tz < dz || (c.cz - tz == dz && (c.cx - tx < dx || (c.cx - tx
                            == dx && c.cy < y)))),
                decreases y_max + 1 - y,
            {
                out.insert(ChunkCoord { cx: tx + dx, cy: y, cz: tz + dz }, ());
                y = y + 1;
            }
            dx = dx + 1;
        }
        dz = dz + 1;
    }
    out
}

/// The list holds the regions of a set, each once.
pub open spec fn lists(v: Seq<(i32, i32, i32)>, s: spec_fn(ChunkCoord) -> bool) -> bool {
    &&& v.no_duplicates()
    &&& forall|c: ChunkCoord| #[trigger] v.contains((c.cx, c.cy, c.cz)) <==> s(c)
}

/// The regions of one set that are not in another.
pub open spec fn only_in(a: Map<ChunkCoord, ()>, b: Map<ChunkCoord, ()>) -> spec_fn(
    ChunkCoord,
) -> bool {
    |c: ChunkCoord| a.contains_key(c) && !b.contains_key(c)
}

/// Lists the regions of one set that are not in another.
pub fn difference(a: &CoordMap<()>, b: &CoordMap<()>) -> (r: Vec<(i32, i32, i32)>)
    requires
        a.wf(),
    ensures
        lists(r@, only_in(a@, b@)),
{
    let coords: Vec<ChunkCoord> = a.coords();
    let mut out: Vec<(i32, i32, i32)> = Vec::new();
    let mut i: usize = 0;
    while i < coords.len()
        invariant
            i <= coords@.len(),
            coords@.no_duplicates(),
            forall|c: ChunkCoord| #[trigger] coords@.contains(c) <==> a@.contains_key(c),
            out@.no_duplicates(),
            forall|c: ChunkCoord| #[trigger]
                out@.contains((c.cx, c.cy, c.cz)) <==> coords@.take(i as int).contains(c)
                    && !b@.contains_key(c),
        decreases coords@.len() - i,
    {
        let c: ChunkCoord = coords[i];
        let ghost before = out@;
        if !b.contains_key(&c) {
            out.push((c.cx, c.cy, c.cz));
        }
        proof {
            let (p, q) = (coords@.take(i as int), coords@.take(i + 1));
            let e = (c.cx, c.cy, c.cz);
            assert(!p.contains(c)) by {
                if p.contains(c) {
                    let k = choose|k: int| 0 <= k < p.len() && p[k] == c;
                    assert(coords@[k] == coords@[i as int]);
                }
            }
            assert forall|d: ChunkCoord| q.contains(d) == (p.contains(d) || d == c) by {
                if p.contains(d) {
                    let k = choose|k: int| 0 <= k < p.len() && p[k] == d;
                    assert(q[k] == d);
                }
                if q.contains(d) && d != c {
                    let k = choose|k: int| 0 <= k < q.len() && q[k] == d;
                    assert(p[k] == d);
                }
                assert(q[i as int] == c);
            }
            assert forall|d: ChunkCoord| #[trigger]
                out@.contains((d.cx, d.cy, d.cz)) <==> q.contains(d) && !b@.contains_key(d) by {
                let f = (d.cx, d.cy, d.cz);
                assert(before.contains(f) <==> p.contains(d) && !b@.contains_key(d));
                assert(q.contains(d) == (p.contains(d) || d == c));
                if before.contains(f) {
                    let k = choose|k: int| 0 <= k < before.len() && before[k] == f;
                    assert(out@[k] == f);
                }
                if out@.contains(f) && f != e {
                    let k = choose|k: int| 0 <= k < out@.len() && out@[k] == f;
                    assert(before[k] == f);
                }
                if !b@.contains_key(c) {
                    assert(out@[before.len() as int] == e);
                }
                assert(f == e ==> d == c);
            }
            assert(!before.contains(e));
            assert(out@.no_duplicates()) by {
                assert forall|x: int, y: int|
                    0 <= x < out@.len() && 0 <= y < out@.len() && x != y implies out@[x]
                    != out@[y] by {
                    if x < before.len() {
                        assert(before.contains(before[x]));
                    }
                    if y < before.len() {
                        assert(before.contains(before[y]));
                    }
                }
            }
        }
        i = i + 1;
    }
    assert(coords@.take(i as int) =~= coords@);
    out
}

/// A region is 512 voxels wide. The regions on both sides of the origin mirror each other,
/// and the one at the origin reaches over both.
pub proof fn law_regions_along_an_axis(v: int)
    ensures
        spec_region_of(-v) == -spec_region_of(v),
        v >= 0 ==> spec_region_of(v + 512) == spec_region_of(v) + 1,
        -512 < v < 512 <==> spec_region_of(v) == 0,
        v >= 0 ==> 512 * spec_region_of(v) <= v < 512 * spec_region_of(v) + 512,
{
}

/// The two differences lead from one set to the other: what is listed as missing from the one
/// joins it, what is listed as missing from the other leaves it, and nothing does both.
pub proof fn law_differences_lead_across(
    a: Map<ChunkCoord, ()>,
    b: Map<ChunkCoord, ()>,
    add: Seq<(i32, i32, i32)>,
    rem: Seq<(i32, i32, i32)>,
    c: ChunkCoord,
)
    requires
        lists(add, only_in(a, b)),
        lists(rem, only_in(b, a)),
    ensures
        a.contains_key(c) <==> add.contains((c.cx, c.cy, c.cz)) || (b.contains_key(c)
            && !rem.contains((c.cx, c.cy, c.cz))),
        add.contains((c.cx, c.cy, c.cz)) ==> !b.contains_key(c),
        rem.contains((c.cx, c.cy, c.cz)) ==> b.contains_key(c),
{
    let t = (c.cx, c.cy, c.cz);
    assert(add.contains(t) <==> only_in(a, b)(c));
    assert(rem.contains(t) <==> only_in(b, a)(c));
}

/// A square of no width is a column, and a square that is one wider to each side is made of
/// those round the nine columns in the middle.
pub proof fn law_squares_grow(tx: int, tz: int, rd: int, y_min: int, y_max: int, c: ChunkCoord)
    requires
        rd >= 0,
    ensures
        in_square(tx, tz, 0, y_min, y_max, c) <==> c.cx == tx && c.cz == tz && y_min <= c.cy
            && c.cy <= y_max,
        in_square(tx, tz, rd + 1, y_min, y_max, c) <==> exists|dx: int, dz: int|
            -1 <= dx <= 1 && -1 <= dz <= 1 && #[trigger] in_square(
                tx + dx,
                tz + dz,
                rd,
                y_min,
                y_max,
                c,
            ),
{
    if in_square(tx, tz, rd + 1, y_min, y_max, c) {
        let dx: int = if c.cx > tx {
            1
        } else if c.cx < tx {
            -1
        } else {
            0
        };
        let dz: int = if c.cz > tz {
            1
        } else if c.cz < tz {
            -1
        } else {
            0
        };
        assert(in_square(tx + dx, tz + dz, rd, y_min, y_max, c));
    }
}

} // verus!
