//! Greedy meshing: visible faces of the same kind that lie side by side become
//! one larger quad.
//!
//! Each of the six directions is scanned in 32 layers. A layer is a mask of
//! 32 x 32 cells that names the block whose face is visible there. The mask is
//! read row by row; each visible cell that no quad covers yet starts a quad
//! that grows as wide as it can and then as high as it can.

use crate::chunk;
use crate::chunk::{block_across, ChunkData, ChunkNeighbors};
use crate::face;
use crate::face::{box_face, face_uvs, faces};
use crate::mesh;
use crate::mesh::{MeshVertex, Quad, SubMeshData, UvLookupTable};
use crate::types::{BlockId, CHUNK_SIZE};
use vstd::prelude::*;

verus! {

/// A quad of a layer: its first cell, its size, and the kind of block it shows.
#[derive(Clone, Copy, Debug, PartialEq, Eq, Structural)]
pub struct LayerQuad {
    pub u: usize,
    pub v: usize,
    pub width: usize,
    pub height: usize,
    pub block_id: BlockId,
}

/// What a layer holds at a cell.
pub open spec fn at<A>(layer: Seq<A>, u: int, v: int) -> A {
    layer[v * 32 + u]
}

/// The cell lies in the quad.
pub open spec fn in_quad(q: LayerQuad, u: int, v: int) -> bool {
    q.u <= u < q.u + q.width && q.v <= v < q.v + q.height
}

/// The cell lies in one of the first `n` quads.
pub open spec fn covered(quads: Seq<LayerQuad>, n: int, u: int, v: int) -> bool {
    exists|i: int| 0 <= i < n && in_quad(#[trigger] quads[i], u, v)
}

/// The cell shows a face of block `id` that none of the first `n` quads covers.
pub open spec fn open_cell(
    mask: Seq<Option<BlockId>>,
    quads: Seq<LayerQuad>,
    n: int,
    id: BlockId,
    u: int,
    v: int,
) -> bool {
    &&& 0 <= u < 32
    &&& 0 <= v < 32
    &&& at(mask, u, v) == Some(id)
    &&& !covered(quads, n, u, v)
}

/// The cells from `lo` to `hi` of a row show faces of block `id` that none of
/// the first `n` quads covers.
pub open spec fn open_row(
    mask: Seq<Option<BlockId>>,
    quads: Seq<LayerQuad>,
    n: int,
    id: BlockId,
    lo: int,
    hi: int,
    v: int,
) -> bool {
    forall|u: int| lo <= u < hi ==> #[trigger] open_cell(mask, quads, n, id, u, v)
}

/// Quad `n` starts at the first visible cell that no earlier quad covers, is as
/// wide as the row allows, and then as high as its width allows.
pub open spec fn greedy_quad(
    mask: Seq<Option<BlockId>>,
    quads: Seq<LayerQuad>,
    n: int,
) -> bool {
    let q = quads[n];
    &&& 1 <= q.width
    &&& 1 <= q.height
    &&& q.u + q.width <= 32
    &&& q.v + q.height <= 32
    &&& forall|u: int, v: int|
        0 <= u < 32 && 0 <= v < 32 && v * 32 + u < q.v * 32 + q.u && (#[trigger] at(mask, u, v)) is Some ==> #[trigger] covered(quads, n, u, v)
    &&& forall|u: int, v: int|
        in_quad(q, u, v) ==> #[trigger] open_cell(mask, quads, n, q.block_id, u, v)
    &&& q.u + q.width < 32 ==> !open_cell(
        mask,
        quads,
        n,
        q.block_id,
        q.u + q.width,
        q.v as int,
    )
    &&& q.v + q.height < 32 ==> !open_row(
        mask,
        quads,
        n,
        q.block_id,
        q.u as int,
        q.u + q.width,
        q.v + q.height,
    )
}

/// The quads are those of the greedy scan, and they cover every visible cell.
pub open spec fn greedy_layer(mask: Seq<Option<BlockId>>, quads: Seq<LayerQuad>) -> bool {
    &&& forall|n: int| 0 <= n < quads.len() ==> #[trigger] greedy_quad(mask, quads, n)
    &&& forall|u: int, v: int|
        0 <= u < 32 && 0 <= v < 32 && (#[trigger] at(mask, u, v)) is Some ==> #[trigger] covered(
            quads,
            quads.len() as int,
            u,
            v,
        )
}

/// The quads of a layer share no cell.
pub proof fn law_quads_disjoint(
    mask: Seq<Option<BlockId>>,
    quads: Seq<LayerQuad>,
    i: int,
    j: int,
    u: int,
    v: int,
)
    requires
        greedy_layer(mask, quads),
        0 <= i < quads.len(),
        0 <= j < quads.len(),
        in_quad(quads[i], u, v),
        in_quad(quads[j], u, v),
    ensures
        i == j,
{
    assert(greedy_quad(mask, quads, i));
    assert(greedy_quad(mask, quads, j));
    assert(open_cell(mask, quads, i, quads[i].block_id, u, v));
    assert(open_cell(mask, quads, j, quads[j].block_id, u, v));
    if i < j {
        assert(covered(quads, j, u, v));
    } else if j < i {
        assert(covered(quads, i, u, v));
    }
}

/// A cell lies in a quad exactly if a face is visible there, and the quad shows
/// the block of that face.
pub proof fn law_quads_show_mask(mask: Seq<Option<BlockId>>, quads: Seq<LayerQuad>, u: int, v: int)
    requires
        greedy_layer(mask, quads),
        0 <= u < 32,
        0 <= v < 32,
    ensures
        covered(quads, quads.len() as int, u, v) <==> at(mask, u, v) is Some,
        forall|i: int|
            0 <= i < quads.len() && in_quad(#[trigger] quads[i], u, v) ==> at(mask, u, v) == Some(
                quads[i].block_id,
            ),
{
    assert forall|i: int| 0 <= i < quads.len() && in_quad(#[trigger] quads[i], u, v) implies at(mask, u, v) == Some(quads[i].block_id) by {
        assert(greedy_quad(mask, quads, i));
        assert(open_cell(mask, quads, i, quads[i].block_id, u, v));
    }
    if at(mask, u, v) is Some {
        assert(covered(quads, quads.len() as int, u, v));
    }
}

/// Whether the first `n` quads cover a cell depends on them alone.
proof fn lemma_same_cover(a: Seq<LayerQuad>, b: Seq<LayerQuad>, n: int)
    requires
        0 <= n <= a.len(),
        n <= b.len(),
        forall|i: int| 0 <= i < n ==> a[i] == b[i],
    ensures
        forall|u: int, v: int| #[trigger] covered(a, n, u, v) == covered(b, n, u, v),
{
    assert forall|u: int, v: int| #[trigger] covered(a, n, u, v) == covered(b, n, u, v) by {
        if covered(a, n, u, v) {
            let i = choose|i: int| 0 <= i < n && in_quad(#[trigger] a[i], u, v);
            assert(in_quad(b[i], u, v));
        }
        if covered(b, n, u, v) {
            let i = choose|i: int| 0 <= i < n && in_quad(#[trigger] b[i], u, v);
            assert(in_quad(a[i], u, v));
        }
    }
}

/// Equal beginnings determine the next quad.
proof fn lemma_next_quad(
    mask: Seq<Option<BlockId>>,
    a: Seq<LayerQuad>,
    b: Seq<LayerQuad>,
    n: int,
)
    requires
        greedy_layer(mask, a),
        greedy_layer(mask, b),
        0 <= n < a.len(),
        n < b.len(),
        forall|i: int| 0 <= i < n ==> a[i] == b[i],
    ensures
        a[n] == b[n],
{
    lemma_same_cover(a, b, n);
    let (p, q) = (a[n], b[n]);
    assert(greedy_quad(mask, a, n) && greedy_quad(mask, b, n));
    let (pu, pv, qu, qv) = (p.u as int, p.v as int, q.u as int, q.v as int);
    assert(open_cell(mask, a, n, p.block_id, pu, pv)) by {
        assert(in_quad(p, pu, pv));
    }
    assert(open_cell(mask, b, n, q.block_id, qu, qv)) by {
        assert(in_quad(q, qu, qv));
    }
    assert(at(mask, pu, pv) is Some);
    assert(at(mask, qu, qv) is Some);
    if pv * 32 + pu < qv * 32 + qu {
        assert(covered(b, n, pu, pv));
        assert(covered(a, n, pu, pv));
        assert(false);
    }
    if qv * 32 + qu < pv * 32 + pu {
        assert(covered(a, n, qu, qv));
        assert(covered(b, n, qu, qv));
        assert(false);
    }
    assert(pu == qu && pv == qv);
    assert(p.block_id == q.block_id);
    let id = p.block_id;
    assert forall|u: int, v: int| #[trigger] open_cell(mask, a, n, id, u, v) == open_cell(
        mask,
        b,
        n,
        id,
        u,
        v,
    ) by {
        assert(covered(a, n, u, v) == covered(b, n, u, v));
    }
    if p.width < q.width {
        assert(in_quad(q, pu + p.width, pv));
        assert(open_cell(mask, b, n, id, pu + p.width, pv));
        assert(open_cell(mask, a, n, id, pu + p.width, pv));
    }
    if q.width < p.width {
        assert(in_quad(p, pu + q.width, pv));
        assert(open_cell(mask, a, n, id, pu + q.width, pv));
        assert(open_cell(mask, b, n, id, pu + q.width, pv));
    }
    if p.height < q.height {
        assert(open_row(mask, a, n, id, pu, pu + p.width, pv + p.height)) by {
            assert forall|u: int| pu <= u < pu + p.width implies #[trigger] open_cell(
                mask,
                a,
                n,
                id,
                u,
                pv + p.height,
            ) by {
                assert(in_quad(q, u, pv + p.height));
                assert(open_cell(mask, b, n, id, u, pv + p.height));
            }
        }
    }
    if q.height < p.height {
        assert(open_row(mask, b, n, id, pu, pu + q.width, pv + q.height)) by {
            assert forall|u: int| pu <= u < pu + q.width implies #[trigger] open_cell(
                mask,
                b,
                n,
                id,
                u,
                pv + q.height,
            ) by {
                assert(in_quad(p, u, pv + q.height));
                assert(open_cell(mask, a, n, id, u, pv + q.height));
            }
        }
    }
}

/// The greedy scan has one outcome.
pub proof fn law_greedy_unique(mask: Seq<Option<BlockId>>, a: Seq<LayerQuad>, b: Seq<LayerQuad>)
    requires
        greedy_layer(mask, a),
        greedy_layer(mask, b),
    ensures
        a == b,
{
    lemma_prefix(mask, a, b, if a.len() <= b.len() { a.len() } else { b.len() });
    lemma_not_longer(mask, a, b);
    lemma_not_longer(mask, b, a);
    assert(a =~= b);
}

/// The first quads of two outcomes are the same.
proof fn lemma_prefix(mask: Seq<Option<BlockId>>, a: Seq<LayerQuad>, b: Seq<LayerQuad>, n: nat)
    requires
        greedy_layer(mask, a),
        greedy_layer(mask, b),
        n <= a.len(),
        n <= b.len(),
    ensures
        forall|i: int| 0 <= i < n ==> a[i] == b[i],
    decreases n,
{
    if n > 0 {
        lemma_prefix(mask, a, b, (n - 1) as nat);
        lemma_next_quad(mask, a, b, n - 1);
    }
}

/// An outcome is no longer than another with the same beginning.
proof fn lemma_not_longer(mask: Seq<Option<BlockId>>, a: Seq<LayerQuad>, b: Seq<LayerQuad>)
    requires
        greedy_layer(mask, a),
        greedy_layer(mask, b),
        forall|i: int| 0 <= i < a.len() && i < b.len() ==> a[i] == b[i],
    ensures
        a.len() <= b.len(),
{
    if a.len() > b.len() {
        let n = b.len() as int;
        lemma_same_cover(a, b, n);
        let q = a[n];
        assert(greedy_quad(mask, a, n));
        let (u, v) = (q.u as int, q.v as int);
        assert(in_quad(q, u, v));
        assert(open_cell(mask, a, n, q.block_id, u, v));
        assert(at(mask, u, v) is Some);
        assert(covered(b, n, u, v));
        assert(covered(a, n, u, v));
    }
}

/// Whether a cell is visible, of kind `id` and not consumed.
fn is_open(mask: &Vec<Option<BlockId>>, consumed: &Vec<bool>, id: BlockId, u: usize, v: usize, Ghost(
    quads,
): Ghost<Seq<LayerQuad>>) -> (r: bool)
    requires
        mask@.len() == 1024,
        consumed@.len() == 1024,
        u < 32,
        v < 32,
        forall|a: int, b: int|
            0 <= a < 32 && 0 <= b < 32 ==> #[trigger] at(consumed@, a, b) == covered(
                quads,
                quads.len() as int,
                a,
                b,
            ),
    ensures
        r == open_cell(mask@, quads, quads.len() as int, id, u as int, v as int),
{
    let c: usize = v * 32 + u;
    assert(at(consumed@, u as int, v as int) == covered(quads, quads.len() as int, u as int, v as int));
    if consumed[c] {
        return false;
    }
    match mask[c] {
        Some(other) => other == id,
        None => false,
    }
}

/// How far a quad that starts at a cell reaches along its row.
fn find_width(
    mask: &Vec<Option<BlockId>>,
    consumed: &Vec<bool>,
    id: BlockId,
    u: usize,
    v: usize,
    Ghost(quads): Ghost<Seq<LayerQuad>>,
) -> (w: usize)
    requires
        mask@.len() == 1024,
        consumed@.len() == 1024,
        u < 32,
        v < 32,
        forall|a: int, b: int|
            0 <= a < 32 && 0 <= b < 32 ==> #[trigger] at(consumed@, a, b) == covered(
                quads,
                quads.len() as int,
                a,
                b,
            ),
        open_cell(mask@, quads, quads.len() as int, id, u as int, v as int),
    ensures
        1 <= w,
        u + w <= 32,
        forall|a: int|
            u <= a < u + w ==> #[trigger] open_cell(
                mask@,
                quads,
                quads.len() as int,
                id,
                a,
                v as int,
            ),
        u + w < 32 ==> !open_cell(mask@, quads, quads.len() as int, id, u + w, v as int),
{
    let mut width: usize = 1;
    while u + width < CHUNK_SIZE && is_open(mask, consumed, id, u + width, v, Ghost(quads))
        invariant
            1 <= width,
            u + width <= 32,
            v < 32,
            mask@.len() == 1024,
            consumed@.len() == 1024,
            forall|a: int, b: int|
                0 <= a < 32 && 0 <= b < 32 ==> #[trigger] at(consumed@, a, b) == covered(
                    quads,
                    quads.len() as int,
                    a,
                    b,
                ),
            forall|a: int|
                u <= a < u + width ==> #[trigger] open_cell(
                    mask@,
                    quads,
                    quads.len() as int,
                    id,
                    a,
                    v as int,
                ),
        decreases 32 - width,
    {
        width = width + 1;
    }
    width
}

/// Whether a row is open over the width of a quad.
fn row_open(
    mask: &Vec<Option<BlockId>>,
    consumed: &Vec<bool>,
    id: BlockId,
    u: usize,
    v: usize,
    width: usize,
    Ghost(quads): Ghost<Seq<LayerQuad>>,
) -> (r: bool)
    requires
        mask@.len() == 1024,
        consumed@.len() == 1024,
        u + width <= 32,
        v < 32,
        forall|a: int, b: int|
            0 <= a < 32 && 0 <= b < 32 ==> #[trigger] at(consumed@, a, b) == covered(
                quads,
                quads.len() as int,
                a,
                b,
            ),
    ensures
        r == open_row(
            mask@,
            quads,
            quads.len() as int,
            id,
            u as int,
            u + width,
            v as int,
        ),
{
    let mut du: usize = 0;
    while du < width
        invariant
            du <= width,
            u + width <= 32,
            v < 32,
            mask@.len() == 1024,
            consumed@.len() == 1024,
            forall|a: int, b: int|
                0 <= a < 32 && 0 <= b < 32 ==> #[trigger] at(consumed@, a, b) == covered(
                    quads,
                    quads.len() as int,
                    a,
                    b,
                ),
            forall|a: int|
                u <= a < u + du ==> #[trigger] open_cell(
                    mask@,
                    quads,
                    quads.len() as int,
                    id,
                    a,
                    v as int,
                ),
        decreases width - du,
    {
        if !is_open(mask, consumed, id, u + du, v, Ghost(quads)) {
            assert(!open_cell(mask@, quads, quads.len() as int, id, u + du, v as int));
            return false;
        }
        du = du + 1;
    }
    true
}

/// Marks the cells of a quad as consumed.
fn consume(consumed: &mut Vec<bool>, q: LayerQuad, Ghost(quads): Ghost<Seq<LayerQuad>>)
    requires
        old(consumed)@.len() == 1024,
        q.u + q.width <= 32,
        q.v + q.height <= 32,
        forall|a: int, b: int|
            0 <= a < 32 && 0 <= b < 32 ==> #[trigger] at(old(consumed)@, a, b) == covered(
                quads,
                quads.len() as int,
                a,
                b,
            ),
    ensures
        final(consumed)@.len() == 1024,
        forall|a: int, b: int|
            0 <= a < 32 && 0 <= b < 32 ==> #[trigger] at(final(consumed)@, a, b) == covered(
                quads.push(q),
                quads.len() as int + 1,
                a,
                b,
            ),
{
    let mut dv: usize = 0;
    while dv < q.height
        invariant
            dv <= q.height,
            q.u + q.width <= 32,
            q.v + q.height <= 32,
            consumed@.len() == 1024,
            forall|a: int, b: int|
                0 <= a < 32 && 0 <= b < 32 ==> #[trigger] at(consumed@, a, b) == (covered(
                    quads,
                    quads.len() as int,
                    a,
                    b,
                ) || (in_quad(q, a, b) && b < q.v + dv)),
        decreases q.height - dv,
    {
        let mut du: usize = 0;
        while du < q.width
            invariant
                du <= q.width,
                dv < q.height,
                q.u + q.width <= 32,
                q.v + q.height <= 32,
                consumed@.len() == 1024,
                forall|a: int, b: int|
                    0 <= a < 32 && 0 <= b < 32 ==> #[trigger] at(consumed@, a, b) == (covered(
                        quads,
                        quads.len() as int,
                        a,
                        b,
                    ) || (in_quad(q, a, b) && (b < q.v + dv || (b == q.v + dv && a < q.u + du)))),
            decreases q.width - du,
        {
            let c: usize = (q.v + dv) * 32 + q.u + du;
            let ghost before = consumed@;
            consumed.set(c, true);
            proof {
                assert forall|a: int, b: int| 0 <= a < 32 && 0 <= b < 32 implies #[trigger] at(
                    consumed@,
                    a,
                    b,
                ) == (covered(quads, quads.len() as int, a, b) || (in_quad(q, a, b) && (b < q.v + dv
                    || (b == q.v + dv && a < q.u + du + 1)))) by {
                    assert(at(before, a, b) == (covered(quads, quads.len() as int, a, b) || (
                    in_quad(q, a, b) && (b < q.v + dv || (b == q.v + dv && a < q.u + du)))));
                }
            }
            du = du + 1;
        }
        dv = dv + 1;
    }
    proof {
        assert forall|a: int, b: int| 0 <= a < 32 && 0 <= b < 32 implies #[trigger] at(consumed@, a, b) == covered(quads.push(q), quads.len() as int + 1, a, b) by {
            lemma_cover_push(quads, q, a, b);
        }
    }
}

/// What is covered after one more quad.
proof fn lemma_cover_push(quads: Seq<LayerQuad>, q: LayerQuad, u: int, v: int)
    ensures
        covered(quads.push(q), quads.len() as int + 1, u, v) == (covered(quads, quads.len() as int, u, v)
            || in_quad(q, u, v)),
{
    let more = quads.push(q);
    if covered(more, quads.len() as int + 1, u, v) {
        let i = choose|i: int| 0 <= i < quads.len() + 1 && in_quad(#[trigger] more[i], u, v);
        if i < quads.len() {
            assert(in_quad(quads[i], u, v));
        }
    }
    if covered(quads, quads.len() as int, u, v) {
        let i = choose|i: int| 0 <= i < quads.len() && in_quad(#[trigger] quads[i], u, v);
        assert(in_quad(more[i], u, v));
    }
    if in_quad(q, u, v) {
        assert(in_quad(more[quads.len() as int], u, v));
    }
}

/// What was a greedy quad stays one when more quads follow.
proof fn lemma_greedy_push(
    mask: Seq<Option<BlockId>>,
    quads: Seq<LayerQuad>,
    q: LayerQuad,
    n: int,
)
    requires
        0 <= n < quads.len(),
        greedy_quad(mask, quads, n),
    ensures
        greedy_quad(mask, quads.push(q), n),
{
    let more = quads.push(q);
    lemma_same_cover(quads, more, n);
    assert(more[n] == quads[n]);
    let id = quads[n].block_id;
    assert forall|u: int, v: int| #[trigger] open_cell(mask, more, n, id, u, v) == open_cell(
        mask,
        quads,
        n,
        id,
        u,
        v,
    ) by {
        assert(covered(quads, n, u, v) == covered(more, n, u, v));
    }
    assert forall|u: int, v: int|
        0 <= u < 32 && 0 <= v < 32 && v * 32 + u < quads[n].v * 32 + quads[n].u && (
        #[trigger] at(mask, u, v)) is Some implies #[trigger] covered(more, n, u, v) by {
        assert(covered(quads, n, u, v));
    }
    if open_row(
        mask,
        more,
        n,
        id,
        quads[n].u as int,
        quads[n].u + quads[n].width,
        quads[n].v + quads[n].height,
    ) {
        assert(open_row(
            mask,
            quads,
            n,
            id,
            quads[n].u as int,
            quads[n].u + quads[n].width,
            quads[n].v + quads[n].height,
        )) by {
            assert forall|u: int|
                quads[n].u <= u < quads[n].u + quads[n].width implies #[trigger] open_cell(
                mask,
                quads,
                n,
                id,
                u,
                quads[n].v + quads[n].height,
            ) by {
                assert(open_cell(mask, more, n, id, u, quads[n].v + quads[n].height));
            }
        }
    }
}

/// The quads of a layer.
pub fn merge_layer(mask: &Vec<Option<BlockId>>) -> (r: Vec<LayerQuad>)
    requires
        mask@.len() == 1024,
    ensures
        greedy_layer(mask@, r@),
        r@.len() <= 1024,
{
    let mut consumed: Vec<bool> = vec![false; 1024];
    let mut quads: Vec<LayerQuad> = Vec::new();
    let mut c: usize = 0;
    while c < 1024
        invariant
            c <= 1024,
            mask@.len() == 1024,
            consumed@.len() == 1024,
            quads@.len() <= c,
            forall|a: int, b: int|
                0 <= a < 32 && 0 <= b < 32 ==> #[trigger] at(consumed@, a, b) == covered(
                    quads@,
                    quads@.len() as int,
                    a,
                    b,
                ),
            forall|n: int| 0 <= n < quads@.len() ==> #[trigger] greedy_quad(mask@, quads@, n),
            forall|u: int, v: int|
                0 <= u < 32 && 0 <= v < 32 && v * 32 + u < c && (#[trigger] at(mask@, u, v)) is Some ==> #[trigger] covered(quads@, quads@.len() as int, u, v),
        decreases 1024 - c,
    {
        let v: usize = c / 32;
        let u: usize = c % 32;
        let ghost old_quads = quads@;
        let ghost n = quads@.len() as int;
        assert(at(consumed@, u as int, v as int) == covered(quads@, n, u as int, v as int));
        if !consumed[c] {
            match mask[c] {
                Some(block_id) => {
                    assert(open_cell(mask@, quads@, n, block_id, u as int, v as int));
                    let width: usize = find_width(mask, &consumed, block_id, u, v, Ghost(quads@));
                    let mut height: usize = 1;
                    while v + height < CHUNK_SIZE && row_open(
                        mask,
                        &consumed,
                        block_id,
                        u,
                        v + height,
                        width,
                        Ghost(quads@),
                    )
                        invariant
                            1 <= height,
                            v + height <= 32,
                            u + width <= 32,
                            n == quads@.len(),
                            mask@.len() == 1024,
                            consumed@.len() == 1024,
                            forall|a: int, b: int|
                                0 <= a < 32 && 0 <= b < 32 ==> #[trigger] at(consumed@, a, b)
                                    == covered(quads@, quads@.len() as int, a, b),
                            forall|a: int, b: int|
                                u <= a < u + width && v <= b < v + height ==> #[trigger] open_cell(
                                    mask@,
                                    quads@,
                                    n,
                                    block_id,
                                    a,
                                    b,
                                ),
                        decreases 32 - height,
                    {
                        height = height + 1;
                    }
                    let q: LayerQuad = LayerQuad { u, v, width, height, block_id };
                    consume(&mut consumed, q, Ghost(quads@));
                    quads.push(q);
                    proof {
                        lemma_same_cover(old_quads, quads@, n);
                        assert forall|a: int, b: int| #[trigger] open_cell(
                            mask@,
                            quads@,
                            n,
                            block_id,
                            a,
                            b,
                        ) == open_cell(mask@, old_quads, n, block_id, a, b) by {
                            assert(covered(old_quads, n, a, b) == covered(quads@, n, a, b));
                        }
                        if open_row(
                            mask@,
                            quads@,
                            n,
                            block_id,
                            u as int,
                            u + width,
                            v + height,
                        ) {
                            assert forall|a: int| u <= a < u + width implies #[trigger] open_cell(
                                mask@,
                                old_quads,
                                n,
                                block_id,
                                a,
                                v + height,
                            ) by {
                                assert(open_cell(mask@, quads@, n, block_id, a, v + height));
                            }
                            assert(open_row(
                                mask@,
                                old_quads,
                                n,
                                block_id,
                                u as int,
                                u + width,
                                v + height,
                            ));
                        }
                        assert forall|a: int, b: int|
                            0 <= a < 32 && 0 <= b < 32 && b * 32 + a < c && (#[trigger] at(mask@, a, b)) is Some implies #[trigger] covered(quads@, n, a, b) by {
                            assert(covered(old_quads, n, a, b));
                        }
                        assert(quads@[n] == q && q.v * 32 + q.u == c);
                        assert forall|a: int, b: int| in_quad(q, a, b) implies #[trigger] open_cell(
                            mask@,
                            quads@,
                            n,
                            block_id,
                            a,
                            b,
                        ) by {
                            assert(open_cell(mask@, old_quads, n, block_id, a, b));
                        }
                        if u + width < 32 {
                            assert(!open_cell(mask@, old_quads, n, block_id, u + width, v as int));
                            assert(!open_cell(mask@, quads@, n, block_id, u + width, v as int));
                        }
                        assert(greedy_quad(mask@, quads@, n));
                        assert forall|k: int| 0 <= k < n + 1 implies #[trigger] greedy_quad(
                            mask@,
                            quads@,
                            k,
                        ) by {
                            if k < n {
                                lemma_greedy_push(mask@, old_quads, q, k);
                            }
                        }
                    }
                },
                None => {},
            }
        }
        proof {
            assert forall|a: int, b: int|
                0 <= a < 32 && 0 <= b < 32 && b * 32 + a < c + 1 && (#[trigger] at(mask@, a, b)) is Some implies #[trigger] covered(
                quads@,
                quads@.len() as int,
                a,
                b,
            ) by {
                if b * 32 + a < c {
                    assert(covered(old_quads, n, a, b));
                    let i = choose|i: int| 0 <= i < n && in_quad(#[trigger] old_quads[i], a, b);
                    assert(quads@[i] == old_quads[i]);
                } else {
                    assert(a == u && b == v);
                    if quads@.len() > n {
                        assert(in_quad(quads@[n], a, b));
                    }
                }
            }
        }
        c = c + 1;
    }
    quads
}

/// The block whose face a cell of a layer shows. The layers of a direction lie
/// across its axis; `u` runs along z for the faces along x and else along x, and
/// `v` runs along z for the faces along y and else along y.
pub open spec fn cell_block(f: int, layer: int, u: int, v: int) -> (int, int, int) {
    if f < 2 {
        (layer, v, u)
    } else if f < 4 {
        (u, layer, v)
    } else {
        (u, v, layer)
    }
}

/// What a cell of a layer shows: the block there, if it is not air and the block
/// across is of another kind.
pub open spec fn cell_face(
    chunk: ChunkData,
    neighbors: ChunkNeighbors,
    f: int,
    layer: int,
    u: int,
    v: int,
) -> Option<BlockId> {
    let (x, y, z) = cell_block(f, layer, u, v);
    let d = face::spec_face(f).spec_normal();
    let id = chunk.block_at(x, y, z);
    if id == 0 || chunk::across(chunk, neighbors, x + d[0], y + d[1], z + d[2], f) == id {
        None
    } else {
        Some(id)
    }
}

/// The mask of a layer.
pub open spec fn layer_mask(
    chunk: ChunkData,
    neighbors: ChunkNeighbors,
    f: int,
    layer: int,
) -> Seq<Option<BlockId>> {
    Seq::new(1024, |c: int| cell_face(chunk, neighbors, f, layer, c % 32, c / 32))
}

/// Builds the mask of a layer.
fn build_mask(
    chunk: &ChunkData,
    neighbors: &ChunkNeighbors,
    f: usize,
    layer: usize,
    normal_offset: &[i32; 3],
) -> (r: Vec<Option<BlockId>>)
    requires
        chunk.wf(),
        neighbors.wf(),
        f < 6,
        layer < 32,
        normal_offset@ == face::spec_face(f as int).spec_normal(),
    ensures
        r@ == layer_mask(*chunk, *neighbors, f as int, layer as int),
{
    let mut mask: Vec<Option<BlockId>> = Vec::new();
    let mut c: usize = 0;
    while c < 1024
        invariant
            c <= 1024,
            chunk.wf(),
            neighbors.wf(),
            f < 6,
            layer < 32,
            normal_offset@ == face::spec_face(f as int).spec_normal(),
            mask@.len() == c,
            forall|k: int|
                0 <= k < c ==> #[trigger] mask@[k] == cell_face(
                    *chunk,
                    *neighbors,
                    f as int,
                    layer as int,
                    k % 32,
                    k / 32,
                ),
        decreases 1024 - c,
    {
        let u: usize = c % 32;
        let v: usize = c / 32;
        let (x, y, z): (usize, usize, usize) = if f < 2 {
            (layer, v, u)
        } else if f < 4 {
            (u, layer, v)
        } else {
            (u, v, layer)
        };
        let block_id: BlockId = chunk.get(x, y, z);
        if block_id == 0 {
            mask.push(None);
        } else {
            let neighbor_id: BlockId = block_across(
                chunk,
                neighbors,
                x as i32 + normal_offset[0],
                y as i32 + normal_offset[1],
                z as i32 + normal_offset[2],
                f,
            );
            if neighbor_id != block_id {
                mask.push(Some(block_id));
            } else {
                mask.push(None);
            }
        }
        c = c + 1;
    }
    assert(mask@ =~= layer_mask(*chunk, *neighbors, f as int, layer as int));
    mask
}

/// The quad that a layer's quad stands for. Layer `p` is layer `p % 32` of
/// direction `p / 32`.
pub open spec fn placed<T: Copy>(uv_table: UvLookupTable<T>, p: int, q: LayerQuad) -> Quad<T> {
    let f = p / 32;
    let face = face::spec_face(f);
    let (w, h) = (q.width as int, q.height as int);
    Quad {
        face,
        origin: cell_block(f, p % 32, q.u as int, q.v as int),
        extent: if f < 2 {
            (1, h, w)
        } else if f < 4 {
            (w, 1, h)
        } else {
            (w, h, 1)
        },
        uv: uv_table.uv(q.block_id as int, face.spec_face_index()),
    }
}

/// Whether a kind of block is to be drawn: all are, or one only.
pub open spec fn wanted(only: Option<BlockId>, id: BlockId) -> bool {
    match only {
        Some(one) => id == one,
        None => true,
    }
}

/// The quads of layer `p` that are to be drawn.
pub open spec fn placed_layer<T: Copy>(
    uv_table: UvLookupTable<T>,
    p: int,
    quads: Seq<LayerQuad>,
    only: Option<BlockId>,
) -> Seq<Quad<T>>
    decreases quads.len(),
{
    if quads.len() == 0 {
        seq![]
    } else {
        let rest = placed_layer(uv_table, p, quads.drop_last(), only);
        if wanted(only, quads.last().block_id) {
            rest.push(placed(uv_table, p, quads.last()))
        } else {
            rest
        }
    }
}

/// The quads of all layers that are to be drawn, layer by layer.
pub open spec fn placed_layers<T: Copy>(
    uv_table: UvLookupTable<T>,
    layers: Seq<Seq<LayerQuad>>,
    only: Option<BlockId>,
) -> Seq<Quad<T>>
    decreases layers.len(),
{
    if layers.len() == 0 {
        seq![]
    } else {
        placed_layers(uv_table, layers.drop_last(), only) + placed_layer(
            uv_table,
            layers.len() - 1,
            layers.last(),
            only,
        )
    }
}

/// The layers are those of the greedy scan of a chunk.
pub open spec fn greedy_layers(
    chunk: ChunkData,
    neighbors: ChunkNeighbors,
    layers: Seq<Seq<LayerQuad>>,
) -> bool {
    forall|p: int|
        0 <= p < layers.len() ==> greedy_layer(
            layer_mask(chunk, neighbors, p / 32, p % 32),
            #[trigger] layers[p],
        )
}

/// A layer has no more quads to draw than quads.
proof fn lemma_placed_layer_len<T: Copy>(
    uv_table: UvLookupTable<T>,
    p: int,
    quads: Seq<LayerQuad>,
    only: Option<BlockId>,
)
    ensures
        placed_layer(uv_table, p, quads, only).len() <= quads.len(),
    decreases quads.len(),
{
    if quads.len() > 0 {
        lemma_placed_layer_len(uv_table, p, quads.drop_last(), only);
    }
}

/// Adds the quads of a layer to a mesh.
fn emit_layer<T: Copy>(
    out: &mut SubMeshData<T>,
    quads: &Vec<LayerQuad>,
    f: usize,
    layer: usize,
    uv_table: &UvLookupTable<T>,
    only: Option<BlockId>,
    Ghost(before): Ghost<Seq<Quad<T>>>,
    Ghost(mask): Ghost<Seq<Option<BlockId>>>,
)
    requires
        uv_table.wf(),
        f < 6,
        layer < 32,
        greedy_layer(mask, quads@),
        quads@.len() <= 1024,
        before.len() <= 200000,
        old(out).is_mesh_of(before),
    ensures
        final(out).is_mesh_of(
            before + placed_layer(*uv_table, f * 32 + layer, quads@, only),
        ),
{
    let ghost p = f * 32 + layer;
    let mut i: usize = 0;
    assert(quads@.take(0) =~= seq![]);
    assert(before + placed_layer(*uv_table, p, quads@.take(0), only) =~= before);
    while i < quads.len()
        invariant
            i <= quads@.len() <= 1024,
            p == f * 32 + layer,
            uv_table.wf(),
            f < 6,
            layer < 32,
            greedy_layer(mask, quads@),
            before.len() <= 200000,
            out.is_mesh_of(before + placed_layer(*uv_table, p, quads@.take(i as int), only)),
        decreases quads@.len() - i,
    {
        let q: LayerQuad = quads[i];
        let ghost done = before + placed_layer(*uv_table, p, quads@.take(i as int), only);
        proof {
            lemma_placed_layer_len(*uv_table, p, quads@.take(i as int), only);
            assert(quads@.take(i + 1).drop_last() =~= quads@.take(i as int));
            assert(greedy_quad(mask, quads@, i as int));
        }
        let keep: bool = match only {
            Some(one) => q.block_id == one,
            None => true,
        };
        if keep {
            let (face, normal, uv_idx) = faces(f);
            let (w, h) = (q.width as i32, q.height as i32);
            let (x, y, z): (usize, usize, usize) = if f < 2 {
                (layer, q.v, q.u)
            } else if f < 4 {
                (q.u, layer, q.v)
            } else {
                (q.u, q.v, layer)
            };
            let (dx, dy, dz): (i32, i32, i32) = if f < 2 {
                (1, h, w)
            } else if f < 4 {
                (w, 1, h)
            } else {
                (w, h, 1)
            };
            let verts: [[i32; 3]; 4] = box_face(face, x as i32, y as i32, z as i32, dx, dy, dz);
            let uv: (T, T, T, T) = uv_table.get_uv(q.block_id, uv_idx);
            out.push_quad(
                verts,
                face_uvs(uv),
                normal,
                Ghost(done),
                Ghost(placed(*uv_table, p, q)),
            );
            assert(done.push(placed(*uv_table, p, q)) =~= before + placed_layer(
                *uv_table,
                p,
                quads@.take(i + 1),
                only,
            ));
        }
        i = i + 1;
    }
    assert(quads@.take(i as int) =~= quads@);
}

/// The merged mesh of a chunk, of all kinds of block or of one only.
pub fn greedy_sub_mesh<T: Copy>(
    chunk: &ChunkData,
    neighbors: &ChunkNeighbors,
    uv_table: &UvLookupTable<T>,
    only: Option<BlockId>,
) -> (r: SubMeshData<T>)
    requires
        chunk.wf(),
        neighbors.wf(),
        uv_table.wf(),
    ensures
        exists|layers: Seq<Seq<LayerQuad>>|
            layers.len() == 192 && #[trigger] greedy_layers(*chunk, *neighbors, layers)
                && r.is_mesh_of(placed_layers(*uv_table, layers, only)),
{
    let mut out: SubMeshData<T> = SubMeshData::new();
    let ghost mut layers: Seq<Seq<LayerQuad>> = seq![];
    let mut f: usize = 0;
    while f < 6
        invariant
            f <= 6,
            chunk.wf(),
            neighbors.wf(),
            uv_table.wf(),
            layers.len() == f * 32,
            greedy_layers(*chunk, *neighbors, layers),
            placed_layers(*uv_table, layers, only).len() <= layers.len() * 1024,
            out.is_mesh_of(placed_layers(*uv_table, layers, only)),
        decreases 6 - f,
    {
        let (_face, normal, _uv_idx) = faces(f);
        let mut layer: usize = 0;
        while layer < CHUNK_SIZE
            invariant
                f < 6,
                layer <= 32,
                chunk.wf(),
                neighbors.wf(),
                uv_table.wf(),
                normal@ == face::spec_face(f as int).spec_normal(),
                layers.len() == f * 32 + layer,
                greedy_layers(*chunk, *neighbors, layers),
                placed_layers(*uv_table, layers, only).len() <= layers.len() * 1024,
                out.is_mesh_of(placed_layers(*uv_table, layers, only)),
            decreases 32 - layer,
        {
            let mask: Vec<Option<BlockId>> = build_mask(chunk, neighbors, f, layer, &normal);
            let quads: Vec<LayerQuad> = merge_layer(&mask);
            let ghost before = placed_layers(*uv_table, layers, only);
            emit_layer(
                &mut out,
                &quads,
                f,
                layer,
                uv_table,
                only,
                Ghost(before),
                Ghost(mask@),
            );
            proof {
                let more = layers.push(quads@);
                assert(more.drop_last() =~= layers);
                let p = f * 32 + layer;
                assert(p / 32 == f && p % 32 == layer);
                lemma_placed_layer_len(*uv_table, p as int, quads@, only);
                assert forall|k: int| 0 <= k < more.len() implies greedy_layer(
                    layer_mask(*chunk, *neighbors, k / 32, k % 32),
                    #[trigger] more[k],
                ) by {
                    if k < layers.len() {
                        assert(more[k] == layers[k]);
                    }
                }
                layers = more;
            }
            layer = layer + 1;
        }
        f = f + 1;
    }
    out
}

/// A merged mesh, with positions, texture coordinates and directions apart.
pub struct GreedyMeshResult<T> {
    pub positions: Vec<[i32; 3]>,
    pub uvs: Vec<[T; 2]>,
    pub normals: Vec<[i32; 3]>,
    pub indices: Vec<u32>,
}

impl<T> GreedyMeshResult<T> {
    /// The corners of the mesh.
    pub open spec fn vertices(&self) -> Seq<MeshVertex<T>> {
        Seq::new(
            self.positions@.len(),
            |i: int|
                MeshVertex {
                    position: self.positions@[i],
                    normal: self.normals@[i],
                    uv: self.uvs@[i],
                },
        )
    }

    /// The mesh shows the quads, in their order.
    pub open spec fn is_mesh_of(&self, quads: Seq<Quad<T>>) -> bool {
        &&& self.uvs@.len() == self.positions@.len()
        &&& self.normals@.len() == self.positions@.len()
        &&& mesh::shows(self.vertices(), self.indices@, quads)
    }
}

/// The merged mesh of a chunk: every visible face of a block that is not air
/// lies in exactly one quad, together with faces of the same kind next to it.
pub fn generate_greedy_mesh<T: Copy>(
    chunk: &ChunkData,
    neighbors: &ChunkNeighbors,
    uv_table: &UvLookupTable<T>,
) -> (r: GreedyMeshResult<T>)
    requires
        chunk.wf(),
        neighbors.wf(),
        uv_table.wf(),
    ensures
        exists|layers: Seq<Seq<LayerQuad>>|
            layers.len() == 192 && #[trigger] greedy_layers(*chunk, *neighbors, layers)
                && r.is_mesh_of(placed_layers(*uv_table, layers, None)),
{
    let sub: SubMeshData<T> = greedy_sub_mesh(chunk, neighbors, uv_table, None);
    let ghost vertices = sub.vertices@;
    let ghost whole = sub;
    let (positions, uvs, normals, indices) = sub.split_for_bevy();
    let r = GreedyMeshResult { positions, uvs, normals, indices };
    proof {
        assert(r.vertices() =~= vertices);
        let layers = choose|layers: Seq<Seq<LayerQuad>>|
            layers.len() == 192 && #[trigger] greedy_layers(*chunk, *neighbors, layers)
                && whole.is_mesh_of(placed_layers(*uv_table, layers, None));
        assert(r.is_mesh_of(placed_layers(*uv_table, layers, None)));
    }
    r
}

/// The layers of the greedy scan of a chunk are determined by the chunk and its
/// neighbours.
pub proof fn law_greedy_layers_unique(
    chunk: ChunkData,
    neighbors: ChunkNeighbors,
    a: Seq<Seq<LayerQuad>>,
    b: Seq<Seq<LayerQuad>>,
)
    requires
        greedy_layers(chunk, neighbors, a),
        greedy_layers(chunk, neighbors, b),
        a.len() == b.len(),
    ensures
        a == b,
{
    assert forall|p: int| 0 <= p < a.len() implies a[p] == b[p] by {
        law_greedy_unique(layer_mask(chunk, neighbors, p / 32, p % 32), a[p], b[p]);
    }
    assert(a =~= b);
}

/// Of two quads of a layer that show the same kind of block, none begins right of the
/// other on the row on which that begins, and none lies right below the other with the
/// same ends: they would be one.
pub proof fn law_quads_are_merged(
    mask: Seq<Option<BlockId>>,
    quads: Seq<LayerQuad>,
    i: int,
    j: int,
)
    requires
        greedy_layer(mask, quads),
        0 <= i < quads.len(),
        0 <= j < quads.len(),
        quads[i].block_id == quads[j].block_id,
    ensures
        !(quads[j].v == quads[i].v && quads[j].u == quads[i].u + quads[i].width),
        !(quads[j].u == quads[i].u && quads[j].width == quads[i].width && quads[j].v == quads[i].v
            + quads[i].height),
{
    let (p, q) = (quads[i], quads[j]);
    assert(greedy_quad(mask, quads, i) && greedy_quad(mask, quads, j));
    if q.v == p.v && q.u == p.u + p.width {
        let (u, v) = (q.u as int, q.v as int);
        assert(in_quad(q, u, v));
        assert(open_cell(mask, quads, j, q.block_id, u, v));
        lemma_not_covered_before(mask, quads, i, j, u, v);
        assert(open_cell(mask, quads, i, p.block_id, u, v));
    }
    if q.u == p.u && q.width == p.width && q.v == p.v + p.height {
        let v = q.v as int;
        assert forall|u: int| p.u <= u < p.u + p.width implies #[trigger] open_cell(
            mask,
            quads,
            i,
            p.block_id,
            u,
            v,
        ) by {
            assert(in_quad(q, u, v));
            assert(open_cell(mask, quads, j, q.block_id, u, v));
            lemma_not_covered_before(mask, quads, i, j, u, v);
        }
        assert(open_row(mask, quads, i, p.block_id, p.u as int, p.u + p.width, v));
    }
}

/// A cell of a quad that comes later in the scan than another is not covered when that one
/// is made.
proof fn lemma_not_covered_before(
    mask: Seq<Option<BlockId>>,
    quads: Seq<LayerQuad>,
    i: int,
    j: int,
    u: int,
    v: int,
)
    requires
        greedy_layer(mask, quads),
        0 <= i < quads.len(),
        0 <= j < quads.len(),
        in_quad(quads[j], u, v),
        quads[i].v * 32 + quads[i].u < quads[j].v * 32 + quads[j].u,
    ensures
        !covered(quads, i, u, v),
{
    assert(greedy_quad(mask, quads, i) && greedy_quad(mask, quads, j));
    if covered(quads, i, u, v) {
        let k = choose|k: int| 0 <= k < i && in_quad(#[trigger] quads[k], u, v);
        law_quads_disjoint(mask, quads, k, j, u, v);
        let (a, b) = (quads[i].u as int, quads[i].v as int);
        assert(in_quad(quads[i], a, b));
        assert(open_cell(mask, quads, i, quads[i].block_id, a, b));
        assert(at(mask, a, b) is Some);
        assert(covered(quads, j, a, b));
        let m = choose|m: int| 0 <= m < j && in_quad(#[trigger] quads[m], a, b);
        law_quads_disjoint(mask, quads, m, i, a, b);
    }
}

/// The layer, the column and the row of a block in the scan of direction `f`.
spec fn cell_of(f: int, x: int, y: int, z: int) -> (int, int, int) {
    if f < 2 {
        (x, z, y)
    } else if f < 4 {
        (y, x, z)
    } else {
        (z, x, y)
    }
}

/// A placed quad covers a face of a block if it is one of the block's layer and its cell
/// lies in it.
proof fn lemma_placed_covers<T: Copy>(
    uv_table: UvLookupTable<T>,
    p: int,
    q: LayerQuad,
    f: int,
    x: int,
    y: int,
    z: int,
)
    requires
        0 <= p < 192,
        0 <= f < 6,
        0 <= x < 32,
        0 <= y < 32,
        0 <= z < 32,
    ensures
        ({
            let (layer, u, v) = cell_of(f, x, y, z);
            mesh::covers(placed(uv_table, p, q), face::spec_face(f), x, y, z) <==> p == f * 32 + layer
                && in_quad(q, u, v)
        }),
{
    if face::spec_face(p / 32) == face::spec_face(f) {
        face::law_faces_differ(p / 32, f);
    }
    assert(p == 32 * (p / 32) + p % 32);
}

/// The quads of a layer overlap nowhere.
spec fn apart(quads: Seq<LayerQuad>) -> bool {
    forall|i: int, j: int, u: int, v: int|
        0 <= i < quads.len() && 0 <= j < quads.len() && #[trigger] in_quad(quads[i], u, v)
            && #[trigger] in_quad(quads[j], u, v) ==> i == j
}

/// What the placed quads of a layer cover, which is each face once.
proof fn lemma_layer_covers<T: Copy>(
    uv_table: UvLookupTable<T>,
    p: int,
    quads: Seq<LayerQuad>,
    only: Option<BlockId>,
    f: int,
    x: int,
    y: int,
    z: int,
)
    requires
        apart(quads),
        0 <= p < 192,
        0 <= f < 6,
        0 <= x < 32,
        0 <= y < 32,
        0 <= z < 32,
    ensures
        ({
            let out = placed_layer(uv_table, p, quads, only);
            let face = face::spec_face(f);
            let (layer, u, v) = cell_of(f, x, y, z);
            &&& forall|i: int|
                0 <= i < out.len() && mesh::covers(#[trigger] out[i], face, x, y, z) ==> p == f * 32
                    + layer && exists|k: int|
                    0 <= k < quads.len() && #[trigger] in_quad(quads[k], u, v) && wanted(
                        only,
                        quads[k].block_id,
                    ) && out[i] == placed(uv_table, p, quads[k])
            &&& forall|k: int|
                0 <= k < quads.len() && #[trigger] in_quad(quads[k], u, v) && wanted(
                    only,
                    quads[k].block_id,
                ) && p == f * 32 + layer ==> exists|i: int|
                    0 <= i < out.len() && mesh::covers(#[trigger] out[i], face, x, y, z)
            &&& forall|i: int, j: int|
                0 <= i < out.len() && 0 <= j < out.len() && mesh::covers(
                    #[trigger] out[i],
                    face,
                    x,
                    y,
                    z,
                ) && mesh::covers(#[trigger] out[j], face, x, y, z) ==> i == j
        }),
    decreases quads.len(),
{
    let out = placed_layer(uv_table, p, quads, only);
    let face = face::spec_face(f);
    let (layer, u, v) = cell_of(f, x, y, z);
    if quads.len() > 0 {
        let short = quads.drop_last();
        let last = quads.last();
        let rest = placed_layer(uv_table, p, short, only);
        let n = quads.len() - 1;
        assert(apart(short)) by {
            assert forall|i: int, j: int, a: int, b: int|
                0 <= i < short.len() && 0 <= j < short.len() && #[trigger] in_quad(short[i], a, b)
                    && #[trigger] in_quad(short[j], a, b) implies i == j by {
                assert(in_quad(quads[i], a, b) && in_quad(quads[j], a, b));
            }
        }
        lemma_layer_covers(uv_table, p, short, only, f, x, y, z);
        lemma_placed_covers(uv_table, p, last, f, x, y, z);
        assert(quads[n] == last);
        let w = wanted(only, last.block_id);
        assert forall|i: int| 0 <= i < rest.len() implies #[trigger] out[i] == rest[i] by {}
        if w {
            assert(out[rest.len() as int] == placed(uv_table, p, last));
        }
        assert forall|i: int|
            0 <= i < out.len() && mesh::covers(#[trigger] out[i], face, x, y, z) implies p == f * 32
            + layer && exists|k: int|
            0 <= k < quads.len() && #[trigger] in_quad(quads[k], u, v) && wanted(
                only,
                quads[k].block_id,
            ) && out[i] == placed(uv_table, p, quads[k]) by {
            if i < rest.len() {
                assert(mesh::covers(rest[i], face, x, y, z));
                let k = choose|k: int|
                    0 <= k < short.len() && #[trigger] in_quad(short[k], u, v) && wanted(
                        only,
                        short[k].block_id,
                    ) && rest[i] == placed(uv_table, p, short[k]);
                assert(in_quad(quads[k], u, v));
            } else {
                assert(in_quad(quads[n], u, v));
            }
        }
        assert forall|k: int|
            0 <= k < quads.len() && #[trigger] in_quad(quads[k], u, v) && wanted(
                only,
                quads[k].block_id,
            ) && p == f * 32 + layer implies exists|i: int|
            0 <= i < out.len() && mesh::covers(#[trigger] out[i], face, x, y, z) by {
            if k < n {
                assert(in_quad(short[k], u, v));
                let i = choose|i: int|
                    0 <= i < rest.len() && mesh::covers(#[trigger] rest[i], face, x, y, z);
                assert(mesh::covers(out[i], face, x, y, z));
            } else {
                assert(mesh::covers(out[rest.len() as int], face, x, y, z));
            }
        }
        assert forall|i: int, j: int|
            0 <= i < out.len() && 0 <= j < out.len() && mesh::covers(
                #[trigger] out[i],
                face,
                x,
                y,
                z,
            ) && mesh::covers(#[trigger] out[j], face, x, y, z) implies i == j by {
            if i < rest.len() && j < rest.len() {
                assert(mesh::covers(rest[i], face, x, y, z) && mesh::covers(rest[j], face, x, y, z));
            } else if i != j {
                let s = if i < rest.len() {
                    i
                } else {
                    j
                };
                assert(mesh::covers(rest[s], face, x, y, z));
                let k = choose|k: int|
                    0 <= k < short.len() && #[trigger] in_quad(short[k], u, v) && wanted(
                        only,
                        short[k].block_id,
                    ) && rest[s] == placed(uv_table, p, short[k]);
                assert(in_quad(quads[k], u, v) && in_quad(quads[n], u, v));
            }
        }
    }
}

/// What the placed quads of some layers cover, which is each face once.
proof fn lemma_layers_cover<T: Copy>(
    uv_table: UvLookupTable<T>,
    layers: Seq<Seq<LayerQuad>>,
    only: Option<BlockId>,
    f: int,
    x: int,
    y: int,
    z: int,
)
    requires
        layers.len() <= 192,
        forall|p: int| 0 <= p < layers.len() ==> apart(#[trigger] layers[p]),
        0 <= f < 6,
        0 <= x < 32,
        0 <= y < 32,
        0 <= z < 32,
    ensures
        ({
            let out = placed_layers(uv_table, layers, only);
            let face = face::spec_face(f);
            let (layer, u, v) = cell_of(f, x, y, z);
            let p = f * 32 + layer;
            &&& forall|i: int|
                0 <= i < out.len() && mesh::covers(#[trigger] out[i], face, x, y, z) ==> p
                    < layers.len() && exists|k: int|
                    0 <= k < layers[p].len() && #[trigger] in_quad(layers[p][k], u, v) && wanted(
                        only,
                        layers[p][k].block_id,
                    ) && out[i] == placed(uv_table, p, layers[p][k])
            &&& p < layers.len() ==> forall|k: int|
                0 <= k < layers[p].len() && #[trigger] in_quad(layers[p][k], u, v) && wanted(
                    only,
                    layers[p][k].block_id,
                ) ==> exists|i: int|
                    0 <= i < out.len() && mesh::covers(#[trigger] out[i], face, x, y, z)
            &&& forall|i: int, j: int|
                0 <= i < out.len() && 0 <= j < out.len() && mesh::covers(
                    #[trigger] out[i],
                    face,
                    x,
                    y,
                    z,
                ) && mesh::covers(#[trigger] out[j], face, x, y, z) ==> i == j
        }),
    decreases layers.len(),
{
    let out = placed_layers(uv_table, layers, only);
    let face = face::spec_face(f);
    let (layer, u, v) = cell_of(f, x, y, z);
    let p = f * 32 + layer;
    if layers.len() > 0 {
        let short = layers.drop_last();
        let n = layers.len() - 1;
        let rest = placed_layers(uv_table, short, only);
        let new = placed_layer(uv_table, n, layers.last(), only);
        assert forall|q: int| 0 <= q < short.len() implies apart(#[trigger] short[q]) by {
            assert(short[q] == layers[q]);
        }
        assert(apart(layers[n]));
        lemma_layers_cover(uv_table, short, only, f, x, y, z);
        lemma_layer_covers(uv_table, n, layers.last(), only, f, x, y, z);
        assert(out == rest + new);
        let m = rest.len() as int;
        assert forall|i: int| 0 <= i < m implies #[trigger] out[i] == rest[i] by {}
        assert forall|i: int| m <= i < out.len() implies #[trigger] out[i] == new[i - m] by {}
        assert forall|i: int|
            0 <= i < out.len() && mesh::covers(#[trigger] out[i], face, x, y, z) implies (if i < m {
            p < n && mesh::covers(rest[i], face, x, y, z)
        } else {
            p == n && mesh::covers(new[i - m], face, x, y, z)
        }) by {
            if i < m {
                assert(mesh::covers(rest[i], face, x, y, z));
            } else {
                assert(mesh::covers(new[i - m], face, x, y, z));
            }
        }
        assert forall|i: int|
            0 <= i < out.len() && mesh::covers(#[trigger] out[i], face, x, y, z) implies p
            < layers.len() && exists|k: int|
            0 <= k < layers[p].len() && #[trigger] in_quad(layers[p][k], u, v) && wanted(
                only,
                layers[p][k].block_id,
            ) && out[i] == placed(uv_table, p, layers[p][k]) by {
            if i < m {
                assert(mesh::covers(rest[i], face, x, y, z));
                assert(short[p] == layers[p]);
                let k = choose|k: int|
                    0 <= k < short[p].len() && #[trigger] in_quad(short[p][k], u, v) && wanted(
                        only,
                        short[p][k].block_id,
                    ) && rest[i] == placed(uv_table, p, short[p][k]);
                assert(in_quad(layers[p][k], u, v));
            } else {
                assert(mesh::covers(new[i - m], face, x, y, z));
                let k = choose|k: int|
                    0 <= k < layers.last().len() && #[trigger] in_quad(layers.last()[k], u, v)
                        && wanted(only, layers.last()[k].block_id) && new[i - m] == placed(
                        uv_table,
                        n,
                        layers.last()[k],
                    );
                assert(in_quad(layers[p][k], u, v));
            }
        }
        if p < layers.len() {
            assert forall|k: int|
                0 <= k < layers[p].len() && #[trigger] in_quad(layers[p][k], u, v) && wanted(
                    only,
                    layers[p][k].block_id,
                ) implies exists|i: int|
                0 <= i < out.len() && mesh::covers(#[trigger] out[i], face, x, y, z) by {
                if p < n {
                    assert(short[p] == layers[p]);
                    assert(in_quad(short[p][k], u, v));
                    let i = choose|i: int|
                        0 <= i < rest.len() && mesh::covers(#[trigger] rest[i], face, x, y, z);
                    assert(mesh::covers(out[i], face, x, y, z));
                } else {
                    assert(in_quad(layers.last()[k], u, v));
                    let i = choose|i: int|
                        0 <= i < new.len() && mesh::covers(#[trigger] new[i], face, x, y, z);
                    assert(out[i + m] == new[i]);
                    assert(mesh::covers(out[i + m], face, x, y, z));
                }
            }
        }
        assert forall|i: int, j: int|
            0 <= i < out.len() && 0 <= j < out.len() && mesh::covers(
                #[trigger] out[i],
                face,
                x,
                y,
                z,
            ) && mesh::covers(#[trigger] out[j], face, x, y, z) implies i == j by {
            if i < m {
                assert(mesh::covers(rest[i], face, x, y, z));
                assert(mesh::covers(rest[j], face, x, y, z));
            } else {
                assert(mesh::covers(new[i - m], face, x, y, z));
                assert(mesh::covers(new[j - m], face, x, y, z));
            }
        }
    }
}

/// A merged mesh shows just what can be seen of a chunk. A quad reaches over face `f` of a
/// block if and only if the block is not air, is of a kind to be drawn, and the block
/// across the face is of another kind; then it is one quad alone and has the texture of
/// that face of the block.
pub proof fn law_merged_mesh_shows_what_is_seen<T: Copy>(
    chunk: ChunkData,
    neighbors: ChunkNeighbors,
    uv_table: UvLookupTable<T>,
    layers: Seq<Seq<LayerQuad>>,
    only: Option<BlockId>,
    x: int,
    y: int,
    z: int,
    f: int,
)
    requires
        layers.len() == 192,
        greedy_layers(chunk, neighbors, layers),
        0 <= x < 32,
        0 <= y < 32,
        0 <= z < 32,
        0 <= f < 6,
    ensures
        ({
            let quads = placed_layers(uv_table, layers, only);
            let face = face::spec_face(f);
            let n = face.spec_normal();
            let id = chunk.block_at(x, y, z);
            let other = chunk::across(chunk, neighbors, x + n[0], y + n[1], z + n[2], f);
            &&& (exists|i: int|
                0 <= i < quads.len() && mesh::covers(#[trigger] quads[i], face, x, y, z)) <==> id != 0
                && other != id && (only is None || only == Some(id))
            &&& forall|i: int|
                0 <= i < quads.len() && mesh::covers(#[trigger] quads[i], face, x, y, z)
                    ==> quads[i].uv == uv_table.uv(id as int, face.spec_face_index())
            &&& forall|i: int, j: int|
                0 <= i < quads.len() && 0 <= j < quads.len() && mesh::covers(
                    #[trigger] quads[i],
                    face,
                    x,
                    y,
                    z,
                ) && mesh::covers(#[trigger] quads[j], face, x, y, z) ==> i == j
        }),
{
    let quads = placed_layers(uv_table, layers, only);
    let face = face::spec_face(f);
    let n = face.spec_normal();
    let id = chunk.block_at(x, y, z);
    let other = chunk::across(chunk, neighbors, x + n[0], y + n[1], z + n[2], f);
    let (layer, u, v) = cell_of(f, x, y, z);
    let p = f * 32 + layer;
    assert(p / 32 == f && p % 32 == layer);
    let mask = layer_mask(chunk, neighbors, f, layer);
    assert forall|q: int| 0 <= q < layers.len() implies apart(#[trigger] layers[q]) by {
        let m = layer_mask(chunk, neighbors, q / 32, q % 32);
        assert forall|i: int, j: int, a: int, b: int|
            0 <= i < layers[q].len() && 0 <= j < layers[q].len() && #[trigger] in_quad(
                layers[q][i],
                a,
                b,
            ) && #[trigger] in_quad(layers[q][j], a, b) implies i == j by {
            law_quads_disjoint(m, layers[q], i, j, a, b);
        }
    }
    lemma_layers_cover(uv_table, layers, only, f, x, y, z);
    assert(greedy_layer(mask, layers[p]));
    law_quads_show_mask(mask, layers[p], u, v);
    let c = v * 32 + u;
    assert(c % 32 == u && c / 32 == v);
    assert(at(mask, u, v) == cell_face(chunk, neighbors, f, layer, u, v));
    let seen = id != 0 && other != id;
    assert(at(mask, u, v) == if seen {
        Some(id)
    } else {
        None
    });
    if seen && wanted(only, id) {
        let k = choose|k: int|
            0 <= k < layers[p].len() && in_quad(#[trigger] layers[p][k], u, v);
        assert(in_quad(layers[p][k], u, v));
    }
    assert forall|i: int|
        0 <= i < quads.len() && mesh::covers(#[trigger] quads[i], face, x, y, z) implies seen
        && wanted(only, id) && quads[i].uv == uv_table.uv(id as int, face.spec_face_index()) by {
        let k = choose|k: int|
            0 <= k < layers[p].len() && #[trigger] in_quad(layers[p][k], u, v) && wanted(
                only,
                layers[p][k].block_id,
            ) && quads[i] == placed(uv_table, p, layers[p][k]);
        assert(in_quad(layers[p][k], u, v));
        assert(at(mask, u, v) == Some(layers[p][k].block_id));
    }
}

/// Every quad of a merged mesh lies in the chunk, and is one block thick in the direction
/// in which it looks.
pub proof fn law_merged_mesh_stays_in_chunk<T: Copy>(
    chunk: ChunkData,
    neighbors: ChunkNeighbors,
    uv_table: UvLookupTable<T>,
    layers: Seq<Seq<LayerQuad>>,
    only: Option<BlockId>,
    i: int,
)
    requires
        layers.len() == 192,
        greedy_layers(chunk, neighbors, layers),
        0 <= i < placed_layers(uv_table, layers, only).len(),
    ensures
        inside(placed_layers(uv_table, layers, only)[i]),
{
    lemma_layers_inside(chunk, neighbors, uv_table, layers, only, i);
}

/// A quad lies in the chunk, shows at least one face, and is one block thick in the
/// direction in which it looks.
pub open spec fn inside<T>(q: Quad<T>) -> bool {
    let n = q.face.spec_normal();
    &&& 0 <= q.origin.0 < q.origin.0 + q.extent.0 <= 32
    &&& 0 <= q.origin.1 < q.origin.1 + q.extent.1 <= 32
    &&& 0 <= q.origin.2 < q.origin.2 + q.extent.2 <= 32
    &&& n[0] != 0 ==> q.extent.0 == 1
    &&& n[1] != 0 ==> q.extent.1 == 1
    &&& n[2] != 0 ==> q.extent.2 == 1
}

/// The quads of some layers lie in the chunk.
proof fn lemma_layers_inside<T: Copy>(
    chunk: ChunkData,
    neighbors: ChunkNeighbors,
    uv_table: UvLookupTable<T>,
    layers: Seq<Seq<LayerQuad>>,
    only: Option<BlockId>,
    i: int,
)
    requires
        layers.len() <= 192,
        greedy_layers(chunk, neighbors, layers),
        0 <= i < placed_layers(uv_table, layers, only).len(),
    ensures
        inside(placed_layers(uv_table, layers, only)[i]),
    decreases layers.len(),
{
    if layers.len() > 0 {
        let short = layers.drop_last();
        let n = layers.len() - 1;
        let rest = placed_layers(uv_table, short, only);
        if i < rest.len() {
            assert(greedy_layers(chunk, neighbors, short)) by {
                assert forall|p: int| 0 <= p < short.len() implies greedy_layer(
                    layer_mask(chunk, neighbors, p / 32, p % 32),
                    #[trigger] short[p],
                ) by {
                    assert(short[p] == layers[p]);
                }
            }
            lemma_layers_inside(chunk, neighbors, uv_table, short, only, i);
        } else {
            assert(layers[n] == layers.last());
            let mask = layer_mask(chunk, neighbors, n / 32, n % 32);
            assert(greedy_layer(mask, layers.last()));
            assert forall|k: int| 0 <= k < layers.last().len() implies (
            #[trigger] layers.last()[k]).width >= 1 && layers.last()[k].height >= 1
                && layers.last()[k].u + layers.last()[k].width <= 32 && layers.last()[k].v
                + layers.last()[k].height <= 32 by {
                assert(greedy_quad(mask, layers.last(), k));
            }
            lemma_layer_inside(uv_table, n, layers.last(), only, i - rest.len());
        }
    }
}

/// The quads of a layer lie in the chunk.
proof fn lemma_layer_inside<T: Copy>(
    uv_table: UvLookupTable<T>,
    p: int,
    quads: Seq<LayerQuad>,
    only: Option<BlockId>,
    i: int,
)
    requires
        0 <= p < 192,
        forall|k: int|
            0 <= k < quads.len() ==> (#[trigger] quads[k]).width >= 1 && quads[k].height >= 1
                && quads[k].u + quads[k].width <= 32 && quads[k].v + quads[k].height <= 32,
        0 <= i < placed_layer(uv_table, p, quads, only).len(),
    ensures
        inside(placed_layer(uv_table, p, quads, only)[i]),
    decreases quads.len(),
{
    if quads.len() > 0 {
        let short = quads.drop_last();
        let rest = placed_layer(uv_table, p, short, only);
        assert forall|k: int| 0 <= k < short.len() implies #[trigger] short[k] == quads[k] by {}
        if i < rest.len() {
            lemma_layer_inside(uv_table, p, short, only, i);
        } else {
            assert(quads[quads.len() - 1] == quads.last());
        }
    }
}

} // verus!
