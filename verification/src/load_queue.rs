//! The queue of chunks to load: the columns round the player, nearest first,
//! scanned over several frames.

use crate::coord_map::CoordMap;
use crate::types::ChunkCoord;
use vstd::prelude::*;

verus! {

/// How far round the player chunks are looked for.
pub const DETECTION_RADIUS: i32 = 16;

/// How many layers of chunks above and below the player are loaded.
pub const Y_LOAD_RADIUS: i32 = 5;

/// How many chunks are looked at in one frame.
pub const QUEUE_BUILD_STEPS_PER_FRAME: usize = 2000;

/// A column relative to the player, with its squared distance.
pub type OffsetEntry = (i32, i32, i32);

/// The column lies within the radius, and its distance is right.
pub open spec fn is_offset(e: OffsetEntry) -> bool {
    &&& e.0 * e.0 + e.1 * e.1 == e.2
    &&& e.2 <= 256
    &&& -16 <= e.0 <= 16
    &&& -16 <= e.1 <= 16
}

/// The list holds every column within the radius once, nearest first.
pub open spec fn is_offset_table(t: Seq<OffsetEntry>) -> bool {
    &&& forall|i: int| 0 <= i < t.len() ==> is_offset(#[trigger] t[i])
    &&& forall|i: int, j: int| 0 <= i < j < t.len() ==> (#[trigger] t[i]).2 <= (#[trigger] t[j]).2
    &&& t.no_duplicates()
    &&& forall|e: OffsetEntry| is_offset(e) ==> #[trigger] t.contains(e)
}

/// The columns within the radius, nearest first.
pub fn get_offset_table() -> (r: Vec<OffsetEntry>)
    ensures
        is_offset_table(r@),
{
    let mut out: Vec<OffsetEntry> = Vec::new();
    let mut d: i32 = 0;
    proof {
        assert forall|e: OffsetEntry| is_offset(e) implies e.2 >= 0 by {
            let (x, z) = (e.0 as int, e.1 as int);
            assert(x * x >= 0 && z * z >= 0) by (nonlinear_arith);
        }
    }
    while d <= 256
        invariant
            0 <= d <= 257,
            forall|i: int| 0 <= i < out@.len() ==> is_offset(#[trigger] out@[i]),
            forall|i: int| 0 <= i < out@.len() ==> (#[trigger] out@[i]).2 < d,
            forall|i: int, j: int|
                0 <= i < j < out@.len() ==> (#[trigger] out@[i]).2 <= (#[trigger] out@[j]).2,
            out@.no_duplicates(),
            forall|e: OffsetEntry| is_offset(e) && e.2 < d ==> #[trigger] out@.contains(e),
        decreases 257 - d,
    {
        let mut k: i32 = 0;
        while k < 1089
            invariant
                0 <= d <= 256,
                0 <= k <= 1089,
                forall|i: int| 0 <= i < out@.len() ==> is_offset(#[trigger] out@[i]),
                forall|i: int| 0 <= i < out@.len() ==> (#[trigger] out@[i]).2 <= d,
                forall|i: int|
                    0 <= i < out@.len() && (#[trigger] out@[i]).2 == d ==> (out@[i].0 + 16) * 33 + (
                    out@[i].1 + 16) < k,
                forall|i: int, j: int|
                    0 <= i < j < out@.len() ==> (#[trigger] out@[i]).2 <= (#[trigger] out@[j]).2,
                out@.no_duplicates(),
                forall|e: OffsetEntry|
                    is_offset(e) && (e.2 < d || (e.2 == d && (e.0 + 16) * 33 + (e.1 + 16) < k))
                        ==> #[trigger] out@.contains(e),
            decreases 1089 - k,
        {
            let dx: i32 = k / 33 - 16;
            let dz: i32 = k % 33 - 16;
            proof {
                assert(0 <= dx * dx <= 256 && 0 <= dz * dz <= 256) by (nonlinear_arith)
                    requires
                        -16 <= dx <= 16,
                        -16 <= dz <= 16,
                ;
            }
            let ghost before = out@;
            if dx * dx + dz * dz == d {
                let e: OffsetEntry = (dx, dz, d);
                out.push(e);
                proof {
                    assert forall|i: int, j: int|
                        0 <= i < out@.len() && 0 <= j < out@.len() && i != j implies out@[i]
                        != out@[j] by {
                        if i < before.len() && j < before.len() {
                            assert(before[i] != before[j]);
                        }
                    }
                }
            }
            proof {
                assert forall|e: OffsetEntry|
                    is_offset(e) && (e.2 < d || (e.2 == d && (e.0 + 16) * 33 + (e.1 + 16) < k + 1))
                        implies #[trigger] out@.contains(e) by {
                    if e.2 == d && (e.0 + 16) * 33 + (e.1 + 16) == k {
                        assert(e.0 == dx && e.1 == dz);
                        assert(out@[before.len() as int] == e);
                    } else {
                        assert(before.contains(e));
                        let i = choose|i: int| 0 <= i < before.len() && before[i] == e;
                        assert(out@[i] == e);
                    }
                }
            }
            k = k + 1;
        }
        d = d + 1;
    }
    out
}

/// Where the scan for chunks to load stands.
pub struct LoadQueueBuildState {
    pub center: ChunkCoord,
    /// The next column.
    pub offset_idx: usize,
    /// The next layer of that column.
    pub cy: i32,
    /// The lowest layer.
    pub cy_min: i32,
    /// The highest layer.
    pub cy_max: i32,
    /// The chunks found so far that are not loaded.
    pub missing: Vec<ChunkCoord>,
}

impl LoadQueueBuildState {
    /// How many chunks have been looked at.
    pub open spec fn position(self) -> int {
        self.offset_idx * 11 + (self.cy - self.cy_min)
    }

    /// A scan round a chunk that is about to begin.
    fn new(center: ChunkCoord) -> (r: Self)
        requires
            scan_fits(center),
        ensures
            state_wf(Some(r)),
            r.center == center,
            r.position() == 0,
            r.missing@ == Seq::<ChunkCoord>::empty(),
    {
        LoadQueueBuildState {
            center,
            offset_idx: 0,
            cy: center.cy - Y_LOAD_RADIUS,
            cy_min: center.cy - Y_LOAD_RADIUS,
            cy_max: center.cy + Y_LOAD_RADIUS,
            missing: Vec::new(),
        }
    }
}

/// The column and the layers round a chunk have 32-bit coordinates.
pub open spec fn scan_fits(center: ChunkCoord) -> bool {
    &&& i32::MIN <= center.cx - 16 && center.cx + 16 <= i32::MAX
    &&& i32::MIN <= center.cz - 16 && center.cz + 16 <= i32::MAX
    &&& i32::MIN <= center.cy - 5 && center.cy + 5 < i32::MAX
}

/// Layer `n` of a column, counted from the lowest.
pub open spec fn column_chunk(center: ChunkCoord, e: OffsetEntry, n: int) -> ChunkCoord {
    ChunkCoord {
        cx: (center.cx + e.0) as i32,
        cy: (center.cy - 5 + n) as i32,
        cz: (center.cz + e.1) as i32,
    }
}

/// The chunk that a scan looks at after `p` others: the columns in turn, each from
/// its lowest layer up.
pub open spec fn scan_chunk(center: ChunkCoord, offsets: Seq<OffsetEntry>, p: int) -> ChunkCoord {
    column_chunk(center, offsets[p / 11], p % 11)
}

/// How many chunks a whole scan looks at.
pub open spec fn scan_len(offsets: Seq<OffsetEntry>) -> int {
    offsets.len() as int * 11
}

/// Where a scan of `steps` chunks ends that goes on from `from`.
pub open spec fn scan_end(offsets: Seq<OffsetEntry>, from: int, steps: int) -> int {
    if from >= scan_len(offsets) {
        from
    } else if from + steps <= scan_len(offsets) {
        from + steps
    } else {
        scan_len(offsets)
    }
}

/// What a scan finds from `from` up to `to`: the chunks that are not loaded.
pub open spec fn scan_missing(
    loaded: Set<ChunkCoord>,
    center: ChunkCoord,
    offsets: Seq<OffsetEntry>,
    from: int,
    to: int,
) -> Seq<ChunkCoord>
    decreases to - from,
{
    if to <= from {
        seq![]
    } else {
        let before = scan_missing(loaded, center, offsets, from, to - 1);
        let c = scan_chunk(center, offsets, to - 1);
        if loaded.contains(c) {
            before
        } else {
            before.push(c)
        }
    }
}

/// What a whole scan finds.
pub open spec fn all_missing(
    loaded: Set<ChunkCoord>,
    center: ChunkCoord,
    offsets: Seq<OffsetEntry>,
) -> Seq<ChunkCoord> {
    scan_missing(loaded, center, offsets, 0, scan_len(offsets))
}

/// Where a scan round `center` goes on, and what it found so far.
pub open spec fn resumed(state: Option<LoadQueueBuildState>, center: ChunkCoord) -> (
    int,
    Seq<ChunkCoord>,
) {
    match state {
        Some(s) if s.center == center => (s.position(), s.missing@),
        _ => (0, seq![]),
    }
}

/// What a scan round `center` found so far is what is missing up to where it goes
/// on: so it is when no chunk has come or gone since it began.
pub open spec fn up_to_date(
    state: Option<LoadQueueBuildState>,
    loaded: Set<ChunkCoord>,
    center: ChunkCoord,
    offsets: Seq<OffsetEntry>,
) -> bool {
    let (from, found) = resumed(state, center);
    from <= scan_len(offsets) && found == scan_missing(loaded, center, offsets, 0, from)
}

/// A state is consistent: its layers are those round its centre.
pub open spec fn state_wf(state: Option<LoadQueueBuildState>) -> bool {
    match state {
        Some(s) => s.cy_min == s.center.cy - 5 && s.cy_max == s.center.cy + 5 && s.cy_min <= s.cy
            <= s.cy_max,
        None => true,
    }
}

/// The chunks of a queue.
pub open spec fn queue_view(queue: Option<Vec<ChunkCoord>>) -> Option<Seq<ChunkCoord>> {
    match queue {
        Some(q) => Some(q@),
        None => None,
    }
}

/// A scan round `center` has gone on for `steps` chunks. It ends with the queue
/// once all layers of all columns have been looked at.
pub open spec fn scan_step(
    pre: Option<LoadQueueBuildState>,
    post: Option<LoadQueueBuildState>,
    queue: Option<Seq<ChunkCoord>>,
    loaded: Set<ChunkCoord>,
    center: ChunkCoord,
    offsets: Seq<OffsetEntry>,
    steps: int,
) -> bool {
    let (from, found) = resumed(pre, center);
    let end = scan_end(offsets, from, steps);
    let missing = found + scan_missing(loaded, center, offsets, from, end);
    if end >= scan_len(offsets) {
        &&& queue == Some(missing)
        &&& post is None
    } else {
        &&& queue is None
        &&& post matches Some(s) && s.center == center && s.position() == end && s.missing@
            == missing
    }
}

/// What has been found from one place to a second and from there to a third.
proof fn lemma_scan_joins(
    loaded: Set<ChunkCoord>,
    center: ChunkCoord,
    offsets: Seq<OffsetEntry>,
    a: int,
    b: int,
    c: int,
)
    requires
        a <= b <= c,
    ensures
        scan_missing(loaded, center, offsets, a, b) + scan_missing(loaded, center, offsets, b, c)
            == scan_missing(loaded, center, offsets, a, c),
    decreases c - b,
{
    let left = scan_missing(loaded, center, offsets, a, b);
    if b < c {
        lemma_scan_joins(loaded, center, offsets, a, b, c - 1);
        assert(left + scan_missing(loaded, center, offsets, b, c) =~= scan_missing(
            loaded,
            center,
            offsets,
            a,
            c,
        ));
    } else {
        assert(left + scan_missing(loaded, center, offsets, b, c) =~= left);
    }
}

/// Goes on with the scan round `center`, or starts anew if the centre has
/// moved. Looks at `steps_limit` chunks at most. Returns the queue once all
/// layers of all columns have been looked at.
pub fn rebuild_load_queue<V>(
    center: ChunkCoord,
    entries: &CoordMap<V>,
    state: &mut Option<LoadQueueBuildState>,
    steps_limit: usize,
    offsets: &Vec<OffsetEntry>,
) -> (r: Option<Vec<ChunkCoord>>)
    requires
        scan_fits(center),
        state_wf(*old(state)),
        is_offset_table(offsets@),
    ensures
        state_wf(*final(state)),
        scan_step(
            *old(state),
            *final(state),
            queue_view(r),
            entries@.dom(),
            center,
            offsets@,
            steps_limit as int,
        ),
        up_to_date(*old(state), entries@.dom(), center, offsets@) ==> {
            &&& r matches Some(queue) ==> queue@ == all_missing(entries@.dom(), center, offsets@)
            &&& up_to_date(*final(state), entries@.dom(), center, offsets@)
        },
{
    let taken: Option<LoadQueueBuildState> = state.take();
    let mut s: LoadQueueBuildState = match taken {
        Some(old_state) => if old_state.center == center {
            old_state
        } else {
            LoadQueueBuildState::new(center)
        },
        None => LoadQueueBuildState::new(center),
    };
    let ghost (first, found) = resumed(*old(state), center);
    let ghost loaded = entries@.dom();
    let ghost total = scan_len(offsets@);
    let mut steps_done: usize = 0;
    assert(s.missing@ =~= found + scan_missing(loaded, center, offsets@, first, first));
    while s.offset_idx < offsets.len() && steps_done < steps_limit
        invariant
            scan_fits(center),
            is_offset_table(offsets@),
            loaded == entries@.dom(),
            total == offsets@.len() * 11,
            steps_done <= steps_limit,
            s.center == center,
            state_wf(Some(s)),
            s.position() == first + steps_done,
            first < total ==> s.position() <= total,
            first >= total ==> steps_done == 0,
            s.missing@ =~= found + scan_missing(
                loaded,
                center,
                offsets@,
                first,
                first + steps_done,
            ),
        decreases steps_limit - steps_done,
    {
        let (dx, dz, _dist) = offsets[s.offset_idx];
        let ghost p = s.position();
        assert(is_offset(offsets@[s.offset_idx as int]));
        assert(p / 11 == s.offset_idx && p % 11 == s.cy - s.cy_min);
        let coord: ChunkCoord = ChunkCoord { cx: center.cx + dx, cy: s.cy, cz: center.cz + dz };
        assert(coord == scan_chunk(center, offsets@, p));
        if !entries.contains_key(&coord) {
            s.missing.push(coord);
        }
        if s.cy < s.cy_max {
            s.cy = s.cy + 1;
        } else {
            s.cy = s.cy_min;
            s.offset_idx = s.offset_idx + 1;
        }
        steps_done = steps_done + 1;
    }
    let ghost end = s.position();
    proof {
        assert(end == scan_end(offsets@, first, steps_limit as int));
        assert(s.missing@ == found + scan_missing(loaded, center, offsets@, first, end));
        if up_to_date(*old(state), loaded, center, offsets@) {
            lemma_scan_joins(loaded, center, offsets@, 0, first, end);
        }
    }
    if s.offset_idx >= offsets.len() {
        let queue: Vec<ChunkCoord> = s.missing;
        *state = None;
        Some(queue)
    } else {
        *state = Some(s);
        None
    }
}

/// The squared horizontal distance of a chunk.
pub open spec fn horizontal_sq(center: ChunkCoord, c: ChunkCoord) -> int {
    (c.cx - center.cx) * (c.cx - center.cx) + (c.cz - center.cz) * (c.cz - center.cz)
}

/// A chunk lies in one of the columns within the radius and in one of the layers
/// that are loaded.
pub open spec fn within_reach(center: ChunkCoord, c: ChunkCoord) -> bool {
    horizontal_sq(center, c) <= 256 && -5 <= c.cy - center.cy <= 5
}

/// The chunk that a scan looks at lies in its column and its layer.
proof fn lemma_scan_chunk(center: ChunkCoord, offsets: Seq<OffsetEntry>, p: int)
    requires
        scan_fits(center),
        is_offset_table(offsets),
        0 <= p < scan_len(offsets),
    ensures
        ({
            let c = scan_chunk(center, offsets, p);
            &&& c.cx - center.cx == offsets[p / 11].0
            &&& c.cz - center.cz == offsets[p / 11].1
            &&& c.cy - center.cy == p % 11 - 5
            &&& horizontal_sq(center, c) == offsets[p / 11].2
            &&& within_reach(center, c)
        }),
{
    assert(0 <= p / 11 < offsets.len());
    assert(is_offset(offsets[p / 11]));
}

/// Each chunk that a scan found was looked at at some place, and those found later
/// were looked at later.
proof fn lemma_found_at(
    loaded: Set<ChunkCoord>,
    center: ChunkCoord,
    offsets: Seq<OffsetEntry>,
    from: int,
    to: int,
    i: int,
    j: int,
) -> (r: (int, int))
    requires
        0 <= i <= j < scan_missing(loaded, center, offsets, from, to).len(),
    ensures
        from <= r.0 <= r.1 < to,
        i < j ==> r.0 < r.1,
        scan_missing(loaded, center, offsets, from, to)[i] == scan_chunk(center, offsets, r.0),
        scan_missing(loaded, center, offsets, from, to)[j] == scan_chunk(center, offsets, r.1),
        !loaded.contains(scan_chunk(center, offsets, r.0)),
        !loaded.contains(scan_chunk(center, offsets, r.1)),
    decreases to - from,
{
    let before = scan_missing(loaded, center, offsets, from, to - 1);
    if j < before.len() {
        lemma_found_at(loaded, center, offsets, from, to - 1, i, j)
    } else if i < before.len() {
        let r = lemma_found_at(loaded, center, offsets, from, to - 1, i, i);
        (r.0, to - 1)
    } else {
        (to - 1, to - 1)
    }
}

/// What a scan finds goes from near to far, and nothing of it is loaded.
pub proof fn law_nearest_first(
    loaded: Set<ChunkCoord>,
    center: ChunkCoord,
    offsets: Seq<OffsetEntry>,
    from: int,
    to: int,
    i: int,
    j: int,
)
    requires
        scan_fits(center),
        is_offset_table(offsets),
        0 <= from,
        to <= scan_len(offsets),
        0 <= i <= j < scan_missing(loaded, center, offsets, from, to).len(),
    ensures
        ({
            let q = scan_missing(loaded, center, offsets, from, to);
            &&& horizontal_sq(center, q[i]) <= horizontal_sq(center, q[j])
            &&& !loaded.contains(q[i])
        }),
{
    let (a, b) = lemma_found_at(loaded, center, offsets, from, to, i, j);
    lemma_scan_chunk(center, offsets, a);
    lemma_scan_chunk(center, offsets, b);
    if a / 11 < b / 11 {
        assert(offsets[a / 11].2 <= offsets[b / 11].2);
    } else {
        assert(a / 11 == b / 11);
    }
}

/// A scan finds every chunk that it looks at and that is not loaded.
pub proof fn law_whole_columns_found(
    loaded: Set<ChunkCoord>,
    center: ChunkCoord,
    offsets: Seq<OffsetEntry>,
    from: int,
    to: int,
    p: int,
)
    requires
        from <= p < to,
        !loaded.contains(scan_chunk(center, offsets, p)),
    ensures
        scan_missing(loaded, center, offsets, from, to).contains(scan_chunk(center, offsets, p)),
    decreases to - from,
{
    let all = scan_missing(loaded, center, offsets, from, to);
    let before = scan_missing(loaded, center, offsets, from, to - 1);
    let c = scan_chunk(center, offsets, p);
    if p < to - 1 {
        law_whole_columns_found(loaded, center, offsets, from, to - 1, p);
        let k = choose|k: int| 0 <= k < before.len() && before[k] == c;
        assert(all[k] == c);
    } else {
        assert(all[before.len() as int] == c);
    }
}

/// A whole scan finds exactly the chunks within reach that are not loaded, each
/// once, and the nearest columns first.
pub proof fn law_queue_is_complete(
    loaded: Set<ChunkCoord>,
    center: ChunkCoord,
    offsets: Seq<OffsetEntry>,
)
    requires
        scan_fits(center),
        is_offset_table(offsets),
    ensures
        ({
            let q = all_missing(loaded, center, offsets);
            &&& forall|c: ChunkCoord| #[trigger]
                q.contains(c) <==> within_reach(center, c) && !loaded.contains(c)
            &&& q.no_duplicates()
            &&& forall|i: int, j: int|
                0 <= i <= j < q.len() ==> horizontal_sq(center, #[trigger] q[i]) <= horizontal_sq(
                    center,
                    #[trigger] q[j],
                )
        }),
{
    let q = all_missing(loaded, center, offsets);
    let len = scan_len(offsets);
    assert forall|c: ChunkCoord| #[trigger]
        q.contains(c) <==> within_reach(center, c) && !loaded.contains(c) by {
        if q.contains(c) {
            let k = choose|k: int| 0 <= k < q.len() && q[k] == c;
            let (p, _) = lemma_found_at(loaded, center, offsets, 0, len, k, k);
            lemma_scan_chunk(center, offsets, p);
        }
        if within_reach(center, c) && !loaded.contains(c) {
            let (dx, dz) = (c.cx - center.cx, c.cz - center.cz);
            assert(-16 <= dx <= 16 && -16 <= dz <= 16) by (nonlinear_arith)
                requires
                    dx * dx + dz * dz <= 256,
            ;
            assert(0 <= dx * dx && 0 <= dz * dz) by (nonlinear_arith);
            let e: OffsetEntry = (dx as i32, dz as i32, (dx * dx + dz * dz) as i32);
            assert(is_offset(e));
            assert(offsets.contains(e));
            let i = choose|i: int| 0 <= i < offsets.len() && offsets[i] == e;
            let p = i * 11 + (c.cy - center.cy + 5);
            assert(p / 11 == i && p % 11 == c.cy - center.cy + 5);
            assert(scan_chunk(center, offsets, p) == c);
            law_whole_columns_found(loaded, center, offsets, 0, len, p);
        }
    }
    assert forall|i: int, j: int| 0 <= i < j < q.len() implies q[i] != q[j] by {
        let (a, b) = lemma_found_at(loaded, center, offsets, 0, len, i, j);
        lemma_scan_chunk(center, offsets, a);
        lemma_scan_chunk(center, offsets, b);
        if q[i] == q[j] {
            assert(offsets[a / 11] == offsets[b / 11]);
            assert(a / 11 == b / 11);
        }
    }
    assert forall|i: int, j: int| 0 <= i <= j < q.len() implies horizontal_sq(
        center,
        #[trigger] q[i],
    ) <= horizontal_sq(center, #[trigger] q[j]) by {
        law_nearest_first(loaded, center, offsets, 0, len, i, j);
    }
}

/// Scans that go on with one another, while no chunk comes or goes, end with the
/// whole queue, whatever number of chunks each looks at: none of them returns
/// another queue, and as long as there is none, each has looked at one chunk more
/// at least.
pub proof fn law_repeated_scans_end(
    states: Seq<Option<LoadQueueBuildState>>,
    queues: Seq<Option<Seq<ChunkCoord>>>,
    steps: Seq<int>,
    loaded: Set<ChunkCoord>,
    center: ChunkCoord,
    offsets: Seq<OffsetEntry>,
    n: int,
)
    requires
        scan_fits(center),
        is_offset_table(offsets),
        states.len() == queues.len() + 1,
        steps.len() == queues.len(),
        0 <= n < queues.len(),
        states[0] is None,
        forall|i: int|
            0 <= i < queues.len() ==> #[trigger] steps[i] >= 1 && scan_step(
                states[i],
                states[i + 1],
                queues[i],
                loaded,
                center,
                offsets,
                steps[i],
            ),
        forall|i: int| 0 <= i < n ==> #[trigger] queues[i] is None,
    ensures
        queues[n] matches Some(q) ==> q == all_missing(loaded, center, offsets),
        n + 1 >= scan_len(offsets) ==> queues[n] is Some,
        queues[n] is None ==> resumed(states[n + 1], center).0 >= n + 1 && up_to_date(
            states[n + 1],
            loaded,
            center,
            offsets,
        ),
    decreases n,
{
    if n > 0 {
        law_repeated_scans_end(states, queues, steps, loaded, center, offsets, n - 1);
        assert(queues[n - 1] is None);
    }
    assert(steps[n] >= 1);
    let (from, found) = resumed(states[n], center);
    let end = scan_end(offsets, from, steps[n]);
    assert(scan_missing(loaded, center, offsets, 0, 0) =~= seq![]);
    lemma_scan_joins(loaded, center, offsets, 0, from, end);
}

/// Of two chunks of one column a scan finds the lower one first.
pub proof fn law_columns_from_below(
    loaded: Set<ChunkCoord>,
    center: ChunkCoord,
    offsets: Seq<OffsetEntry>,
    from: int,
    to: int,
    i: int,
    j: int,
)
    requires
        scan_fits(center),
        is_offset_table(offsets),
        0 <= from,
        to <= scan_len(offsets),
        0 <= i < j < scan_missing(loaded, center, offsets, from, to).len(),
        scan_missing(loaded, center, offsets, from, to)[i].cx == scan_missing(
            loaded,
            center,
            offsets,
            from,
            to,
        )[j].cx,
        scan_missing(loaded, center, offsets, from, to)[i].cz == scan_missing(
            loaded,
            center,
            offsets,
            from,
            to,
        )[j].cz,
    ensures
        scan_missing(loaded, center, offsets, from, to)[i].cy < scan_missing(
            loaded,
            center,
            offsets,
            from,
            to,
        )[j].cy,
{
    let (a, b) = lemma_found_at(loaded, center, offsets, from, to, i, j);
    lemma_scan_chunk(center, offsets, a);
    lemma_scan_chunk(center, offsets, b);
    let (p, q) = (offsets[a / 11], offsets[b / 11]);
    assert(is_offset(p) && is_offset(q));
    assert(p.0 == q.0 && p.1 == q.1);
    assert(p == q);
    assert(a / 11 == b / 11);
}

} // verus!
