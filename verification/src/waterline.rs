//! Tracing the waterline: where the ground rises through the water.
//!
//! The surface's height above the ground is sampled over each liquid grid, finer than the grid
//! itself, and its zero line followed through the samples. That line is the waterline by
//! construction, on a coast and a river bank alike.

use vstd::prelude::*;

use crate::contour::{contour, march, Sample, Segment};
use crate::geometry::{Vec2, Vec3};
use crate::liquid_mesh::{level_of, LiquidMesh};
use crate::scalar::{int_of, whole_number, Scalar};
use crate::shoreline::Shoreline;

verus! {

/// How finely the surface is sampled when tracing, as a multiple of the liquid grid.
pub const CONTOUR_SUB: u32 = 4;

/// Samples along a side with so many grid points.
pub open spec fn samples(points: int) -> int {
    CONTOUR_SUB * (points - 1) + 1
}

/// Whether a surface can be traced: it has cells, exactly one position for every grid point, and a
/// height among them.
pub open spec fn traceable<S: Scalar>(mesh: LiquidMesh<S>) -> bool {
    &&& mesh.has_cells()
    &&& mesh.positions@.len() == mesh.cols() * mesh.rows()
    &&& level_of(mesh.positions@) is Some
}

/// The height standing in for the points that have none.
pub open spec fn stand_in<S: Scalar>(mesh: LiquidMesh<S>) -> S {
    level_of(mesh.positions@)->0
}

/// The middle of a surface.
pub open spec fn middle_of<S: Scalar>(mesh: LiquidMesh<S>) -> Vec3<S> {
    mesh.point_at(
        stand_in(mesh),
        int_of::<S>(mesh.cols() - 1) * S::frac(1, 2),
        int_of::<S>(mesh.rows() - 1) * S::frac(1, 2),
    )
}

/// The surface at a sample.
pub open spec fn sample_point<S: Scalar>(mesh: LiquidMesh<S>, si: int, sj: int) -> Vec3<S> {
    mesh.point_at(
        stand_in(mesh),
        int_of::<S>(si) / int_of::<S>(CONTOUR_SUB as int),
        int_of::<S>(sj) / int_of::<S>(CONTOUR_SUB as int),
    )
}

/// How far the surface stands above ground at height `ground`, as a sample of the field to trace.
pub open spec fn depth_sample<S: Scalar>(p: Vec3<S>, ground: S) -> Sample<S> {
    Sample { at: Vec2 { x: p.x, y: p.y }, value: p.z - ground }
}

/// The waterline inside one square of samples; none where any of its corners has no ground.
pub open spec fn square_line<S: Scalar>(
    mesh: LiquidMesh<S>,
    ground: Seq<Seq<Option<S>>>,
    si: int,
    sj: int,
) -> Seq<Segment<S>> {
    match (ground[sj][si], ground[sj][si + 1], ground[sj + 1][si + 1], ground[sj + 1][si]) {
        (Some(a), Some(b), Some(c), Some(d)) => contour(
            depth_sample(sample_point(mesh, si, sj), a),
            depth_sample(sample_point(mesh, si + 1, sj), b),
            depth_sample(sample_point(mesh, si + 1, sj + 1), c),
            depth_sample(sample_point(mesh, si, sj + 1), d),
        ),
        _ => Seq::empty(),
    }
}

/// The waterline inside the first `n` squares of a row.
pub open spec fn row_line<S: Scalar>(
    mesh: LiquidMesh<S>,
    ground: Seq<Seq<Option<S>>>,
    sj: int,
    n: int,
) -> Seq<Segment<S>>
    decreases n,
{
    if n <= 0 {
        Seq::empty()
    } else {
        row_line(mesh, ground, sj, n - 1) + square_line(mesh, ground, n - 1, sj)
    }
}

/// The waterline inside the first `n` rows of squares.
pub open spec fn rows_line<S: Scalar>(
    mesh: LiquidMesh<S>,
    ground: Seq<Seq<Option<S>>>,
    n: int,
) -> Seq<Segment<S>>
    decreases n,
{
    if n <= 0 {
        Seq::empty()
    } else {
        rows_line(mesh, ground, n - 1) + row_line(
            mesh,
            ground,
            n - 1,
            samples(mesh.cols()) - 1,
        )
    }
}

/// Whether a survey has one answer for every sample of a surface.
pub open spec fn survey_fits<S: Scalar>(mesh: LiquidMesh<S>, ground: Seq<Seq<Option<S>>>) -> bool {
    &&& ground.len() == samples(mesh.rows())
    &&& forall|j: int| 0 <= j < ground.len() ==> (#[trigger] ground[j]).len() == samples(
        mesh.cols(),
    )
}

/// A surface's whole waterline over surveyed ground.
pub open spec fn waterline<S: Scalar>(mesh: LiquidMesh<S>, ground: Seq<Seq<Option<S>>>) -> Seq<
    Segment<S>,
> {
    rows_line(mesh, ground, samples(mesh.rows()) - 1)
}

/// Whether `own` is the first of `n` terrain chunks with ground under a point.
pub open spec fn first_under<S: Scalar, H: Fn(usize, Vec3<S>) -> Option<S>>(
    chunk_height: H,
    n: int,
    p: Vec3<S>,
    own: Option<usize>,
) -> bool {
    match own {
        Some(c) => {
            &&& c < n
            &&& forall|i: usize| i < c ==> #[trigger] call_ensures(chunk_height, (i, p), None)
            &&& exists|h: S| #[trigger] call_ensures(chunk_height, (c, p), Some(h))
        },
        None => forall|i: usize| i < n ==> #[trigger] call_ensures(chunk_height, (i, p), None),
    }
}

/// Whether `g` is the ground under a point: the surface's own chunk answers first, and the whole
/// terrain where it has no answer.
pub open spec fn grounded<
    S: Scalar,
    H: Fn(usize, Vec3<S>) -> Option<S>,
    T: Fn(Vec3<S>) -> Option<S>,
>(chunk_height: H, terrain: T, own: Option<usize>, p: Vec3<S>, g: Option<S>) -> bool {
    match own {
        Some(c) => {
            ||| g is Some && call_ensures(chunk_height, (c, p), g)
            ||| call_ensures(chunk_height, (c, p), None) && call_ensures(terrain, (p,), g)
        },
        None => call_ensures(terrain, (p,), g),
    }
}

/// Whether a survey is one of the ground under a surface's samples.
pub open spec fn surveyed<
    S: Scalar,
    H: Fn(usize, Vec3<S>) -> Option<S>,
    T: Fn(Vec3<S>) -> Option<S>,
>(
    mesh: LiquidMesh<S>,
    chunk_height: H,
    terrain: T,
    own: Option<usize>,
    ground: Seq<Seq<Option<S>>>,
) -> bool {
    &&& survey_fits(mesh, ground)
    &&& forall|i: int, j: int|
        #![trigger ground[j][i]]
        0 <= j < samples(mesh.rows()) && 0 <= i < samples(mesh.cols()) ==> grounded(
            chunk_height,
            terrain,
            own,
            sample_point(mesh, i, j),
            ground[j][i],
        )
}

/// Whether `line` is a surface's waterline over the terrain; a surface that cannot be traced has
/// none.
pub open spec fn traced<
    S: Scalar,
    H: Fn(usize, Vec3<S>) -> Option<S>,
    T: Fn(Vec3<S>) -> Option<S>,
>(mesh: LiquidMesh<S>, chunks: int, chunk_height: H, terrain: T, line: Seq<Segment<S>>) -> bool {
    if traceable(mesh) {
        exists|own: Option<usize>, ground: Seq<Seq<Option<S>>>|
            {
                &&& first_under(chunk_height, chunks, middle_of(mesh), own)
                &&& #[trigger] surveyed(mesh, chunk_height, terrain, own, ground)
                &&& line == waterline(mesh, ground)
            }
    } else {
        line == Seq::<Segment<S>>::empty()
    }
}

/// The first `n` of a run of lines, end to end.
pub open spec fn end_to_end<S: Scalar>(lines: Seq<Seq<Segment<S>>>, n: int) -> Seq<Segment<S>>
    decreases n,
{
    if n <= 0 {
        Seq::empty()
    } else {
        end_to_end(lines, n - 1) + lines[n - 1]
    }
}

/// Whether `lines` are the waterlines of the first `n` of a batch of surfaces.
pub open spec fn all_traced<
    S: Scalar,
    H: Fn(usize, Vec3<S>) -> Option<S>,
    T: Fn(Vec3<S>) -> Option<S>,
>(
    meshes: Seq<LiquidMesh<S>>,
    n: int,
    chunks: int,
    chunk_height: H,
    terrain: T,
    lines: Seq<Seq<Segment<S>>>,
) -> bool {
    &&& lines.len() == n
    &&& forall|k: int|
        0 <= k < n ==> traced(
            meshes[k],
            chunks,
            chunk_height,
            terrain,
            #[trigger] lines[k],
        )
}

/// Whether `r` is the shoreline of a batch of surfaces over a terrain: none without terrain or
/// without a waterline, and otherwise the surfaces' waterlines, filed.
pub open spec fn shoreline_traced<
    S: Scalar,
    H: Fn(usize, Vec3<S>) -> Option<S>,
    T: Fn(Vec3<S>) -> Option<S>,
>(
    meshes: Seq<LiquidMesh<S>>,
    chunks: int,
    chunk_height: H,
    terrain: T,
    r: Option<Shoreline<S>>,
) -> bool {
    if chunks == 0 {
        r is None
    } else {
        exists|lines: Seq<Seq<Segment<S>>>|
            {
                let raw = end_to_end(lines, lines.len() as int);
                &&& #[trigger] all_traced(
                    meshes,
                    meshes.len() as int,
                    chunks,
                    chunk_height,
                    terrain,
                    lines,
                )
                &&& r is None <==> raw.len() == 0
                &&& r matches Some(s) ==> s.wf() && s.files(raw)
            }
    }
}

/// Samples along a side with so many grid points.
fn sample_count(points: usize) -> (r: usize)
    requires
        1 <= points <= 0x4000_0000,
    ensures
        r == samples(points as int),
{
    CONTOUR_SUB as usize * (points - 1) + 1
}

/// The surface at a sample.
fn sample_at<S: Scalar>(mesh: &LiquidMesh<S>, level: S, si: usize, sj: usize) -> (r: Vec3<S>)
    requires
        mesh.countable(),
        traceable(*mesh),
        level == stand_in(*mesh),
        si <= u32::MAX,
        sj <= u32::MAX,
    ensures
        r == sample_point(*mesh, si as int, sj as int),
{
    let sub: S = whole_number(CONTOUR_SUB as i64);
    let u: S = whole_number(si as i64);
    let v: S = whole_number(sj as i64);
    mesh.surface_point(level, u.over(sub), v.over(sub))
}

/// Trace one surface's waterline over ground already surveyed, adding its pieces to `raw`.
///
/// A square with two sign changes carries one piece of the waterline; four is a saddle, where
/// either pairing is as defensible as the other at this scale. `ground` answers for every sample,
/// row by row, as [`survey_fits`] has it; a surface that cannot be traced has no waterline.
pub fn trace_waterline<S: Scalar>(
    mesh: &LiquidMesh<S>,
    ground: &Vec<Vec<Option<S>>>,
    raw: &mut Vec<Segment<S>>,
)
    requires
        mesh.countable(),
        traceable(*mesh) ==> survey_fits(*mesh, rows_of(ground@)),
    ensures
        final(raw)@ == if traceable(*mesh) {
            old(raw)@ + waterline(*mesh, rows_of(ground@))
        } else {
            old(raw)@
        },
{
    let level: S = match stand_in_for(mesh) {
        Some(level) => level,
        None => {
            return ;
        },
    };
    let ghost seen = rows_of(ground@);
    let sw: usize = sample_count(mesh.width());
    let sh: usize = sample_count(mesh.height());
    let ghost before = raw@;
    assert(before + Seq::<Segment<S>>::empty() =~= before);
    let mut sj: usize = 0;
    while sj < sh - 1
        invariant
            mesh.countable(),
            traceable(*mesh),
            level == stand_in(*mesh),
            seen == rows_of(ground@),
            survey_fits(*mesh, seen),
            sw == samples(mesh.cols()),
            sh == samples(mesh.rows()),
            sw <= u32::MAX,
            1 <= sh <= u32::MAX,
            sj <= sh - 1,
            raw@ == before + rows_line(*mesh, seen, sj as int),
        decreases sh - sj,
    {
        let ghost above = raw@;
        assert(above + Seq::<Segment<S>>::empty() =~= above);
        assert(seen[sj as int].len() == sw && seen[sj as int + 1].len() == sw);
        let mut si: usize = 0;
        while si < sw - 1
            invariant
                mesh.countable(),
                traceable(*mesh),
                level == stand_in(*mesh),
                seen == rows_of(ground@),
                seen.len() == sh,
                seen[sj as int].len() == sw,
                seen[sj as int + 1].len() == sw,
                1 <= sw <= u32::MAX,
                sh <= u32::MAX,
                sj + 1 < sh,
                si <= sw - 1,
                raw@ == above + row_line(*mesh, seen, sj as int, si as int),
            decreases sw - si,
        {
            let ghost so_far = raw@;
            assert(seen[sj as int] == ground@[sj as int]@);
            assert(seen[sj as int + 1] == ground@[sj as int + 1]@);
            match (ground[sj][si], ground[sj][si + 1], ground[sj + 1][si + 1], ground[sj + 1][si]) {
                (Some(a), Some(b), Some(c), Some(d)) => {
                    let p: Vec3<S> = sample_at(mesh, level, si, sj);
                    let q: Vec3<S> = sample_at(mesh, level, si + 1, sj);
                    let r: Vec3<S> = sample_at(mesh, level, si + 1, sj + 1);
                    let s: Vec3<S> = sample_at(mesh, level, si, sj + 1);
                    march(
                        above_ground(p, a),
                        above_ground(q, b),
                        above_ground(r, c),
                        above_ground(s, d),
                        raw,
                    );
                },
                _ => {},
            }
            assert(raw@ =~= so_far + square_line(*mesh, seen, si as int, sj as int));
            si = si + 1;
            assert(raw@ =~= above + row_line(*mesh, seen, sj as int, si as int));
        }
        sj = sj + 1;
        assert(raw@ =~= before + rows_line(*mesh, seen, sj as int));
    }
}

/// The rows of a survey.
pub open spec fn rows_of<S: Scalar>(ground: Seq<Vec<Option<S>>>) -> Seq<Seq<Option<S>>> {
    Seq::new(ground.len(), |j: int| ground[j]@)
}

/// How far the surface stands above the ground, as a sample of the field to trace.
fn above_ground<S: Scalar>(p: Vec3<S>, ground: S) -> (r: Sample<S>)
    ensures
        r == depth_sample(p, ground),
{
    Sample { at: Vec2 { x: p.x, y: p.y }, value: p.z.minus(ground) }
}

/// The height standing in for the points that have none, of a surface that can be traced.
fn stand_in_for<S: Scalar>(mesh: &LiquidMesh<S>) -> (r: Option<S>)
    requires
        mesh.countable(),
    ensures
        r is Some <==> traceable(*mesh),
        r matches Some(level) ==> level == stand_in(*mesh),
{
    let cols: usize = mesh.width();
    let rows: usize = mesh.height();
    if cols < 2 || rows < 2 {
        return None;
    }
    assert(cols * rows <= 0x4000_0000 * 0x4000_0000) by (nonlinear_arith)
        requires
            cols <= 0x4000_0000,
            rows <= 0x4000_0000,
    ;
    if mesh.positions.len() as u64 != cols as u64 * rows as u64 {
        return None;
    }
    mesh.level()
}

/// The first of the terrain's chunks with ground under a point.
fn own_chunk<S: Scalar, H: Fn(usize, Vec3<S>) -> Option<S>>(
    chunk_height: &H,
    chunks: usize,
    p: Vec3<S>,
) -> (r: Option<usize>)
    requires
        forall|i: usize, q: Vec3<S>| #[trigger] call_requires(*chunk_height, (i, q)),
    ensures
        first_under(*chunk_height, chunks as int, p, r),
{
    let mut c: usize = 0;
    while c < chunks
        invariant
            c <= chunks,
            forall|i: usize, q: Vec3<S>| #[trigger] call_requires(*chunk_height, (i, q)),
            forall|i: usize| i < c ==> #[trigger] call_ensures(*chunk_height, (i, p), None),
        decreases chunks - c,
    {
        match chunk_height(c, p) {
            Some(h) => {
                assert(call_ensures(*chunk_height, (c, p), Some(h)));
                return Some(c);
            },
            None => {},
        }
        c = c + 1;
    }
    None
}

/// Survey the ground under a surface's samples.
fn survey<S: Scalar, H: Fn(usize, Vec3<S>) -> Option<S>, T: Fn(Vec3<S>) -> Option<S>>(
    mesh: &LiquidMesh<S>,
    level: S,
    chunk_height: &H,
    terrain: &T,
    own: Option<usize>,
) -> (r: Vec<Vec<Option<S>>>)
    requires
        mesh.countable(),
        traceable(*mesh),
        level == stand_in(*mesh),
        forall|i: usize, q: Vec3<S>| #[trigger] call_requires(*chunk_height, (i, q)),
        forall|q: Vec3<S>| #[trigger] call_requires(*terrain, (q,)),
    ensures
        surveyed(*mesh, *chunk_height, *terrain, own, rows_of(r@)),
{
    let sw: usize = sample_count(mesh.width());
    let sh: usize = sample_count(mesh.height());
    let mut ground: Vec<Vec<Option<S>>> = Vec::new();
    let mut sj: usize = 0;
    while sj < sh
        invariant
            mesh.countable(),
            traceable(*mesh),
            level == stand_in(*mesh),
            forall|i: usize, q: Vec3<S>| #[trigger] call_requires(*chunk_height, (i, q)),
            forall|q: Vec3<S>| #[trigger] call_requires(*terrain, (q,)),
            sw == samples(mesh.cols()),
            sh == samples(mesh.rows()),
            sw <= u32::MAX,
            sh <= u32::MAX,
            sj <= sh,
            ground@.len() == sj,
            forall|j: int| 0 <= j < sj ==> (#[trigger] ground@[j])@.len() == sw,
            forall|i: int, j: int|
                #![trigger ground@[j]@[i]]
                0 <= j < sj && 0 <= i < sw ==> grounded(
                    *chunk_height,
                    *terrain,
                    own,
                    sample_point(*mesh, i, j),
                    ground@[j]@[i],
                ),
        decreases sh - sj,
    {
        let mut line: Vec<Option<S>> = Vec::new();
        let mut si: usize = 0;
        while si < sw
            invariant
                mesh.countable(),
                traceable(*mesh),
                level == stand_in(*mesh),
                forall|i: usize, q: Vec3<S>| #[trigger] call_requires(*chunk_height, (i, q)),
                forall|q: Vec3<S>| #[trigger] call_requires(*terrain, (q,)),
                sw <= u32::MAX,
                sj < sh <= u32::MAX,
                si <= sw,
                line@.len() == si,
                forall|i: int|
                    #![trigger line@[i]]
                    0 <= i < si ==> grounded(
                        *chunk_height,
                        *terrain,
                        own,
                        sample_point(*mesh, i, sj as int),
                        line@[i],
                    ),
            decreases sw - si,
        {
            let p: Vec3<S> = sample_at(mesh, level, si, sj);
            let g: Option<S> = match own {
                Some(c) => match chunk_height(c, p) {
                    Some(h) => Some(h),
                    None => terrain(p),
                },
                None => terrain(p),
            };
            line.push(g);
            si = si + 1;
        }
        ground.push(line);
        sj = sj + 1;
    }
    ground
}

impl<S: Scalar> Shoreline<S> {
    /// Trace every waterline in a batch of surfaces over a terrain of so many chunks. Nothing
    /// without terrain to measure against, which is every pool inside a building.
    ///
    /// `chunk_height` answers the ground's height at a point on one chunk, and `terrain` on any.
    pub fn build<H: Fn(usize, Vec3<S>) -> Option<S>, T: Fn(Vec3<S>) -> Option<S>>(
        meshes: &Vec<LiquidMesh<S>>,
        chunks: usize,
        chunk_height: &H,
        terrain: &T,
    ) -> (r: Option<Self>)
        requires
            forall|k: int| 0 <= k < meshes@.len() ==> (#[trigger] meshes@[k]).countable(),
            forall|i: usize, q: Vec3<S>| #[trigger] call_requires(*chunk_height, (i, q)),
            forall|q: Vec3<S>| #[trigger] call_requires(*terrain, (q,)),
        ensures
            shoreline_traced(meshes@, chunks as int, *chunk_height, *terrain, r),
    {
        if chunks == 0 {
            return None;
        }
        let mut raw: Vec<Segment<S>> = Vec::new();
        let ghost mut lines: Seq<Seq<Segment<S>>> = Seq::empty();
        let mut k: usize = 0;
        while k < meshes.len()
            invariant
                k <= meshes@.len(),
                forall|j: int| 0 <= j < meshes@.len() ==> (#[trigger] meshes@[j]).countable(),
                forall|i: usize, q: Vec3<S>| #[trigger] call_requires(*chunk_height, (i, q)),
                forall|q: Vec3<S>| #[trigger] call_requires(*terrain, (q,)),
                all_traced(meshes@, k as int, chunks as int, *chunk_height, *terrain, lines),
                raw@ == end_to_end(lines, k as int),
            decreases meshes@.len() - k,
        {
            let mesh: &LiquidMesh<S> = &meshes[k];
            let ghost mut line: Seq<Segment<S>> = Seq::empty();
            let ghost before = raw@;
            match stand_in_for(mesh) {
                Some(level) => {
                    let half: S = S::ratio(1, 2);
                    let u: S = whole_number(mesh.width() as i64 - 1);
                    let v: S = whole_number(mesh.height() as i64 - 1);
                    let mid: Vec3<S> = mesh.surface_point(level, u.times(half), v.times(half));
                    let own: Option<usize> = own_chunk(chunk_height, chunks, mid);
                    let ground: Vec<Vec<Option<S>>> = survey(
                        mesh,
                        level,
                        chunk_height,
                        terrain,
                        own,
                    );
                    trace_waterline(mesh, &ground, &mut raw);
                    proof {
                        line = waterline(*mesh, rows_of(ground@));
                        assert(surveyed(*mesh, *chunk_height, *terrain, own, rows_of(ground@)));
                    }
                },
                None => {},
            }
            proof {
                assert(raw@ =~= before + line);
                assert(traced(*mesh, chunks as int, *chunk_height, *terrain, line));
                lemma_end_to_end_push(lines, line, k as int);
                lines = lines.push(line);
            }
            k = k + 1;
        }
        Shoreline::from_segments(&raw)
    }
}

/// A line added at the end does not disturb the ones before it.
proof fn lemma_end_to_end_push<S: Scalar>(
    lines: Seq<Seq<Segment<S>>>,
    line: Seq<Segment<S>>,
    n: int,
)
    requires
        0 <= n <= lines.len(),
    ensures
        end_to_end(lines.push(line), n) == end_to_end(lines, n),
    decreases n,
{
    if n > 0 {
        lemma_end_to_end_push(lines, line, n - 1);
    }
}

} // verus!
