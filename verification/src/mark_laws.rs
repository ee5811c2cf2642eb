//! Of the mark of a block, only whether it is zero matters.
use crate::equations::{is_cleared, is_mirrored, is_scaled, EquationSystem};
use crate::kernels::Kernels;
use crate::measurements::LumaNoise;
use crate::model::{
    are_coefficients_found, are_strengths_found, is_channel_updated, is_chroma_channel,
    is_state_measured, is_state_observed, is_strength_updated, luma_noise, ChannelStates,
    NoiseError, NoiseModel, NoiseStatus,
};
use crate::observations::{offsets_of, ChannelSurvey};
use crate::plane::{ChromaSubsampling, Frame};
use crate::scalar::{denotes, ratio};
use crate::state::NoiseModelState;
use crate::strength::StrengthSolver;
use crate::update::{
    all_flat_indices, are_combined, are_states_cleared, chroma_survey, first_error, flat_indices,
    is_chroma_updated, is_frame_taken_in, is_latest_updated, is_observable, is_updated, luma_survey,
    status_of,
};
use vstd::prelude::*;

verus! {

/// Whether two lists of marks are zero at the same places.
pub open spec fn are_same_marks(f: Seq<u8>, g: Seq<u8>) -> bool {
    &&& f.len() == g.len()
    &&& forall|i: int| 0 <= i < f.len() ==> (#[trigger] f[i] > 0 <==> g[i] > 0)
}

/// Whether two surveys look at the same pixels of the same planes.
pub open spec fn is_same_survey(s: ChannelSurvey, t: ChannelSurvey, indices: Seq<usize>) -> bool {
    &&& s.source == t.source
    &&& s.denoised == t.denoised
    &&& s.alt == t.alt
    &&& s.frame_dims == t.frame_dims
    &&& s.num_blocks_w == t.num_blocks_w
    &&& forall|k: int|
        0 <= k < indices.len() ==> s.window(#[trigger] indices[k] as int) == t.window(
            indices[k] as int,
        )
}

/// The same blocks are flat.
proof fn lemma_same_indices(f: Seq<u8>, g: Seq<u8>, n: int)
    requires
        are_same_marks(f, g),
        n <= f.len(),
    ensures
        flat_indices(f, n) == flat_indices(g, n),
    decreases n,
{
    if n > 0 {
        lemma_same_indices(f, g, n - 1);
        assert(f[n - 1] > 0 <==> g[n - 1] > 0);
    }
}

/// The same pixels are observed.
proof fn lemma_same_window(s: ChannelSurvey, t: ChannelSurvey, indices: Seq<usize>)
    requires
        s.source == t.source,
        s.denoised == t.denoised,
        s.alt == t.alt,
        s.frame_dims == t.frame_dims,
        s.num_blocks_w == t.num_blocks_w,
        are_same_marks(s.flat_blocks@, t.flat_blocks@),
        s.wf(indices),
    ensures
        is_same_survey(s, t, indices),
{
    assert forall|k: int| 0 <= k < indices.len() implies s.window(#[trigger] indices[k] as int)
        == t.window(indices[k] as int) by {
        let i = indices[k] as int;
        let f = s.flat_blocks@;
        let g = t.flat_blocks@;
        assert(s.is_readable(i));
        s.lemma_block(i);
        if s.row(i) > 0 {
            assert(f[i - s.num_blocks_w] > 0 <==> g[i - s.num_blocks_w] > 0);
        }
        if s.column(i) > 0 {
            assert(f[i - 1] > 0 <==> g[i - 1] > 0);
        }
        if s.column(i) + 1 < s.num_blocks_w {
            assert(f[i + 1] > 0 <==> g[i + 1] > 0);
        }
    }
}

/// The same pixels give the same observations.
proof fn lemma_same_observed<T: Kernels>(
    s: ChannelSurvey,
    t: ChannelSurvey,
    offsets: Seq<isize>,
    num_coords: usize,
    index: int,
    start: EquationSystem<T>,
    x: int,
    y: int,
    e: EquationSystem<T>,
)
    requires
        s.source == t.source,
        s.denoised == t.denoised,
        s.alt == t.alt,
        s.num_blocks_w == t.num_blocks_w,
        s.window(index) == t.window(index),
        s.is_observed_up_to(offsets, num_coords, index, start, x, y, e),
    ensures
        t.is_observed_up_to(offsets, num_coords, index, start, x, y, e),
    decreases y - s.window(index).y_start, x - s.window(index).x_start,
{
    let w = s.window(index);
    if x > w.x_start {
        let (mid, row, val) = choose|mid: EquationSystem<T>, row: Seq<T>, val: T|
            {
                &&& s.is_observed_up_to(offsets, num_coords, index, start, x - 1, y, mid)
                &&& #[trigger] s.observation_step(
                    offsets,
                    num_coords,
                    index,
                    x,
                    y,
                    mid,
                    row,
                    val,
                    e,
                )
            };
        lemma_same_observed(s, t, offsets, num_coords, index, start, x - 1, y, mid);
        assert(t.observation_step(offsets, num_coords, index, x, y, mid, row, val, e));
    } else if y > w.y_start {
        lemma_same_observed(s, t, offsets, num_coords, index, start, w.x_end as int, y - 1, e);
    }
}

/// The same pixels give the same system of a block.
proof fn lemma_same_block<T: Kernels>(
    s: ChannelSurvey,
    t: ChannelSurvey,
    offsets: Seq<isize>,
    num_coords: usize,
    n: usize,
    index: int,
    e: EquationSystem<T>,
)
    requires
        s.source == t.source,
        s.denoised == t.denoised,
        s.alt == t.alt,
        s.num_blocks_w == t.num_blocks_w,
        s.window(index) == t.window(index),
        s.is_block_system(offsets, num_coords, n, index, e),
    ensures
        t.is_block_system(offsets, num_coords, n, index, e),
{
    let w = s.window(index);
    let (raw, scale, scaled) = choose|raw: EquationSystem<T>, scale: T, scaled: EquationSystem<T>|
        {
            &&& s.is_block_observed(offsets, num_coords, n, index, raw)
            &&& denotes(ratio(1, 65025), scale)
            &&& #[trigger] is_scaled(raw, scale, scaled)
            &&& #[trigger] is_mirrored(scaled, e)
        };
    let start = choose|start: EquationSystem<T>|
        {
            &&& is_cleared(start)
            &&& start.n == n
            &&& #[trigger] s.is_observed_up_to(
                offsets,
                num_coords,
                index,
                start,
                w.x_start as int,
                w.bottom(),
                raw,
            )
        };
    lemma_same_observed(
        s,
        t,
        offsets,
        num_coords,
        index,
        start,
        w.x_start as int,
        w.bottom(),
        raw,
    );
    assert(t.is_block_observed(offsets, num_coords, n, index, raw));
}

/// The same pixels give the same sum of a chunk.
proof fn lemma_same_chunk<T: Kernels>(
    s: ChannelSurvey,
    t: ChannelSurvey,
    indices: Seq<usize>,
    offsets: Seq<isize>,
    num_coords: usize,
    n: usize,
    from: int,
    to: int,
    e: EquationSystem<T>,
)
    requires
        is_same_survey(s, t, indices),
        0 <= from,
        to <= indices.len(),
        s.is_chunk_sum(indices, offsets, num_coords, n, from, to, e),
    ensures
        t.is_chunk_sum(indices, offsets, num_coords, n, from, to, e),
    decreases to - from,
{
    if to > from {
        let (mid, block) = choose|mid: EquationSystem<T>, block: EquationSystem<T>|
            {
                &&& s.is_chunk_sum(indices, offsets, num_coords, n, from, to - 1, mid)
                &&& #[trigger] s.chunk_step(indices, offsets, num_coords, n, to, mid, block, e)
            };
        lemma_same_chunk(s, t, indices, offsets, num_coords, n, from, to - 1, mid);
        let index = indices[to - 1] as int;
        assert(s.window(index) == t.window(index));
        if s.window(index).area() > 0 {
            lemma_same_block(s, t, offsets, num_coords, n, index, block);
        }
        assert(t.chunk_step(indices, offsets, num_coords, n, to, mid, block, e));
    }
}

/// The same pixels give the same total.
proof fn lemma_same_total<T: Kernels>(
    s: ChannelSurvey,
    t: ChannelSurvey,
    indices: Seq<usize>,
    offsets: Seq<isize>,
    num_coords: usize,
    n: usize,
    c: int,
    e: EquationSystem<T>,
)
    requires
        is_same_survey(s, t, indices),
        s.is_total(indices, offsets, num_coords, n, c, e),
    ensures
        t.is_total(indices, offsets, num_coords, n, c, e),
    decreases c,
{
    if c > 0 {
        let (mid, chunk) = choose|mid: EquationSystem<T>, chunk: EquationSystem<T>|
            {
                &&& s.is_total(indices, offsets, num_coords, n, c - 1, mid)
                &&& #[trigger] s.total_step(indices, offsets, num_coords, n, c, mid, chunk, e)
            };
        lemma_same_total(s, t, indices, offsets, num_coords, n, c - 1, mid);
        lemma_same_chunk(
            s,
            t,
            indices,
            offsets,
            num_coords,
            n,
            s.chunk_start(indices, c - 1),
            s.chunk_start(indices, c),
            chunk,
        );
        assert(t.total_step(indices, offsets, num_coords, n, c, mid, chunk, e));
    }
}

/// The same pixels are counted.
proof fn lemma_same_count(
    s: ChannelSurvey,
    t: ChannelSurvey,
    indices: Seq<usize>,
    from: int,
    to: int,
)
    requires
        is_same_survey(s, t, indices),
        0 <= from,
        to <= indices.len(),
    ensures
        s.num_observations(indices, from, to) == t.num_observations(indices, from, to),
    decreases to - from,
{
    if to > from {
        lemma_same_count(s, t, indices, from, to - 1);
        assert(s.window(indices[to - 1] as int) == t.window(indices[to - 1] as int));
    }
}

/// The same planes give the same measurements.
proof fn lemma_same_measured<T: Kernels>(
    s: ChannelSurvey,
    t: ChannelSurvey,
    indices: Seq<usize>,
    noise_gain: T,
    luma: Option<LumaNoise<T>>,
    num_bins: usize,
    k: int,
    e: StrengthSolver<T>,
)
    requires
        is_same_survey(s, t, indices),
        s.are_measured(indices, noise_gain, luma, num_bins, k, e),
    ensures
        t.are_measured(indices, noise_gain, luma, num_bins, k, e),
    decreases k,
{
    if k > 0 {
        let (mid, m) = choose|mid: StrengthSolver<T>, m: Option<(T, T)>|
            {
                &&& s.are_measured(indices, noise_gain, luma, num_bins, k - 1, mid)
                &&& #[trigger] s.measurement_step(indices, noise_gain, luma, k, mid, m, e)
            };
        lemma_same_measured(s, t, indices, noise_gain, luma, num_bins, k - 1, mid);
        assert(t.measurement_step(indices, noise_gain, luma, k, mid, m, e));
    }
}

/// The same survey gives the same updates of a plane.
proof fn lemma_same_channel<T: Kernels>(
    s: ChannelSurvey,
    t: ChannelSurvey,
    indices: Seq<usize>,
    coords: Seq<[isize; 2]>,
    num_coords: usize,
    channel: int,
    luma: Option<&NoiseModelState<T>>,
    pre: NoiseModelState<T>,
    post: NoiseModelState<T>,
    r: Result<(), NoiseError>,
)
    requires
        is_same_survey(s, t, indices),
        is_channel_updated(s, indices, coords, num_coords, channel, luma, pre, post, r),
    ensures
        is_channel_updated(t, indices, coords, num_coords, channel, luma, pre, post, r),
{
    let (s1, s2, found) = choose|s1: NoiseModelState<T>, s2: NoiseModelState<T>, found: bool|
        {
            &&& is_state_observed(s, indices, coords, num_coords, pre, s1)
            &&& #[trigger] are_coefficients_found(s1, is_chroma_channel(channel), s2, found)
            &&& if found {
                is_strength_updated(
                    s,
                    indices,
                    luma_noise(channel, luma, s2, num_coords),
                    s2,
                    post,
                    r,
                )
            } else {
                post == s2 && r == Err::<(), NoiseError>(NoiseError::LatestSystemUnsolved)
            }
        };
    lemma_same_total(
        s,
        t,
        indices,
        offsets_of(coords, num_coords, s.source.geometry.stride),
        num_coords,
        pre.eqns.n,
        s.num_chunks(indices),
        s1.eqns,
    );
    lemma_same_count(s, t, indices, 0, indices.len() as int);
    assert(is_state_observed(t, indices, coords, num_coords, pre, s1));
    if found {
        let noise = luma_noise(channel, luma, s2, num_coords);
        let (mid, ok) = choose|mid: NoiseModelState<T>, ok: bool|
            {
                &&& is_state_measured(s, indices, noise, s2, mid)
                &&& #[trigger] are_strengths_found(mid, post, ok)
                &&& r == if ok {
                    Ok(())
                } else {
                    Err(NoiseError::LatestStrengthUnsolved)
                }
            };
        lemma_same_measured(
            s,
            t,
            indices,
            s2.ar_gain,
            noise,
            s2.strength_solver.num_bins,
            indices.len() as int,
            mid.strength_solver,
        );
        assert(is_state_measured(t, indices, noise, s2, mid));
        assert(is_strength_updated(t, indices, noise, s2, post, r));
    }
}

/// The same marks give the same updates of the latest states.
proof fn lemma_same_latest<'a, T: Kernels>(
    coords: Seq<[isize; 2]>,
    num_coords: usize,
    source: &'a Frame<u8>,
    denoised: &'a Frame<u8>,
    f: &'a [u8],
    g: &'a [u8],
    pre: ChannelStates<T>,
    post: ChannelStates<T>,
    r: Result<(), NoiseError>,
)
    requires
        are_same_marks(f@, g@),
        is_observable(source, denoised, f),
        is_latest_updated(coords, num_coords, source, denoised, f, pre, post, r),
    ensures
        is_latest_updated(coords, num_coords, source, denoised, g, pre, post, r),
{
    lemma_same_indices(f@, g@, f@.len() as int);
    let indices = all_flat_indices(f@);
    let s = luma_survey(source, denoised, f);
    let t = luma_survey(source, denoised, g);
    let luma = choose|luma: Result<(), NoiseError>|
        {
            &&& #[trigger] is_channel_updated(
                s,
                indices,
                coords,
                num_coords,
                0,
                None,
                pre.y,
                post.y,
                luma,
            )
            &&& if luma is Err || source.subsampling == ChromaSubsampling::Monochrome {
                r == luma && post.cb == pre.cb && post.cr == pre.cr
            } else {
                is_chroma_updated(coords, num_coords, source, denoised, f, pre, post, r)
            }
        };
    lemma_same_window(s, t, indices);
    lemma_same_channel(s, t, indices, coords, num_coords, 0, None, pre.y, post.y, luma);
    assert(all_flat_indices(g@) == indices);
    assert(is_channel_updated(
        luma_survey(source, denoised, g),
        all_flat_indices(g@),
        coords,
        num_coords,
        0,
        None,
        pre.y,
        post.y,
        luma,
    ));
    if !(luma is Err || source.subsampling == ChromaSubsampling::Monochrome) {
        lemma_same_chroma(coords, num_coords, source, denoised, f, g, pre, post, r);
    }
}

/// The same marks give the same updates of the latest chroma states.
proof fn lemma_same_chroma<'a, T: Kernels>(
    coords: Seq<[isize; 2]>,
    num_coords: usize,
    source: &'a Frame<u8>,
    denoised: &'a Frame<u8>,
    f: &'a [u8],
    g: &'a [u8],
    pre: ChannelStates<T>,
    post: ChannelStates<T>,
    r: Result<(), NoiseError>,
)
    requires
        are_same_marks(f@, g@),
        is_observable(source, denoised, f),
        source.subsampling != ChromaSubsampling::Monochrome,
        is_chroma_updated(coords, num_coords, source, denoised, f, pre, post, r),
    ensures
        is_chroma_updated(coords, num_coords, source, denoised, g, pre, post, r),
{
    lemma_same_indices(f@, g@, f@.len() as int);
    let indices = all_flat_indices(f@);
    let su = chroma_survey(source, denoised, &source.u_plane->0, &denoised.u_plane->0, f);
    let tu = chroma_survey(source, denoised, &source.u_plane->0, &denoised.u_plane->0, g);
    let sv = chroma_survey(source, denoised, &source.v_plane->0, &denoised.v_plane->0, f);
    let tv = chroma_survey(source, denoised, &source.v_plane->0, &denoised.v_plane->0, g);
    let y = Some(&post.y);
    let (cb, cr) = choose|cb: Result<(), NoiseError>, cr: Result<(), NoiseError>|
        {
            &&& #[trigger] is_channel_updated(
                su,
                indices,
                coords,
                num_coords,
                1,
                y,
                pre.cb,
                post.cb,
                cb,
            )
            &&& #[trigger] is_channel_updated(
                sv,
                indices,
                coords,
                num_coords,
                2,
                y,
                pre.cr,
                post.cr,
                cr,
            )
            &&& r == first_error(cb, cr)
        };
    lemma_same_window(su, tu, indices);
    lemma_same_window(sv, tv, indices);
    lemma_same_channel(su, tu, indices, coords, num_coords, 1, y, pre.cb, post.cb, cb);
    lemma_same_channel(sv, tv, indices, coords, num_coords, 2, y, pre.cr, post.cr, cr);
    let again = all_flat_indices(g@);
    assert(again == indices);
    assert(is_channel_updated(tu, again, coords, num_coords, 1, y, pre.cb, post.cb, cb));
    assert(is_channel_updated(tv, again, coords, num_coords, 2, y, pre.cr, post.cr, cr));
}

/// The same marks give the same updates.
proof fn lemma_same_update<'a, T: Kernels>(
    pre: NoiseModel<T>,
    source: &'a Frame<u8>,
    denoised: &'a Frame<u8>,
    f: &'a [u8],
    g: &'a [u8],
    post: NoiseModel<T>,
    status: NoiseStatus,
)
    requires
        are_same_marks(f@, g@),
        all_flat_indices(f@).len() > 1 ==> is_observable(source, denoised, f),
        is_updated(pre, source, denoised, f, post, status),
    ensures
        is_updated(pre, source, denoised, g, post, status),
{
    lemma_same_indices(f@, g@, f@.len() as int);
    let cleared = choose|cleared: ChannelStates<T>|
        {
            &&& #[trigger] are_states_cleared(pre.latest_state, cleared)
            &&& if all_flat_indices(f@).len() <= 1 {
                &&& post.latest_state == cleared
                &&& post.combined_state == pre.combined_state
                &&& status == NoiseStatus::Error(NoiseError::NotEnoughFlatBlocks)
            } else {
                is_frame_taken_in(pre, source, denoised, f, cleared, post, status)
            }
        };
    if all_flat_indices(f@).len() > 1 {
        let monochrome = source.subsampling == ChromaSubsampling::Monochrome;
        let r = choose|r: Result<(), NoiseError>|
            {
                &&& #[trigger] is_latest_updated(
                    pre.coords@,
                    pre.n,
                    source,
                    denoised,
                    f,
                    cleared,
                    post.latest_state,
                    r,
                )
                &&& if r is Err {
                    post.combined_state == pre.combined_state && status == status_of(r)
                } else {
                    are_combined(
                        pre.combined_state,
                        post.latest_state,
                        monochrome,
                        post.combined_state,
                        status,
                    )
                }
            };
        lemma_same_latest(
            pre.coords@,
            pre.n,
            source,
            denoised,
            f,
            g,
            cleared,
            post.latest_state,
            r,
        );
        assert(is_frame_taken_in(pre, source, denoised, g, cleared, post, status));
    }
}

/// Blocks that can be read with one list of marks can be read with the other.
proof fn lemma_same_observable<'a>(
    source: &'a Frame<u8>,
    denoised: &'a Frame<u8>,
    f: &'a [u8],
    g: &'a [u8],
)
    requires
        are_same_marks(f@, g@),
        is_observable(source, denoised, f),
    ensures
        is_observable(source, denoised, g),
{
    lemma_same_indices(f@, g@, f@.len() as int);
    let indices = all_flat_indices(f@);
    lemma_same_wf(
        luma_survey(source, denoised, f),
        luma_survey(source, denoised, g),
        indices,
    );
    if source.subsampling != ChromaSubsampling::Monochrome {
        lemma_same_wf(
            chroma_survey(source, denoised, &source.u_plane->0, &denoised.u_plane->0, f),
            chroma_survey(source, denoised, &source.u_plane->0, &denoised.u_plane->0, g),
            indices,
        );
        lemma_same_wf(
            chroma_survey(source, denoised, &source.v_plane->0, &denoised.v_plane->0, f),
            chroma_survey(source, denoised, &source.v_plane->0, &denoised.v_plane->0, g),
            indices,
        );
    }
}

proof fn lemma_same_wf(s: ChannelSurvey, t: ChannelSurvey, indices: Seq<usize>)
    requires
        s.source == t.source,
        s.denoised == t.denoised,
        s.alt == t.alt,
        s.frame_dims == t.frame_dims,
        s.num_blocks_w == t.num_blocks_w,
        s.flat_blocks@.len() == t.flat_blocks@.len(),
        s.wf(indices),
    ensures
        t.wf(indices),
{
    assert forall|k: int| 0 <= k < indices.len() implies t.is_readable(
        #[trigger] indices[k] as int,
    ) by {
        assert(s.is_readable(indices[k] as int));
    }
}

/// Two lists of marks that are zero at the same places have the same outcomes of an update,
/// whatever else the marks are.
pub proof fn law_only_zero_marks_matter<'a, T: Kernels>(
    pre: NoiseModel<T>,
    source: &'a Frame<u8>,
    denoised: &'a Frame<u8>,
    f: &'a [u8],
    g: &'a [u8],
    post: NoiseModel<T>,
    status: NoiseStatus,
)
    requires
        are_same_marks(f@, g@),
        all_flat_indices(f@).len() > 1 ==> is_observable(source, denoised, f),
    ensures
        is_updated(pre, source, denoised, f, post, status) <==> is_updated(
            pre,
            source,
            denoised,
            g,
            post,
            status,
        ),
        all_flat_indices(g@).len() > 1 ==> is_observable(source, denoised, g),
{
    lemma_same_indices(f@, g@, f@.len() as int);
    if all_flat_indices(f@).len() > 1 {
        lemma_same_observable(source, denoised, f, g);
    }
    if is_updated(pre, source, denoised, f, post, status) {
        lemma_same_update(pre, source, denoised, f, g, post, status);
    }
    if is_updated(pre, source, denoised, g, post, status) {
        assert(are_same_marks(g@, f@));
        lemma_same_update(pre, source, denoised, g, f, post, status);
    }
}

} // verus!
