//! Fingerprints of videos: how frames are sampled and compared.

use crate::accuracy;
use crate::binary64;
use crate::binary64::{Binary64, Float};
use crate::bucket;
use crate::bucket::group_positions;
use crate::cluster;
use crate::cluster::{cluster_buckets, Likeable};
use crate::fingerprint;
use crate::fingerprint::{dhash_gray, frame_hashes, frame_seq_similarity, mean_of_best, FRAME_SIZE};
use crate::media;
use crate::media::{MediaInfo, MediaKind, MediaView};
use crate::order;
use crate::order::{Rank, SortKey};
use crate::scan::{EntryView, FileEntry};
use crate::similar;
use crate::similar::{SimilarGroup, SimilarGroupView, SimilarMember, SimilarMemberView};
use crate::text;
use vstd::arithmetic::power2::pow2;
use vstd::prelude::*;
use vstd::slice::slice_subrange;
use vstd::string::*;

verus! {

/// Number of frames sampled from each video.
pub const SIMILAR_FRAMES: usize = 8;

/// Videos longer than this are sampled by seeking to each frame (decoding the
/// whole stream to sample 8 frames would be wasteful); shorter ones are decoded
/// once in a single fast pass.
pub const SEEK_THRESHOLD_MS: u64 = 90_000;

/// How far apart two frames may be that are compared, in frames.
pub const FRAME_WINDOW: usize = 2;

/// The fingerprint of a video.
pub struct VideoFp {
    pub entry: FileEntry,
    pub w: u32,
    pub h: u32,
    pub duration_ms: u64,
    pub frames: Vec<u64>,
}

/// What the fingerprint of a video is.
#[verifier::ext_equal]
pub struct VideoView {
    pub entry: EntryView,
    pub w: u32,
    pub h: u32,
    pub duration_ms: u64,
    pub frames: Seq<u64>,
}

impl View for VideoFp {
    type V = VideoView;

    open spec fn view(&self) -> VideoView {
        VideoView {
            entry: self.entry@,
            w: self.w,
            h: self.h,
            duration_ms: self.duration_ms,
            frames: self.frames@,
        }
    }
}

/// What each fingerprint in a list is.
pub open spec fn video_views(fps: Seq<VideoFp>) -> Seq<VideoView> {
    fps.map_values(|f: VideoFp| f@)
}

/// A duration in seconds, in double precision.
pub open spec fn seconds(ms: u64) -> Float {
    binary64::float_div(binary64::nearest(ms as nat, 1), binary64::nearest(1000, 1))
}

/// The filter that reduces a video and picks frames evenly spaced over all of
/// it.
pub open spec fn pass_filter(ms: u64) -> Seq<char> {
    "scale=9:8,fps=8/"@ + binary64::fixed_text(seconds(ms), 6)
}

/// The time of sample `i`, in seconds: the middle of the `i`-th of eight equal
/// parts of a video.
pub open spec fn seek_time(ms: u64, i: nat) -> Float {
    binary64::float_div(
        binary64::float_mul(seconds(ms), binary64::nearest(2 * i + 1, 2)),
        binary64::nearest(8, 1),
    )
}

/// How frames are to be taken from a video.
pub enum Sampling {
    /// Not at all.
    Nothing,
    /// In one pass, with this filter.
    Pass(String),
    /// One by one, at these times.
    Seek(Vec<String>),
    /// In one pass, a frame each second.
    OneShot,
}

/// How frames are to be taken from a video.
#[verifier::ext_equal]
pub enum SamplingView {
    Nothing,
    Pass(Seq<char>),
    Seek(Seq<Seq<char>>),
    OneShot,
}

impl View for Sampling {
    type V = SamplingView;

    open spec fn view(&self) -> SamplingView {
        match *self {
            Sampling::Nothing => SamplingView::Nothing,
            Sampling::Pass(f) => SamplingView::Pass(f@),
            Sampling::Seek(t) => SamplingView::Seek(text::texts(t@)),
            Sampling::OneShot => SamplingView::OneShot,
        }
    }
}

/// The size that a probe found, if it found both its width and its height.
pub open spec fn probed_size(info: MediaView) -> Option<(u32, u32)> {
    match (info.width, info.height) {
        (Some(w), Some(h)) => Some((w, h)),
        _ => None,
    }
}

/// How frames are to be taken: with a known duration in one pass, or, where
/// the video is long, one by one; without a probe, or where it found no
/// duration, in one pass over the whole stream; where it found no size, or the
/// video has no length, not at all.
pub open spec fn sampling_of(probe: Option<MediaView>) -> SamplingView {
    match probe {
        None => SamplingView::OneShot,
        Some(info) => match (probed_size(info), info.duration_ms) {
            (None, _) => SamplingView::Nothing,
            (Some(_), None) => SamplingView::OneShot,
            (Some(_), Some(ms)) => if ms == 0 {
                SamplingView::Nothing
            } else if ms <= SEEK_THRESHOLD_MS {
                SamplingView::Pass(pass_filter(ms))
            } else {
                SamplingView::Seek(
                    Seq::new(8, |i: int| binary64::fixed_text(seek_time(ms, i as nat), 6)),
                )
            },
        },
    }
}

fn seconds_of(ms: u64) -> (r: Binary64)
    ensures
        r@ == seconds(ms),
        r.moderate(),
        -200 <= r.exp <= 13,
{
    Binary64::from_u64(ms).div(Binary64::from_u64(1000))
}

fn seek_text(ms: u64, i: usize) -> (out: String)
    requires
        i < 8,
    ensures
        out@ == binary64::fixed_text(seek_time(ms, i as nat), 6),
{
    let half = Binary64::ratio(2 * (i as u64) + 1, 2);
    proof {
        vstd::arithmetic::power2::lemma2_to64();
        let n = (2 * i + 1) as nat;
        let p = vstd::arithmetic::power2::pow2(3);
        let q = vstd::arithmetic::power2::pow2(1);
        assert(binary64::over(n, 1) == n * q);
        assert(n * q >= 2) by (nonlinear_arith)
            requires
                n >= 1,
                q == 2,
        ;
        assert(2 * p == 16) by (nonlinear_arith)
            requires
                p == 8,
        ;
        binary64::lemma_nearest_range(n, 2, -1, 3);
    }
    let t = seconds_of(ms).mul(half).div(Binary64::from_u64(8));
    t.fixed(6)
}

/// Plans how to take frames from a video, given what probing it found, if it
/// was probed.
pub fn sampling(probe: &Option<MediaInfo>) -> (r: Sampling)
    ensures
        r@ == sampling_of(media::info_view(*probe)),
{
    let info = match probe {
        Some(i) => i,
        None => {
            return Sampling::OneShot;
        },
    };
    match (info.width, info.height) {
        (Some(w), Some(h)) => {},
        _ => {
            return Sampling::Nothing;
        },
    }
    let ms = match info.duration_ms {
        Some(d) => d,
        None => {
            return Sampling::OneShot;
        },
    };
    if ms == 0 {
        return Sampling::Nothing;
    }
    if ms <= SEEK_THRESHOLD_MS {
        let mut filter = String::new();
        filter.append("scale=9:8,fps=8/");
        filter.append(seconds_of(ms).fixed(6).as_str());
        assert(filter@ =~= pass_filter(ms));
        return Sampling::Pass(filter);
    }
    let mut times: Vec<String> = Vec::new();
    let mut i: usize = 0;
    while i < SIMILAR_FRAMES
        invariant
            0 <= i <= 8,
            times@.len() == i,
            forall|j: int|
                0 <= j < i ==> (#[trigger] times@[j])@ == binary64::fixed_text(
                    seek_time(ms, j as nat),
                    6,
                ),
        decreases 8 - i,
    {
        times.push(seek_text(ms, i));
        i = i + 1;
    }
    assert(text::texts(times@) =~= Seq::new(
        8,
        |i: int| binary64::fixed_text(seek_time(ms, i as nat), 6),
    ));
    Sampling::Seek(times)
}

/// What a run of the decoder wrote; `None` where it failed.
pub open spec fn run_view(run: Option<Vec<u8>>) -> Option<Seq<u8>> {
    match run {
        Some(raw) => Some(raw@),
        None => None,
    }
}

/// What each run of the decoder wrote.
pub open spec fn run_views(runs: Seq<Option<Vec<u8>>>) -> Seq<Option<Seq<u8>>> {
    runs.map_values(|r: Option<Vec<u8>>| run_view(r))
}

/// The run succeeded and wrote at least one frame.
pub open spec fn has_frame(run: Option<Seq<u8>>) -> bool {
    run matches Some(raw) && raw.len() >= 72
}

/// The frames that one pass over a video yields.
pub open spec fn frames_pass(run: Option<Seq<u8>>) -> Option<Seq<u64>> {
    if has_frame(run) {
        Some(fingerprint::frames_in(run->0))
    } else {
        None
    }
}

/// The frames that seeking yields: the first of each run.
pub open spec fn frames_seek(runs: Seq<Option<Seq<u8>>>) -> Option<Seq<u64>> {
    if forall|i: int| 0 <= i < runs.len() ==> has_frame(#[trigger] runs[i]) {
        Some(runs.map_values(|r: Option<Seq<u8>>| fingerprint::dhash_of(9, 8, (r->0).take(72))))
    } else {
        None
    }
}

/// Of more than eight frames, eight that are evenly spaced.
pub open spec fn subsample(all: Seq<u64>) -> Seq<u64> {
    if all.len() > 8 {
        Seq::new(8, |i: int| all[(i * all.len() + 4) / 8])
    } else {
        all
    }
}

/// The frames that a pass with a frame each second yields.
pub open spec fn frames_oneshot(run: Option<Seq<u8>>) -> Option<Seq<u64>> {
    if has_frame(run) {
        Some(subsample(fingerprint::frames_in(run->0)))
    } else {
        None
    }
}

/// How often the decoder runs.
pub open spec fn run_count(plan: SamplingView) -> nat {
    match plan {
        SamplingView::Nothing => 0,
        SamplingView::Seek(times) => times.len(),
        _ => 1,
    }
}

/// The fingerprint of a video from what was probed and what the decoder wrote.
/// Where no duration was found it is taken from the number of frames: one for
/// each second.
pub open spec fn fingerprint_of(
    entry: EntryView,
    probe: Option<MediaView>,
    runs: Seq<Option<Seq<u8>>>,
) -> Option<VideoView> {
    let (w, h) = match probe {
        Some(info) => match probed_size(info) {
            Some(found) => found,
            None => (0, 0),
        },
        None => (0, 0),
    };
    let duration = match probe {
        Some(info) => info.duration_ms,
        None => None,
    };
    let frames = match sampling_of(probe) {
        SamplingView::Nothing => None,
        SamplingView::Pass(_) => frames_pass(runs[0]),
        SamplingView::Seek(_) => frames_seek(runs),
        SamplingView::OneShot => frames_oneshot(runs[0]),
    };
    match frames {
        None => None,
        Some(f) => Some(
            VideoView {
                entry,
                w,
                h,
                duration_ms: match duration {
                    Some(ms) => ms,
                    None => (f.len() * 1000) as u64,
                },
                frames: f,
            },
        ),
    }
}

fn take_pass(run: &Option<Vec<u8>>) -> (r: Option<Vec<u64>>)
    ensures
        match r {
            Some(f) => frames_pass(run_view(*run)) == Some(f@),
            None => frames_pass(run_view(*run)) is None,
        },
{
    match run {
        Some(raw) => if raw.len() < FRAME_SIZE {
            None
        } else {
            Some(frame_hashes(raw.as_slice()))
        },
        None => None,
    }
}

fn take_seek(runs: &Vec<Option<Vec<u8>>>) -> (r: Option<Vec<u64>>)
    ensures
        match r {
            Some(f) => frames_seek(run_views(runs@)) == Some(f@),
            None => frames_seek(run_views(runs@)) is None,
        },
{
    let ghost views = run_views(runs@);
    let mut out: Vec<u64> = Vec::new();
    let mut i: usize = 0;
    while i < runs.len()
        invariant
            0 <= i <= runs@.len(),
            views == run_views(runs@),
            out@.len() == i,
            forall|j: int| 0 <= j < i ==> has_frame(#[trigger] views[j]),
            forall|j: int|
                0 <= j < i ==> #[trigger] out@[j] == fingerprint::dhash_of(
                    9,
                    8,
                    (views[j]->0).take(72),
                ),
        decreases runs@.len() - i,
    {
        assert(views[i as int] == run_view(runs@[i as int]));
        match &runs[i] {
            Some(raw) => {
                if raw.len() < FRAME_SIZE {
                    assert(!has_frame(views[i as int]));
                    return None;
                }
                let frame = slice_subrange(raw.as_slice(), 0, FRAME_SIZE);
                assert(frame@ =~= raw@.take(72));
                out.push(dhash_gray(9, 8, frame));
            },
            None => {
                assert(!has_frame(views[i as int]));
                return None;
            },
        }
        i = i + 1;
    }
    assert(out@ =~= views.map_values(
        |r: Option<Seq<u8>>| fingerprint::dhash_of(9, 8, (r->0).take(72)),
    ));
    Some(out)
}

fn take_oneshot(run: &Option<Vec<u8>>) -> (r: Option<Vec<u64>>)
    ensures
        match r {
            Some(f) => frames_oneshot(run_view(*run)) == Some(f@) && f@.len() <= 8,
            None => frames_oneshot(run_view(*run)) is None,
        },
{
    let all = match take_pass(run) {
        Some(f) => f,
        None => {
            return None;
        },
    };
    let n = all.len();
    if n <= SIMILAR_FRAMES {
        return Some(all);
    }
    let mut out: Vec<u64> = Vec::new();
    let mut i: usize = 0;
    while i < SIMILAR_FRAMES
        invariant
            0 <= i <= 8,
            n == all@.len(),
            n > 8,
            out@.len() == i,
            forall|j: int| 0 <= j < i ==> #[trigger] out@[j] == all@[(j * n + 4) / 8],
        decreases 8 - i,
    {
        let ghost k = i as int;
        let ghost m = n as int;
        proof {
            assert(0 <= k * m <= 7 * m) by (nonlinear_arith)
                requires
                    0 <= k <= 7,
                    m > 0,
            ;
        }
        let at: u128 = (i as u128 * n as u128 + 4) / 8;
        out.push(all[at as usize]);
        i = i + 1;
    }
    assert(out@ =~= subsample(all@));
    Some(out)
}

/// Makes the fingerprint of a video from what the decoder wrote in the runs
/// that `sampling` asks for; `None` stands for a run that failed.
pub fn video_fingerprint(
    entry: FileEntry,
    probe: &Option<MediaInfo>,
    runs: &Vec<Option<Vec<u8>>>,
) -> (r: Option<VideoFp>)
    requires
        runs@.len() == run_count(sampling_of(media::info_view(*probe))),
    ensures
        match r {
            Some(fp) => fingerprint_of(entry@, media::info_view(*probe), run_views(runs@)) == Some(
                fp@,
            ),
            None => fingerprint_of(entry@, media::info_view(*probe), run_views(runs@)) is None,
        },
{
    let (w, h, duration) = match probe {
        Some(info) => match (info.width, info.height) {
            (Some(w), Some(h)) => (w, h, info.duration_ms),
            _ => {
                return None;
            },
        },
        None => (0, 0, None),
    };
    assert(runs@.len() > 0 ==> run_views(runs@)[0] == run_view(runs@[0]));
    match duration {
        Some(duration_ms) => {
            if duration_ms == 0 {
                return None;
            }
            let frames = if duration_ms <= SEEK_THRESHOLD_MS {
                take_pass(&runs[0])
            } else {
                take_seek(runs)
            };
            match frames {
                Some(frames) => Some(VideoFp { entry, w, h, duration_ms, frames }),
                None => None,
            }
        },
        None => match take_oneshot(&runs[0]) {
            Some(frames) => {
                let duration_ms: u64 = frames.len() as u64 * 1000;
                Some(VideoFp { entry, w, h, duration_ms, frames })
            },
            None => None,
        },
    }
}

/// A fingerprint has the size that the probe found, and the duration where it
/// found one. Without a probe it has no size.
pub proof fn lemma_fingerprint_agrees(
    entry: EntryView,
    probe: Option<MediaView>,
    runs: Seq<Option<Seq<u8>>>,
)
    requires
        fingerprint_of(entry, probe, runs) is Some,
    ensures
        ({
            let fp = fingerprint_of(entry, probe, runs)->0;
            &&& fp.entry == entry
            &&& match probe {
                Some(info) => {
                    &&& probed_size(info) == Some((fp.w, fp.h))
                    &&& info.duration_ms matches Some(ms) ==> fp.duration_ms == ms
                },
                None => fp.w == 0 && fp.h == 0,
            }
        }),
{
}

/// How far apart durations may be: two seconds, or 5% of the longer one,
/// whichever is bigger. The percentage is computed in double precision.
pub open spec fn tolerance(a: u64, b: u64) -> u64 {
    let longer = if a > b {
        a
    } else {
        b
    };
    let part = binary64::clamp64(
        binary64::float_floor(
            binary64::float_mul(binary64::nearest(longer as nat, 1), binary64::nearest(1, 20)),
        ),
    );
    if part > 2_000 {
        part
    } else {
        2_000
    }
}

/// The durations are within the tolerance.
pub open spec fn durations_near(a: u64, b: u64) -> bool {
    a - b <= tolerance(a, b) && b - a <= tolerance(a, b)
}

/// Durations within 2s (or 5% of the longer one, whichever is bigger) may be
/// the same video re-encoded; anything else cannot be.
pub fn durations_close(a_ms: u64, b_ms: u64) -> (r: bool)
    ensures
        r == durations_near(a_ms, b_ms),
{
    let (longer, diff) = if a_ms > b_ms {
        (a_ms, a_ms - b_ms)
    } else {
        (b_ms, b_ms - a_ms)
    };
    let part = Binary64::from_u64(longer).mul(Binary64::ratio(1, 20)).floor();
    let tol: u64 = if part > 2_000 {
        part
    } else {
        2_000
    };
    diff <= tol
}

/// Whether durations are close does not depend on their order.
pub proof fn lemma_durations_near(a: u64, b: u64)
    ensures
        durations_near(a, b) == durations_near(b, a),
        durations_near(a, a),
{
}

/// One twentieth, rounded.
proof fn lemma_twentieth()
    ensures
        binary64::nearest(1, 20) == (Float { mant: 7205759403792794, exp: -57 }),
{
    vstd::arithmetic::power2::lemma2_to64();
    vstd::arithmetic::power2::lemma2_to64_rest();
    assert(binary64::over(1, 57) == 0x200_0000_0000_0000);
    assert(binary64::under(20, 57) == 20);
    assert(binary64::in_binade(1, 20, -57));
    binary64::lemma_nearest_in(1, 20, -57);
}

/// Five percent of an integer, as it is computed, is close to five percent.
proof fn lemma_part_close(n: nat)
    requires
        0 < n <= u64::MAX,
    ensures
        ({
            let z = binary64::float_mul(binary64::nearest(n, 1), binary64::nearest(1, 20));
            z.exp + 121 >= 0 && accuracy::close(20 * accuracy::units(z, 121), n * pow2(121))
        }),
{
    vstd::arithmetic::power2::lemma2_to64();
    vstd::arithmetic::power2::lemma2_to64_rest();
    lemma_twentieth();
    let x = binary64::nearest(n, 1);
    let y = binary64::nearest(1, 20);
    binary64::lemma_nearest_range(n, 1, 0, 64);
    accuracy::lemma_nearest(n, 1, 64);
    accuracy::lemma_nearest(1, 20, 58);
    accuracy::lemma_mul(x, y, 63, 58);
    accuracy::lemma_units_scale(x, 63, 1);
    let z = binary64::float_mul(x, y);
    let u = accuracy::units(x, 63);
    let v = accuracy::units(y, 58);
    let w = accuracy::units(z, 121);
    let n63 = n * pow2(63);
    assert(accuracy::near(u, n63)) by {
        let h = binary64::MANT_HIGH as int;
        let p64 = pow2(64);
        let p63 = pow2(63);
        let n64 = n * p64;
        assert(n64 == 2 * n63) by (nonlinear_arith)
            requires
                n64 == n * p64,
                n63 == n * p63,
                p64 == 2 * p63,
        ;
    }
    accuracy::lemma_near_times(w, u * v, 20);
    assert(20 * (u * v) == u * (v * 20)) by (nonlinear_arith);
    accuracy::lemma_close_product(n63, 1 * pow2(58), u, v * 20, 20 * w);
    vstd::arithmetic::power2::lemma_pow2_adds(63, 58);
    let p63 = pow2(63);
    let p58 = pow2(58);
    assert((n * p63) * (1 * p58) == n * (p63 * p58)) by (nonlinear_arith);
}

/// Five percent of a duration are at least what they should be, as an integer,
/// as long as the duration has at most 53 bits.
proof fn lemma_part_reached(n: nat, q: nat)
    requires
        0 < n < binary64::MANT_HIGH,
        0 < q,
        20 * q <= n,
    ensures
        q <= binary64::float_floor(
            binary64::float_mul(binary64::nearest(n, 1), binary64::nearest(1, 20)),
        ),
{
    vstd::arithmetic::power2::lemma2_to64();
    vstd::arithmetic::power2::lemma2_to64_rest();
    lemma_twentieth();
    let x = binary64::nearest(n, 1);
    let y = binary64::nearest(1, 20);
    let d = binary64::nearest(q, 1);
    accuracy::lemma_small(n, 64);
    accuracy::lemma_small(q, 64);
    let shift = (57 - x.exp) as nat;
    let s = (x.exp + 64) as nat;
    let m = q * pow2(shift);
    let prod = x.mant * y.mant;
    let z = binary64::float_mul(x, y);
    let r = binary64::nearest(prod, 1);
    vstd::arithmetic::power2::lemma_pow2_pos(s);
    vstd::arithmetic::power2::lemma_pow2_adds(shift, s);
    vstd::arithmetic::power2::lemma_pow2_adds(57, 64);
    let ps = pow2(s);
    let p57 = pow2(57);
    let p64 = pow2(64);
    let psh = pow2(shift);
    let xm = x.mant;
    let ym = y.mant;
    assert(m <= prod) by (nonlinear_arith)
        requires
            m == q * psh,
            prod == xm * ym,
            xm * ps == n * p64,
            psh * ps == p57 * p64,
            20 * ym >= p57,
            20 * q <= n,
            ps > 0,
            p64 > 0,
            q > 0,
    {
        assert(m * ps == q * (psh * ps));
        assert(prod * ps == (xm * ps) * ym);
        assert((n * p64) * ym == (n * ym) * p64);
        assert(n * ym >= (20 * q) * ym);
        assert((20 * q) * ym == q * (20 * ym));
        assert(q * (20 * ym) >= q * p57);
        assert((n * ym) * p64 >= (q * p57) * p64);
        assert(q * (p57 * p64) == (q * p57) * p64);
        assert(prod * ps >= m * ps);
    }
    let v = Float { mant: d.mant, exp: d.exp + shift };
    accuracy::lemma_units_scale(d, 64, shift);
    let vu = accuracy::units(v, 64);
    assert(vu * 1 == m * p64) by (nonlinear_arith)
        requires
            vu == (q * p64) * psh,
            m == q * psh,
    ;
    accuracy::lemma_exact(m, 1, v, 64);
    binary64::lemma_nearest_grows(m, prod, 1);
    accuracy::lemma_mul(x, y, 64, 58);
    accuracy::lemma_ge(r, v, 64);
    assert(r.mant > 0);
    let k = (64 + shift) as nat;
    assert(accuracy::units(z, k as int) == accuracy::units(r, 64));
    vstd::arithmetic::power2::lemma_pow2_adds(shift, 64);
    assert(q * (psh * p64) == m * p64) by (nonlinear_arith)
        requires
            m == q * psh,
    ;
    accuracy::lemma_floor(z, k, q);
}

/// Where five percent of a duration stand to a difference.
proof fn lemma_part(n: nat, q: nat)
    requires
        n <= u64::MAX,
    ensures
        ({
            let part = binary64::float_floor(
                binary64::float_mul(binary64::nearest(n, 1), binary64::nearest(1, 20)),
            );
            &&& 20 * q * 0x8_0000_0000_0000 <= n * 0x7_ffff_ffff_ffff ==> q <= part
            &&& 20 * q * 0x8_0000_0000_0000 > n * 0x8_0000_0000_0001 ==> q > part
            &&& n < 0x8_0000_0000_0000 ==> (q <= part <==> 20 * q <= n)
        }),
{
    let z = binary64::float_mul(binary64::nearest(n, 1), binary64::nearest(1, 20));
    if n == 0 {
        let y = binary64::nearest(1, 20).mant;
        assert(0 * y == 0);
        assert(z == binary64::float_zero());
        vstd::arithmetic::power2::lemma2_to64();
        assert(binary64::float_floor(z) == 0);
    } else {
        lemma_part_close(n);
        let w = accuracy::units(z, 121);
        let p = pow2(121);
        vstd::arithmetic::power2::lemma_pow2_pos(121);
        accuracy::lemma_floor(z, 121, q);
        let c: int = 0x8_0000_0000_0000;
        let np = (n * p) as int;
        assert(20 * q * c <= n * (c - 1) ==> q * p <= w) by (nonlinear_arith)
            requires
                c * (np - 20 * w) <= np,
                np == n * p,
                p > 0,
                c > 1,
        {
            if 20 * q * c <= n * (c - 1) {
                assert((20 * q * c) * p <= (n * (c - 1)) * p);
                assert((n * (c - 1)) * p == (c - 1) * np);
                assert((20 * q * c) * p == c * (20 * (q * p)));
                assert(c * (20 * w) >= (c - 1) * np);
                assert(c * (20 * (q * p)) <= c * (20 * w));
            }
        }
        assert(20 * q * c > n * (c + 1) ==> q * p > w) by (nonlinear_arith)
            requires
                c * (20 * w - np) <= np,
                np == n * p,
                p > 0,
                c > 1,
        {
            if 20 * q * c > n * (c + 1) {
                assert((20 * q * c) * p > (n * (c + 1)) * p);
                assert((n * (c + 1)) * p == (c + 1) * np);
                assert((20 * q * c) * p == c * (20 * (q * p)));
                assert(c * (20 * w) <= (c + 1) * np);
                assert(c * (20 * (q * p)) > c * (20 * w));
            }
        }
        if n < 0x8_0000_0000_0000 && q > 0 && 20 * q <= n {
            lemma_part_reached(n, q);
        }
    }
}

/// Two durations differ by so much.
pub open spec fn apart(a: u64, b: u64) -> nat {
    if a > b {
        (a - b) as nat
    } else {
        (b - a) as nat
    }
}

/// Durations that differ by two seconds at most are close, however long they
/// are.
pub proof fn lemma_close_by_seconds(a: u64, b: u64)
    requires
        a <= b + 2_000,
        b <= a + 2_000,
    ensures
        durations_near(a, b),
{
}

/// Durations are close exactly where they differ by two seconds at most or by
/// one twentieth of the longer one at most: of all that are shorter than `2^51`
/// milliseconds, which is more than seventy thousand years.
pub proof fn lemma_close_by_part(a: u64, b: u64)
    requires
        a < 0x8_0000_0000_0000,
        b < 0x8_0000_0000_0000,
    ensures
        a >= b ==> (durations_near(a, b) <==> a - b <= 2_000 || 20 * (a - b) <= a),
        b >= a ==> (durations_near(a, b) <==> b - a <= 2_000 || 20 * (b - a) <= b),
{
    if a >= b {
        lemma_part(a as nat, (a - b) as nat);
    }
    if b >= a {
        lemma_part(b as nat, (b - a) as nat);
    }
}

/// The same of all durations, up to rounding: what differs by less than one
/// twentieth of the longer one, by a part of it in `2^51` or more, is close, and
/// what differs by more than two seconds and by more than one twentieth, by such
/// a part or more, is not.
pub proof fn lemma_close_up_to_rounding(a: u64, b: u64)
    ensures
        ({
            let longer = if a > b {
                a
            } else {
                b
            };
            &&& 20 * apart(a, b) * 0x8_0000_0000_0000 <= longer * 0x7_ffff_ffff_ffff
                ==> durations_near(a, b)
            &&& apart(a, b) > 2_000 && 20 * apart(a, b) * 0x8_0000_0000_0000 > longer
                * 0x8_0000_0000_0001 ==> !durations_near(a, b)
        }),
{
    let longer = if a > b {
        a
    } else {
        b
    };
    lemma_part(longer as nat, apart(a, b));
}

/// Frame sequences of these lengths can be compared. Longer ones than any
/// address space holds are left out.
pub open spec fn frames_comparable(m: nat, n: nat) -> bool {
    &&& fingerprint::windows_meet(m, n, 2)
    &&& m <= 0x1000_0000_0000
    &&& n <= 0x1000_0000_0000
    &&& m + 2 <= usize::MAX
    &&& n + 2 <= usize::MAX
}

fn can_compare_frames(m: usize, n: usize) -> (r: bool)
    ensures
        r == frames_comparable(m as nat, n as nat),
{
    (m == 0 || n == 0 || m as u128 <= n as u128 + 3) && m as u64 <= 0x1000_0000_0000 && n as u64
        <= 0x1000_0000_0000 && m <= usize::MAX - 2 && n <= usize::MAX - 2
}

/// The fingerprint is like that of a leader: the durations are close and the
/// frames are alike.
pub open spec fn video_like(a: VideoView, leader: VideoView, threshold: Float) -> bool {
    durations_near(a.duration_ms, leader.duration_ms) && binary64::float_ge(
        fingerprint::sequence_likeness(a.frames, leader.frames, 2),
        threshold,
    )
}

/// The fingerprint can be compared with that of a leader: frames only have to
/// be compared where the durations are close.
pub open spec fn video_comparable(a: VideoView, leader: VideoView) -> bool {
    durations_near(a.duration_ms, leader.duration_ms) ==> frames_comparable(
        a.frames.len(),
        leader.frames.len(),
    )
}

impl SortKey for VideoFp {
    open spec fn sort_key(&self) -> Seq<Seq<int>> {
        self.entry.path@.key()
    }

    fn rank(&self, other: &Self) -> (r: Rank) {
        self.entry.path.rank(&other.entry.path)
    }
}

impl Likeable for VideoFp {
    open spec fn comparable(&self, leader: &Self) -> bool {
        video_comparable(self@, leader@)
    }

    open spec fn like(&self, leader: &Self, threshold: Binary64) -> bool {
        video_like(self@, leader@, threshold@)
    }

    fn can_compare(&self, leader: &Self) -> (r: bool) {
        !durations_close(self.duration_ms, leader.duration_ms) || can_compare_frames(
            self.frames.len(),
            leader.frames.len(),
        )
    }

    fn is_like(&self, leader: &Self, threshold: Binary64) -> (r: bool) {
        durations_close(self.duration_ms, leader.duration_ms) && frame_seq_similarity(
            &self.frames,
            &leader.frames,
            FRAME_WINDOW,
        ).at_least(threshold)
    }
}

/// What two fingerprints of a list have to do with each other.
pub open spec fn video_likes(fps: Seq<VideoView>, threshold: Float) -> spec_fn(
    usize,
    usize,
) -> bool {
    |i: usize, j: usize|
        i < fps.len() && j < fps.len() && video_like(fps[i as int], fps[j as int], threshold)
}

/// Which fingerprints of a list can be compared.
pub open spec fn video_compares(fps: Seq<VideoView>) -> spec_fn(usize, usize) -> bool {
    |i: usize, j: usize|
        i < fps.len() && j < fps.len() ==> video_comparable(fps[i as int], fps[j as int])
}

/// The keys by which fingerprints are sorted: the paths of their files.
pub open spec fn video_keys(fps: Seq<VideoView>) -> Seq<Seq<Seq<int>>> {
    fps.map_values(|f: VideoView| f.entry.path.key())
}

/// How alike the videos of a cluster are: the frames of each one against those
/// of each one before it.
pub open spec fn video_pairs(fps: Seq<VideoView>, cluster: Seq<usize>) -> Seq<Seq<Float>> {
    Seq::new(
        cluster.len(),
        |i: int|
            Seq::new(
                i as nat,
                |j: int|
                    fingerprint::sequence_likeness(
                        fps[cluster[i] as int].frames,
                        fps[cluster[j] as int].frames,
                        2,
                    ),
            ),
    )
}

/// The group that a cluster of videos makes.
pub open spec fn video_group(fps: Seq<VideoView>, cluster: Seq<usize>) -> SimilarGroupView {
    let pairs = video_pairs(fps, cluster);
    SimilarGroupView {
        kind: MediaKind::Video,
        members: Seq::new(
            cluster.len(),
            |k: int|
                SimilarMemberView {
                    entry: fps[cluster[k] as int].entry,
                    similarity: if k == 0 {
                        binary64::float_one()
                    } else {
                        pairs[k][0]
                    },
                    w: fps[cluster[k] as int].w,
                    h: fps[cluster[k] as int].h,
                },
        ),
        pairs,
    }
}

/// The number of frames is no larger than any address space holds.
pub open spec fn frames_fit(n: nat) -> bool {
    n <= 0x1000_0000_0000 && n + 2 <= usize::MAX
}

/// All videos of the cluster have numbers of frames that can be handled.
pub open spec fn cluster_fits(fps: Seq<VideoFp>, cluster: Seq<usize>) -> bool {
    forall|k: int|
        0 <= k < cluster.len() ==> frames_fit(
            fps[#[trigger] cluster[k] as int].frames@.len(),
        )
}

/// Compares a video of a cluster with each one before it.
fn video_row(fps: &Vec<VideoFp>, cluster: &Vec<usize>, k: usize) -> (row: Vec<Binary64>)
    requires
        k < cluster@.len(),
        order::all_below(cluster@, fps@.len()),
        cluster_fits(fps@, cluster@),
    ensures
        binary64::floats(row@) == video_pairs(video_views(fps@), cluster@)[k as int],
        similar::proper_row(row@, k as nat),
{
    let ghost expected = video_pairs(video_views(fps@), cluster@)[k as int];
    let mut row: Vec<Binary64> = Vec::new();
    let mut j: usize = 0;
    while j < k
        invariant
            0 <= j <= k < cluster@.len(),
            order::all_below(cluster@, fps@.len()),
            cluster_fits(fps@, cluster@),
            expected == video_pairs(video_views(fps@), cluster@)[k as int],
            similar::proper_row(row@, j as nat),
            forall|i: int| 0 <= i < j ==> (#[trigger] row@[i])@ == expected[i],
        decreases k - j,
    {
        row.push(mean_of_best(&fps[cluster[k]].frames, &fps[cluster[j]].frames, FRAME_WINDOW));
        j = j + 1;
    }
    assert(binary64::floats(row@) =~= expected);
    row
}

/// Makes the group of a cluster of videos.
pub fn make_video_group(fps: &Vec<VideoFp>, cluster: &Vec<usize>) -> (g: SimilarGroup)
    requires
        cluster@.len() > 0,
        order::all_below(cluster@, fps@.len()),
        cluster_fits(fps@, cluster@),
    ensures
        g@ == video_group(video_views(fps@), cluster@),
        similar::proper_group(g),
{
    let ghost expected = video_group(video_views(fps@), cluster@);
    let mut members: Vec<SimilarMember> = Vec::new();
    let mut pairs: Vec<Vec<Binary64>> = Vec::new();
    let mut k: usize = 0;
    while k < cluster.len()
        invariant
            0 <= k <= cluster@.len(),
            cluster@.len() > 0,
            order::all_below(cluster@, fps@.len()),
            cluster_fits(fps@, cluster@),
            expected == video_group(video_views(fps@), cluster@),
            members@.len() == k,
            forall|j: int| 0 <= j < k ==> (#[trigger] members@[j])@ == expected.members[j],
            pairs@.len() == k,
            forall|j: int|
                0 <= j < k ==> binary64::floats((#[trigger] pairs@[j])@) == expected.pairs[j],
            forall|j: int| 0 <= j < k ==> similar::proper_row((#[trigger] pairs@[j])@, j as nat),
        decreases cluster@.len() - k,
    {
        let fp = &fps[cluster[k]];
        let row = video_row(fps, cluster, k);
        let similarity = if k == 0 {
            Binary64::one()
        } else {
            row[0]
        };
        assert(k > 0 ==> binary64::floats(row@)[0] == expected.pairs[k as int][0]);
        members.push(SimilarMember { entry: fp.entry.clone(), similarity, w: fp.w, h: fp.h });
        pairs.push(row);
        k = k + 1;
    }
    assert(similar::similar_views(members@) =~= expected.members);
    assert(similar::pair_views(pairs@) =~= expected.pairs);
    SimilarGroup { kind: MediaKind::Video, members, pairs }
}

/// The groups of similar videos, bucket by bucket.
pub open spec fn video_groups(
    fps: Seq<VideoView>,
    buckets: Seq<Seq<usize>>,
    threshold: Float,
) -> Seq<SimilarGroupView> {
    cluster::clusters_in(video_keys(fps), buckets, video_likes(fps, threshold)).map_values(
        |c: Seq<usize>| video_group(fps, c),
    )
}

/// All videos that have to be compared can be: none has many more frames than
/// the one it is compared with.
pub open spec fn videos_defined(
    fps: Seq<VideoView>,
    buckets: Seq<Seq<usize>>,
    threshold: Float,
) -> bool {
    cluster::buckets_defined(
        video_keys(fps),
        buckets,
        video_likes(fps, threshold),
        video_compares(fps),
    )
}

/// Groups similar videos, within each bucket and in the order of their paths.
/// There is no result where two videos would have to be compared that cannot
/// be.
pub fn cluster_videos(fps: &Vec<VideoFp>, buckets: &Vec<Vec<usize>>, threshold: Binary64) -> (r:
    Option<Vec<SimilarGroup>>)
    requires
        cluster::buckets_within(buckets@, fps@.len()),
        threshold@.normal(),
    ensures
        ({
            let views = video_views(fps@);
            let parts = cluster::cluster_views(buckets@);
            match r {
                Some(groups) => {
                    &&& videos_defined(views, parts, threshold@)
                    &&& similar::similar_group_views(groups@) == video_groups(
                        views,
                        parts,
                        threshold@,
                    )
                    &&& similar::proper_groups(groups@)
                },
                None => !videos_defined(views, parts, threshold@),
            }
        }),
{
    let ghost views = video_views(fps@);
    let ghost keys = video_keys(views);
    let ghost like = video_likes(views, threshold@);
    let ghost comparable = video_compares(views);
    proof {
        assert(order::keys_of(fps@) =~= keys);
        assert(cluster::likes(fps@, threshold) =~= like);
        assert(cluster::compares(fps@) =~= comparable);
    }
    let clusters = match cluster_buckets(fps, buckets, threshold) {
        Some(c) => c,
        None => {
            return None;
        },
    };
    let mut out: Vec<SimilarGroup> = Vec::new();
    let ghost all = cluster::cluster_views(clusters@);
    proof {
        assert forall|c: int| 0 <= c < all.len() implies (#[trigger] all[c]).len() >= 2 by {
            cluster::lemma_listed_clusters(keys, cluster::cluster_views(buckets@), like, c);
        }
    }
    let mut c: usize = 0;
    while c < clusters.len()
        invariant
            0 <= c <= clusters@.len(),
            all == cluster::cluster_views(clusters@),
            cluster::within(all, fps@.len()),
            views == video_views(fps@),
            like == video_likes(views, threshold@),
            comparable == video_compares(views),
            cluster::led(all, like, comparable),
            forall|c: int| 0 <= c < all.len() ==> (#[trigger] all[c]).len() >= 2,
            out@.len() == c,
            forall|j: int| 0 <= j < c ==> (#[trigger] out@[j])@ == video_group(views, all[j]),
            similar::proper_groups(out@),
        decreases clusters@.len() - c,
    {
        let ghost members = all[c as int];
        proof {
            assert(members == clusters@[c as int]@);
            assert(members.len() >= 2);
            assert(members[0] < fps@.len() && members[1] < fps@.len());
            assert forall|k: int| 0 <= k < members.len() implies frames_fit(
                fps@[#[trigger] members[k] as int].frames@.len(),
            ) by {
                assert(members[k] < fps@.len());
                let j = if k == 0 {
                    1
                } else {
                    k
                };
                assert(like(all[c as int][j], all[c as int][0]));
                assert(views[members[j] as int] == fps@[members[j] as int]@);
                assert(views[members[0] as int] == fps@[members[0] as int]@);
            }
        }
        out.push(make_video_group(fps, &clusters[c]));
        c = c + 1;
    }
    assert(similar::similar_group_views(out@) =~= all.map_values(
        |c: Seq<usize>| video_group(views, c),
    ));
    Some(out)
}

/// What videos are compared by: their resolutions.
pub open spec fn resolution_idents(fps: Seq<VideoView>) -> Seq<Option<Seq<int>>> {
    fps.map_values(|f: VideoView| Some(seq![f.w as int, f.h as int]))
}

/// Puts videos with the same resolution into one bucket.
pub fn video_buckets(fps: &Vec<VideoFp>) -> (buckets: Vec<Vec<usize>>)
    ensures
        bucket::is_partition(resolution_idents(video_views(fps@)), buckets@),
        cluster::buckets_within(buckets@, fps@.len()),
{
    let ghost ids = resolution_idents(video_views(fps@));
    let mut keys: Vec<Option<(u32, u32)>> = Vec::new();
    let mut i: usize = 0;
    while i < fps.len()
        invariant
            0 <= i <= fps@.len(),
            keys@.len() == i,
            forall|j: int| 0 <= j < i ==> #[trigger] keys@[j] == Some((fps@[j].w, fps@[j].h)),
        decreases fps@.len() - i,
    {
        keys.push(Some((fps[i].w, fps[i].h)));
        i = i + 1;
    }
    assert(bucket::idents(keys@) =~= ids);
    let buckets = group_positions(&keys);
    proof {
        similar::lemma_classes_within(ids, buckets@);
    }
    buckets
}

/// How frames are taken from a video depends on what was found of it. Without a
/// probe, or with a size but no duration: in one pass over the whole stream.
/// Without a size, or with a duration of zero: not at all. With both: in one
/// pass where it lasts a minute and a half at most, and at eight times where it
/// lasts longer.
pub proof fn lemma_sampling(info: MediaView, w: u32, h: u32, ms: u64)
    ensures
        sampling_of(None) is OneShot,
        info.width is None || info.height is None ==> sampling_of(Some(info)) is Nothing,
        info.width == Some(w) && info.height == Some(h) && info.duration_ms is None ==> sampling_of(
            Some(info),
        ) is OneShot,
        info.width == Some(w) && info.height == Some(h) && info.duration_ms == Some(0u64)
            ==> sampling_of(Some(info)) is Nothing,
        info.width == Some(w) && info.height == Some(h) && info.duration_ms == Some(ms) && 0 < ms
            <= 90 * 1000 ==> sampling_of(Some(info)) is Pass,
        info.width == Some(w) && info.height == Some(h) && info.duration_ms == Some(ms) && ms > 90
            * 1000 ==> sampling_of(Some(info)) is Seek && sampling_of(Some(info))->Seek_0.len()
            == 8,
{
}

/// A duration in seconds is its milliseconds divided by a thousand, up to
/// rounding.
pub proof fn lemma_seconds(ms: u64)
    requires
        0 < ms < binary64::MANT_HIGH,
    ensures
        accuracy::close(1000 * seconds(ms).above(), ms as nat * seconds(ms).below()),
{
    accuracy::lemma_ratio_of_small(ms as nat, 1000);
    let x = seconds(ms);
    accuracy::lemma_near_close(1000 * accuracy::units(x, 106), ms as nat * pow2(106));
    accuracy::lemma_close_fraction(x, 106, 1000, ms as nat);
}

/// Half of an odd number, which is exact.
proof fn lemma_half(i: nat)
    requires
        i < 8,
    ensures
        ({
            let x = binary64::nearest(2 * i + 1, 2);
            &&& binary64::MANT_LOW <= x.mant < binary64::MANT_HIGH
            &&& -53 <= x.exp <= 0
            &&& accuracy::units(x, 53) == (2 * i + 1) * pow2(52)
        }),
{
    let n = 2 * i + 1;
    accuracy::lemma_small(n, 52);
    let y = binary64::nearest(n, 1);
    let x = Float { mant: y.mant, exp: y.exp - 1 };
    assert(accuracy::units(x, 53) == accuracy::units(y, 52));
    binary64::lemma_pow2_step(52);
    let p = pow2(52);
    assert((n * p) * 2 == n * (2 * p)) by (nonlinear_arith);
    accuracy::lemma_exact(n, 2, x, 53);
}

/// The samples of a long video are taken in the middle of its eighths: sample
/// `i` at `2 * i + 1` sixteenths of the duration, up to rounding.
pub proof fn lemma_seek_time(ms: u64, i: nat)
    requires
        0 < ms < binary64::MANT_HIGH,
        i < 8,
    ensures
        accuracy::close(
            16 * 1000 * seek_time(ms, i).above(),
            ms as nat * (2 * i + 1) * seek_time(ms, i).below(),
        ),
{
    let n = ms as nat;
    let odd = 2 * i + 1;
    accuracy::lemma_ratio_of_small(n, 1000);
    lemma_half(i);
    accuracy::lemma_small(8, 52);
    let s = seconds(ms);
    let half = binary64::nearest(odd, 2);
    let m = binary64::float_mul(s, half);
    let eight = binary64::nearest(8, 1);
    let t = seek_time(ms, i);
    accuracy::lemma_mul(s, half, 106, 53);
    accuracy::lemma_div(m, eight, 160, 52);
    let su = accuracy::units(s, 106);
    let hu = accuracy::units(half, 53);
    let mu = accuracy::units(m, 159);
    let tu = accuracy::units(t, 160);
    let p52 = pow2(52);
    let p53 = pow2(53);
    let p106 = pow2(106);
    let p159 = pow2(159);
    binary64::lemma_pow2_step(52);
    accuracy::lemma_units_scale(m, 159, 53);
    assert(tu * (8 * p52) == (8 * tu) * p52 && mu * p53 == (2 * mu) * p52) by (nonlinear_arith)
        requires
            p53 == 2 * p52,
    ;
    accuracy::lemma_near_divide(8 * tu, 2 * mu, p52);
    accuracy::lemma_near_times(8 * tu, 2 * mu, 1000);
    accuracy::lemma_near_times(mu, su * hu, 2000);
    accuracy::lemma_near_times(1000 * su, n * p106, 2 * hu);
    assert(2000 * (su * hu) == 2 * hu * (1000 * su)) by (nonlinear_arith);
    assert(1000 * (2 * mu) == 2000 * mu);
    accuracy::lemma_close_chain(
        1000 * (8 * tu),
        2000 * mu,
        2 * hu * (1000 * su),
        2 * hu * (n * p106),
    );
    vstd::arithmetic::power2::lemma_pow2_adds(52, 106);
    binary64::lemma_pow2_step(158);
    binary64::lemma_pow2_step(159);
    let p158 = pow2(158);
    let p160 = pow2(160);
    let no = n * odd;
    let target = 2 * hu * (n * p106);
    assert(target * 2 == no * p160) by (nonlinear_arith)
        requires
            target == 2 * hu * (n * p106),
            hu == odd * p52,
            p158 == p52 * p106,
            p159 == 2 * p158,
            p160 == 2 * p159,
            no == n * odd,
    ;
    accuracy::lemma_close_times(1000 * (8 * tu), target, 2);
    assert((1000 * (8 * tu)) * 2 == 16000 * tu);
    accuracy::lemma_close_fraction(t, 160, 16000, no);
}

/// Of more than eight frames, eight are kept: for sample `i` the one nearest to
/// `i` eighths of the way. Eight frames or fewer are all kept.
pub proof fn lemma_subsample(all: Seq<u64>, i: int, k: int)
    ensures
        all.len() <= 8 ==> subsample(all) == all,
        all.len() > 8 ==> subsample(all).len() == 8,
        all.len() > 8 && 0 <= i < 8 && i * all.len() - 4 < 8 * k <= i * all.len() + 4 ==> 0 <= k
            < all.len() && subsample(all)[i] == all[k],
{
    if all.len() > 8 && 0 <= i < 8 && i * all.len() - 4 < 8 * k <= i * all.len() + 4 {
        let n = all.len();
        assert(i * n <= 7 * n && i * n >= 0) by (nonlinear_arith)
            requires
                0 <= i <= 7,
        ;
        assert((i * n + 4) / 8 == k);
    }
}

/// What the decoder wrote is taken for frames where each run wrote a whole one,
/// and not at all where one of them failed or wrote less.
pub proof fn lemma_seek_frames(runs: Seq<Option<Seq<u8>>>, i: int)
    requires
        0 <= i < runs.len(),
    ensures
        runs[i] is None || (runs[i]->0).len() < 72 ==> frames_seek(runs) is None,
        frames_seek(runs) is Some ==> (frames_seek(runs)->0).len() == runs.len() && (
        frames_seek(runs)->0)[i] == fingerprint::frames_in(runs[i]->0)[0],
        (forall|k: int|
            0 <= k < runs.len() ==> (#[trigger] runs[k]) is Some && (runs[k]->0).len() >= 72)
            ==> frames_seek(runs) is Some,
{
    if runs[i] is None || (runs[i]->0).len() < 72 {
        assert(!has_frame(runs[i]));
    }
    if frames_seek(runs) is Some {
        assert(has_frame(runs[i]));
        let raw = runs[i]->0;
        assert(raw.subrange(0, 72) =~= raw.take(72));
    }
    if forall|k: int|
        0 <= k < runs.len() ==> (#[trigger] runs[k]) is Some && (runs[k]->0).len() >= 72 {
        assert forall|k: int| 0 <= k < runs.len() implies has_frame(#[trigger] runs[k]) by {}
    }
}

/// One pass gives all whole frames that the decoder wrote, and none where it
/// failed or wrote less than one.
pub proof fn lemma_pass_frames(raw: Seq<u8>)
    ensures
        frames_pass(None) is None,
        raw.len() < 72 ==> frames_pass(Some(raw)) is None,
        raw.len() >= 72 ==> frames_pass(Some(raw)) == Some(fingerprint::frames_in(raw)),
        frames_oneshot(None) is None,
        raw.len() < 72 ==> frames_oneshot(Some(raw)) is None,
        raw.len() >= 72 ==> frames_oneshot(Some(raw)) == Some(
            subsample(fingerprint::frames_in(raw)),
        ),
{
}

/// The fingerprint of a video has the size and the duration that were found. A
/// size that was not found is zero by zero, and a duration that was not found is
/// a second for each frame.
pub proof fn lemma_fingerprint_fields(
    entry: EntryView,
    probe: Option<MediaView>,
    runs: Seq<Option<Seq<u8>>>,
)
    requires
        fingerprint_of(entry, probe, runs) is Some,
    ensures
        ({
            let fp = fingerprint_of(entry, probe, runs)->0;
            &&& fp.entry == entry
            &&& match probe {
                None => fp.w == 0 && fp.h == 0 && fp.duration_ms == (fp.frames.len()
                    * 1000) as u64 && frames_oneshot(runs[0]) == Some(fp.frames),
                Some(info) => {
                    &&& info.width == Some(fp.w)
                    &&& info.height == Some(fp.h)
                    &&& match info.duration_ms {
                        Some(ms) => fp.duration_ms == ms && ms > 0 && (if ms <= 90 * 1000 {
                            frames_pass(runs[0]) == Some(fp.frames)
                        } else {
                            frames_seek(runs) == Some(fp.frames)
                        }),
                        None => fp.duration_ms == (fp.frames.len() * 1000) as u64
                            && frames_oneshot(runs[0]) == Some(fp.frames),
                    }
                },
            }
        }),
{
}

/// The texts that frames are asked for with: in one pass the filter reduces to a
/// grid nine wide and eight high and picks eight frames over the duration in
/// seconds; otherwise each time is given in seconds. Seconds have six digits
/// behind the point.
pub proof fn lemma_sampling_texts(info: MediaView, w: u32, h: u32, ms: u64, i: int)
    requires
        info.width == Some(w),
        info.height == Some(h),
        info.duration_ms == Some(ms),
        0 <= i < 8,
    ensures
        0 < ms <= 90 * 1000 ==> sampling_of(Some(info)) == SamplingView::Pass(
            "scale=9:8,fps=8/"@ + binary64::fixed_text(seconds(ms), 6),
        ),
        ms > 90 * 1000 ==> sampling_of(Some(info))->Seek_0[i] == binary64::fixed_text(
            seek_time(ms, i as nat),
            6,
        ),
{
}

/// Lists of frames can be compared where the first has at most three frames more
/// than the second, or one has none; that any address space holds them is all
/// that is asked besides.
pub proof fn lemma_comparable(m: nat, n: nat)
    requires
        m <= 0x1000_0000,
        n <= 0x1000_0000,
    ensures
        m == 0 || n == 0 || m <= n + 3 ==> frames_comparable(m, n),
        m > 0 && n > 0 && m > n + 3 ==> !frames_comparable(m, n),
{
}

} // verus!
