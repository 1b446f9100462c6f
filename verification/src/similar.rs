//! Near-duplicate (perceptual) detection for images and videos.
//!
//! Exact duplicate detection compares content bytes; this module finds media
//! that is visually the same content in a different format or encoding:
//! - images: 64-bit difference hash (dHash) of a reduced picture,
//! - videos: 64-bit dHash of 8 evenly-spaced frames, compared as frame
//!   sequences with a small temporal tolerance.
//!
//! Files whose similarity is at or above a threshold (default 97%) are treated
//! as duplicates. Groups are formed by star clustering: the first unassigned
//! file becomes a group's keeper, and every later file joins the first keeper
//! it matches. This is deterministic (path order) and avoids the transitivity
//! problem of union-find (unrelated files can never chain into one group).

use crate::binary64;
use crate::binary64::{Binary64, Float};
use crate::bucket;
use crate::bucket::group_positions;
use crate::cluster;
use crate::cluster::{cluster_buckets, Likeable};
use crate::decimal;
use crate::fingerprint;
use crate::fingerprint::{dhash_gray, hash_similarity};
use crate::media::MediaKind;
use crate::order;
use crate::order::{Rank, SortKey};
use crate::path;
use crate::path::{FilePath, PathView};
use crate::scan::{EntryView, FileEntry};
use crate::text;
use vstd::prelude::*;

verus! {

/// Default similarity threshold, as a percentage (0-100).
pub const DEFAULT_SIMILARITY_PCT: u64 = 97;

/// What counts as similar.
pub struct SimilarConfig {
    pub threshold: Binary64,
}

/// One file in a similar group, with its similarity (0..=1) against the first
/// file of the group (1.0 for that file itself), and its resolution (0 when
/// unknown, e.g. a video that could not be probed).
pub struct SimilarMember {
    pub entry: FileEntry,
    pub similarity: Binary64,
    pub w: u32,
    pub h: u32,
}

/// What is known of a file in a similar group.
#[verifier::ext_equal]
pub struct SimilarMemberView {
    pub entry: EntryView,
    pub similarity: Float,
    pub w: u32,
    pub h: u32,
}

impl View for SimilarMember {
    type V = SimilarMemberView;

    open spec fn view(&self) -> SimilarMemberView {
        SimilarMemberView {
            entry: self.entry@,
            similarity: self.similarity@,
            w: self.w,
            h: self.h,
        }
    }
}

/// What is known of each file in a list.
pub open spec fn similar_views(members: Seq<SimilarMember>) -> Seq<SimilarMemberView> {
    members.map_values(|m: SimilarMember| m@)
}

/// How alike the files of a group are, for each file and each one before it.
pub open spec fn pair_views(pairs: Seq<Vec<Binary64>>) -> Seq<Seq<Float>> {
    pairs.map_values(|row: Vec<Binary64>| binary64::floats(row@))
}

/// A set of files judged to be the same content (keeper first). Row `i` of
/// `pairs` says how alike the file at position `i` is to each file before it.
pub struct SimilarGroup {
    pub kind: MediaKind,
    pub members: Vec<SimilarMember>,
    pub pairs: Vec<Vec<Binary64>>,
}

/// What is known of a similar group.
#[verifier::ext_equal]
pub struct SimilarGroupView {
    pub kind: MediaKind,
    pub members: Seq<SimilarMemberView>,
    pub pairs: Seq<Seq<Float>>,
}

impl SimilarGroupView {
    /// How alike two files of the group are: a file is wholly like itself.
    pub open spec fn alike(self, i: int, j: int) -> Float {
        if i == j {
            binary64::float_one()
        } else if i > j {
            self.pairs[i][j]
        } else {
            self.pairs[j][i]
        }
    }
}

impl View for SimilarGroup {
    type V = SimilarGroupView;

    open spec fn view(&self) -> SimilarGroupView {
        SimilarGroupView {
            kind: self.kind,
            members: similar_views(self.members@),
            pairs: pair_views(self.pairs@),
        }
    }
}

/// What is known of each group in a list.
pub open spec fn similar_group_views(groups: Seq<SimilarGroup>) -> Seq<SimilarGroupView> {
    groups.map_values(|g: SimilarGroup| g@)
}

/// The row has a number that can be compared for each of `n` files.
pub open spec fn proper_row(row: Seq<Binary64>, n: nat) -> bool {
    &&& row.len() == n
    &&& forall|j: int| 0 <= j < row.len() ==> (#[trigger] row[j]).moderate()
}

/// All pairs of files have a similarity, and it is a number that can be
/// compared.
pub open spec fn proper_group(g: SimilarGroup) -> bool {
    &&& g.members@.len() > 0
    &&& g.pairs@.len() == g.members@.len()
    &&& forall|i: int| 0 <= i < g.pairs@.len() ==> proper_row((#[trigger] g.pairs@[i])@, i as nat)
}

impl SimilarGroup {
    /// Tells how alike two files of the group are.
    pub fn similarity(&self, i: usize, j: usize) -> (r: Binary64)
        requires
            proper_group(*self),
            i < self.members@.len(),
            j < self.members@.len(),
        ensures
            r@ == self@.alike(i as int, j as int),
            r.moderate(),
    {
        if i == j {
            return Binary64::one();
        }
        let (later, earlier) = if i > j {
            (i, j)
        } else {
            (j, i)
        };
        assert(proper_row(self.pairs@[later as int]@, later as nat));
        let row = &self.pairs[later];
        assert(self@.pairs[later as int] == binary64::floats(row@));
        assert(row@[earlier as int].moderate());
        row[earlier]
    }
}

// Images

/// The fingerprint of an image.
pub struct ImageFp {
    pub entry: FileEntry,
    pub hash: u64,
    pub w: u32,
    pub h: u32,
}

/// What the fingerprint of an image is.
#[verifier::ext_equal]
pub struct ImageView {
    pub entry: EntryView,
    pub hash: u64,
    pub w: u32,
    pub h: u32,
}

impl View for ImageFp {
    type V = ImageView;

    open spec fn view(&self) -> ImageView {
        ImageView { entry: self.entry@, hash: self.hash, w: self.w, h: self.h }
    }
}

/// What each fingerprint in a list is.
pub open spec fn image_views(fps: Seq<ImageFp>) -> Seq<ImageView> {
    fps.map_values(|f: ImageFp| f@)
}

impl SortKey for ImageFp {
    open spec fn sort_key(&self) -> Seq<Seq<int>> {
        self.entry.path@.key()
    }

    fn rank(&self, other: &Self) -> (r: Rank) {
        self.entry.path.rank(&other.entry.path)
    }
}

impl Likeable for ImageFp {
    open spec fn comparable(&self, leader: &Self) -> bool {
        true
    }

    open spec fn like(&self, leader: &Self, threshold: Binary64) -> bool {
        binary64::float_ge(fingerprint::likeness(self.hash, leader.hash), threshold@)
    }

    fn can_compare(&self, leader: &Self) -> (r: bool) {
        true
    }

    fn is_like(&self, leader: &Self, threshold: Binary64) -> (r: bool) {
        hash_similarity(self.hash, leader.hash).at_least(threshold)
    }
}

/// The size that an image whose header gives these numbers has; one without
/// width or height has none.
pub open spec fn size_given(header: Option<(u32, u32)>) -> Option<(u32, u32)> {
    match header {
        Some((w, h)) => if w == 0 || h == 0 {
            None
        } else {
            Some((w, h))
        },
        None => None,
    }
}

/// Takes the size of an image from what its header gives.
pub fn header_size(header: Option<(u32, u32)>) -> (r: Option<(u32, u32)>)
    ensures
        r == size_given(header),
{
    match header {
        Some((w, h)) => if w == 0 || h == 0 {
            None
        } else {
            Some((w, h))
        },
        None => None,
    }
}

/// `outcome` is what reading the header of a picture with this content, whose
/// file name has this extension, can come to on some machine. The extension is
/// empty where there is none. There may be several such outcomes.
pub uninterp spec fn header_can_be(
    extension: Seq<char>,
    data: Seq<u8>,
    outcome: Option<(u32, u32)>,
) -> bool;

/// `image::ImageReader::into_dimensions` reads the header of a picture, without
/// its pixels. The format is the one that `with_guessed_format` sees in the
/// content or, where it sees none, the one that
/// `image::ImageFormat::from_extension` gives for the extension. The result is
/// one of those that reading this header can come to.
///
/// Which headers can be read, and what they give, is left open. It is not the
/// same on every machine: decoders refuse sizes that its integers cannot count,
/// and a program can add decoders of its own.
///
/// Decoders panic on some headers, such as that of a TIFF with more strips than
/// an integer counts, where arithmetic is checked for overflow. The reader
/// therefore runs as a job of `rayon::ThreadPool::spawn`: its pool hands a panic
/// to the handler that was set with `rayon::ThreadPoolBuilder::panic_handler`,
/// the job ends, and nothing has been read.
#[verifier::external_body]
fn read_header(extension: &str, data: &[u8]) -> (r: Option<(u32, u32)>)
    ensures
        header_can_be(extension@, data@, r),
{
    let (name, content) = (extension.to_string(), std::io::Cursor::new(data.to_vec()));
    let (sender, receiver) = std::sync::mpsc::channel();
    let builder = rayon::ThreadPoolBuilder::new().num_threads(1);
    let pool = builder.panic_handler(|_| ()).build().ok()?;
    pool.spawn(move || {
        let reader = match image::ImageFormat::from_extension(name) {
            Some(format) => image::ImageReader::with_format(content, format),
            None => image::ImageReader::new(content),
        };
        let size = reader.with_guessed_format().ok().map(|r| r.into_dimensions().ok());
        let _ = sender.send(size.flatten());
    });
    receiver.recv().ok().flatten()
}

/// The extension of a path, as text; empty where there is none.
pub open spec fn extension_text(p: PathView) -> Seq<char> {
    match path::bytes_text(p.extension()) {
        Some(ext) => ext,
        None => Seq::empty(),
    }
}

/// `size` is what reading the header of a picture comes to.
pub open spec fn size_comes_from(
    extension: Seq<char>,
    data: Seq<u8>,
    size: Option<(u32, u32)>,
) -> bool {
    exists|h: Option<(u32, u32)>|
        #[trigger] header_can_be(extension, data, h) && size == size_given(h)
}

/// Reads only the image header (no pixel decode), given the path of a file and
/// its content. An image without width or height has no size.
pub fn image_dimensions(path: &FilePath, data: &[u8]) -> (r: Option<(u32, u32)>)
    ensures
        size_comes_from(extension_text(path@), data@, r),
{
    let extension = match path.extension() {
        Some(e) => e,
        None => String::new(),
    };
    assert(extension@ =~= extension_text(path@));
    header_size(read_header(extension.as_str(), data))
}

/// Bucket key: aspect ratio rounded to 1/100, in double precision.
pub open spec fn aspect_of(w: u32, h: u32) -> i64 {
    if h == 0 {
        0
    } else {
        binary64::float_round(
            binary64::float_mul(
                binary64::nearest(w as nat, h as nat),
                binary64::nearest(100, 1),
            ),
        ) as i64
    }
}

/// A number below `2^53` that has a fraction rounds to less than `2^54`.
proof fn lemma_round_small(x: Float)
    requires
        x.normal(),
        x.exp < 0,
    ensures
        binary64::float_round(x) <= 0x20_0000_0000_0000,
{
    let k = (-x.exp) as nat;
    let m = x.mant;
    let p = vstd::arithmetic::power2::pow2(k);
    vstd::arithmetic::power2::lemma_pow2_pos(k);
    let r = (2 * m + p) / (2 * p);
    assert(r <= m + 1) by (nonlinear_arith)
        requires
            r == (2 * m + p) / (2 * p),
            p > 0,
            m >= 0,
    ;
    assert(x.above() == m);
    assert(x.below() == 1 * p);
}

/// Bucket key: aspect ratio rounded to 1/100, so re-scaled versions of the
/// same photo (same ratio) are compared against each other.
pub fn aspect_key(w: u32, h: u32) -> (r: i64)
    ensures
        r == aspect_of(w, h),
{
    if h == 0 {
        return 0;
    }
    let ratio = Binary64::ratio(w as u64, h as u64);
    let hundred = Binary64::from_u64(100);
    let x = ratio.mul(hundred);
    proof {
        vstd::arithmetic::power2::lemma2_to64();
        vstd::arithmetic::power2::lemma2_to64_rest();
        binary64::lemma_nearest_range(100, 1, 6, 7);
        if w > 0 {
            let n = w as nat;
            let d = h as nat;
            let p = vstd::arithmetic::power2::pow2(32);
            let q = vstd::arithmetic::power2::pow2(32);
            assert(n < d * p) by (nonlinear_arith)
                requires
                    n < 0x1_0000_0000,
                    d >= 1,
                    p == 0x1_0000_0000,
            ;
            assert(n * q >= d) by (nonlinear_arith)
                requires
                    n >= 1,
                    d < 0x1_0000_0000,
                    q == 0x1_0000_0000,
            ;
            binary64::lemma_nearest_range(n, d, -32, 32);
        }
        if x.mant == 0 {
            assert(binary64::float_round(x@) == 0) by {
                assert(x@ == binary64::float_zero());
                let a = x@.above();
                let b = x@.below();
                assert((2 * a + b) / (2 * b) == 0) by (nonlinear_arith)
                    requires
                        a == 0,
                        b == 1,
                ;
            }
        } else {
            lemma_round_small(x@);
        }
    }
    x.round() as i64
}

/// Re-scaled versions of a picture, with the same ratio of width and height, are
/// compared with each other.
pub proof fn lemma_rescaled(w: u32, h: u32, k: nat)
    requires
        k > 0,
        k * w <= u32::MAX,
        k * h <= u32::MAX,
    ensures
        aspect_of((k * w) as u32, (k * h) as u32) == aspect_of(w, h),
{
    assert(k * h == 0 <==> h == 0) by (nonlinear_arith)
        requires
            k > 0,
    ;
    if h > 0 {
        if w > 0 {
            assert(k * w > 0) by (nonlinear_arith)
                requires
                    k > 0,
                    w > 0,
            ;
            binary64::lemma_nearest_scaled(w as nat, h as nat, k);
        } else {
            assert(k * w == 0) by (nonlinear_arith)
                requires
                    w == 0,
            ;
        }
    }
}

/// A picture in shades of gray, reduced to a grid 9 wide and 8 high.
pub uninterp spec fn reduced(w: u32, h: u32, pixels: Seq<u8>) -> Seq<u8>;

/// `image::imageops::resize` with `FilterType::Triangle` reduces a picture in
/// shades of gray, which is not empty, to a grid 9 wide and 8 high. On the way it
/// holds 128 bytes for each column, which have to fit in the address space.
#[verifier::external_body]
fn reduce(w: u32, h: u32, pixels: Vec<u8>) -> (r: Vec<u8>)
    requires
        w > 0,
        h > 0,
        pixels@.len() == w * h,
        w * 128 <= isize::MAX,
    ensures
        r@ == reduced(w, h, pixels@),
        r@.len() == 72,
{
    let gray = image::GrayImage::from_raw(w, h, pixels).expect("as many pixels as width and height ask for");
    image::imageops::resize(&gray, 9, 8, image::imageops::FilterType::Triangle).into_raw()
}

/// The extensions, in lower case, that stand for a format of pictures.
pub open spec fn is_picture_ext(ext: Seq<char>) -> bool {
    ||| ext == "avif"@
    ||| ext == "jpg"@
    ||| ext == "jpeg"@
    ||| ext == "jfif"@
    ||| ext == "png"@
    ||| ext == "apng"@
    ||| ext == "gif"@
    ||| ext == "webp"@
    ||| ext == "tif"@
    ||| ext == "tiff"@
    ||| ext == "tga"@
    ||| ext == "dds"@
    ||| ext == "bmp"@
    ||| ext == "ico"@
    ||| ext == "hdr"@
    ||| ext == "exr"@
    ||| ext == "pbm"@
    ||| ext == "pam"@
    ||| ext == "ppm"@
    ||| ext == "pgm"@
    ||| ext == "pnm"@
    ||| ext == "ff"@
    ||| ext == "qoi"@
}

/// A decoded picture in shades of gray: its width, its height and one shade for
/// each pixel. `None` where nothing was decoded.
pub type Decoded = Option<(u32, u32, Vec<u8>)>;

/// What was decoded.
pub open spec fn decoded_view(decoded: Decoded) -> Option<(u32, u32, Seq<u8>)> {
    match decoded {
        Some((w, h, pixels)) => Some((w, h, pixels@)),
        None => None,
    }
}

/// There is one shade for each pixel.
pub open spec fn is_whole(decoded: Option<(u32, u32, Seq<u8>)>) -> bool {
    match decoded {
        Some((w, h, pixels)) => pixels.len() == w * h,
        None => true,
    }
}

/// `outcome` is what decoding the data, in the format that the extension stands
/// for, can come to on some machine. There may be several such outcomes.
pub uninterp spec fn can_come_to(
    extension: Seq<char>,
    data: Seq<u8>,
    outcome: Option<(u32, u32, Seq<u8>)>,
) -> bool;

/// `image::load_from_memory_with_format`, with the format that
/// `image::ImageFormat::from_extension` gives for the extension, decodes a
/// picture, and `image::DynamicImage::to_luma8` turns it into shades of gray:
/// one for each pixel. An extension that stands for no format gives nothing. The
/// result is one of those that decoding this data in this format can come to.
///
/// Which shades they are, and which data can be decoded, is left open. They are
/// not the same on every machine: a shade is a sum of products, which are
/// rounded before they are added on some processors and not on others, and the
/// decoders too go by what the processor offers.
///
/// Decoders panic on some content, such as a Radiance picture with many run
/// markers of length zero, where arithmetic is checked for overflow. The decoder
/// therefore runs as a job of `rayon::ThreadPool::spawn`: its pool hands a panic
/// to the handler that was set with `rayon::ThreadPoolBuilder::panic_handler`,
/// the job ends, and nothing has been decoded.
#[verifier::external_body]
fn decode_gray(extension: &str, data: &[u8]) -> (r: Decoded)
    ensures
        can_come_to(extension@, data@, decoded_view(r)),
        is_whole(decoded_view(r)),
        r is Some ==> is_picture_ext(text::lower(extension@)),
{
    let format = image::ImageFormat::from_extension(extension)?;
    let content = data.to_vec();
    let (sender, receiver) = std::sync::mpsc::channel();
    let builder = rayon::ThreadPoolBuilder::new().num_threads(1);
    let pool = builder.panic_handler(|_| ()).build().ok()?;
    pool.spawn(move || {
        let picture = image::load_from_memory_with_format(&content, format);
        let _ = sender.send(picture.ok().map(|p| p.to_luma8()));
    });
    let gray = receiver.recv().ok().flatten()?;
    Some((gray.width(), gray.height(), gray.into_raw()))
}

/// The fingerprint of a picture in shades of gray.
pub open spec fn gray_hash(w: u32, h: u32, pixels: Seq<u8>) -> u64 {
    fingerprint::dhash_of(9, 8, reduced(w, h, pixels))
}

/// Fingerprints a decoded picture; one without width or height has no
/// fingerprint.
pub fn gray_fingerprint(entry: FileEntry, w: u32, h: u32, pixels: Vec<u8>) -> (r: Option<ImageFp>)
    requires
        pixels@.len() == w * h,
        w * 128 <= isize::MAX,
    ensures
        match r {
            Some(fp) => w > 0 && h > 0 && fp@ == (ImageView {
                entry: entry@,
                hash: gray_hash(w, h, pixels@),
                w,
                h,
            }),
            None => w == 0 || h == 0,
        },
{
    if w == 0 || h == 0 {
        return None;
    }
    let small = reduce(w, h, pixels);
    let hash = dhash_gray(9, 8, small.as_slice());
    Some(ImageFp { entry, hash, w, h })
}

/// What a fingerprint is, where there is one.
pub open spec fn option_image(fp: Option<ImageFp>) -> Option<ImageView> {
    match fp {
        Some(f) => Some(f@),
        None => None,
    }
}

/// The fingerprint of what was decoded. There is none where nothing was decoded,
/// where the picture has no width or height, and where it is too wide for the
/// address space to hold what reducing it takes.
pub open spec fn print_of(entry: EntryView, decoded: Option<(u32, u32, Seq<u8>)>) -> Option<
    ImageView,
> {
    match decoded {
        Some((w, h, pixels)) => if w == 0 || h == 0 || w * 128 > isize::MAX {
            None
        } else {
            Some(ImageView { entry, hash: gray_hash(w, h, pixels), w, h })
        },
        None => None,
    }
}

/// Fingerprints what was decoded of an image.
pub fn decoded_fingerprint(entry: FileEntry, decoded: Decoded) -> (r: Option<ImageFp>)
    requires
        is_whole(decoded_view(decoded)),
    ensures
        option_image(r) == print_of(entry@, decoded_view(decoded)),
{
    match decoded {
        Some((w, h, pixels)) => {
            if w as u128 * 128 > isize::MAX as u128 {
                return None;
            }
            gray_fingerprint(entry, w, h, pixels)
        },
        None => None,
    }
}

/// `fp` is the fingerprint of what decoding the data, in the format that the
/// extension stands for, can come to.
pub open spec fn comes_from(
    entry: EntryView,
    extension: Seq<char>,
    data: Seq<u8>,
    fp: Option<ImageView>,
) -> bool {
    exists|outcome: Option<(u32, u32, Seq<u8>)>|
        {
            &&& #[trigger] can_come_to(extension, data, outcome)
            &&& is_whole(outcome)
            &&& fp == print_of(entry, outcome)
        }
}

/// Fingerprints an image, given the content of its file: decodes the content, in
/// the format that the file's extension stands for, and fingerprints what that
/// comes to. A file without an extension has no fingerprint.
pub fn image_fingerprint(entry: FileEntry, data: &[u8]) -> (r: Option<ImageFp>)
    ensures
        match path::bytes_text(entry@.path.extension()) {
            Some(ext) => {
                &&& comes_from(entry@, ext, data@, option_image(r))
                &&& r is Some ==> is_picture_ext(text::lower(ext))
            },
            None => r is None,
        },
{
    let extension = match entry.path.extension() {
        Some(e) => e,
        None => {
            return None;
        },
    };
    let decoded = decode_gray(extension.as_str(), data);
    let ghost found = entry@;
    let r = decoded_fingerprint(entry, decoded);
    assert(comes_from(found, extension@, data@, option_image(r)));
    r
}

/// What two fingerprints of a list have to do with each other.
pub open spec fn image_likes(fps: Seq<ImageView>, threshold: Float) -> spec_fn(
    usize,
    usize,
) -> bool {
    |i: usize, j: usize|
        i < fps.len() && j < fps.len() && binary64::float_ge(
            fingerprint::likeness(fps[i as int].hash, fps[j as int].hash),
            threshold,
        )
}

/// The keys by which fingerprints are sorted: the paths of their files.
pub open spec fn image_keys(fps: Seq<ImageView>) -> Seq<Seq<Seq<int>>> {
    fps.map_values(|f: ImageView| f.entry.path.key())
}

/// How alike the images of a cluster are: each one and those before it.
pub open spec fn image_pairs(fps: Seq<ImageView>, cluster: Seq<usize>) -> Seq<Seq<Float>> {
    Seq::new(
        cluster.len(),
        |i: int|
            Seq::new(
                i as nat,
                |j: int|
                    fingerprint::likeness(
                        fps[cluster[i] as int].hash,
                        fps[cluster[j] as int].hash,
                    ),
            ),
    )
}

/// The group that a cluster of images makes.
pub open spec fn image_group(fps: Seq<ImageView>, cluster: Seq<usize>) -> SimilarGroupView {
    let pairs = image_pairs(fps, cluster);
    SimilarGroupView {
        kind: MediaKind::Image,
        members: Seq::new(
            cluster.len(),
            |k: int|
                SimilarMemberView {
                    entry: fps[cluster[k] as int].entry,
                    similarity: if k == 0 {
                        binary64::float_one()
                    } else {
                        pairs[k][0]
                    },
                    w: fps[cluster[k] as int].w,
                    h: fps[cluster[k] as int].h,
                },
        ),
        pairs,
    }
}

/// Compares an image of a cluster with each one before it.
fn image_row(fps: &Vec<ImageFp>, cluster: &Vec<usize>, k: usize) -> (row: Vec<Binary64>)
    requires
        k < cluster@.len(),
        order::all_below(cluster@, fps@.len()),
    ensures
        binary64::floats(row@) == image_pairs(image_views(fps@), cluster@)[k as int],
        proper_row(row@, k as nat),
{
    let ghost expected = image_pairs(image_views(fps@), cluster@)[k as int];
    let mut row: Vec<Binary64> = Vec::new();
    let mut j: usize = 0;
    while j < k
        invariant
            0 <= j <= k < cluster@.len(),
            order::all_below(cluster@, fps@.len()),
            expected == image_pairs(image_views(fps@), cluster@)[k as int],
            proper_row(row@, j as nat),
            forall|i: int| 0 <= i < j ==> (#[trigger] row@[i])@ == expected[i],
        decreases k - j,
    {
        row.push(hash_similarity(fps[cluster[k]].hash, fps[cluster[j]].hash));
        j = j + 1;
    }
    assert(binary64::floats(row@) =~= expected);
    row
}

/// Makes the group of a cluster of images.
pub fn make_image_group(fps: &Vec<ImageFp>, cluster: &Vec<usize>) -> (g: SimilarGroup)
    requires
        cluster@.len() > 0,
        order::all_below(cluster@, fps@.len()),
    ensures
        g@ == image_group(image_views(fps@), cluster@),
        proper_group(g),
{
    let ghost expected = image_group(image_views(fps@), cluster@);
    let mut members: Vec<SimilarMember> = Vec::new();
    let mut pairs: Vec<Vec<Binary64>> = Vec::new();
    let mut k: usize = 0;
    while k < cluster.len()
        invariant
            0 <= k <= cluster@.len(),
            cluster@.len() > 0,
            order::all_below(cluster@, fps@.len()),
            expected == image_group(image_views(fps@), cluster@),
            members@.len() == k,
            forall|j: int| 0 <= j < k ==> (#[trigger] members@[j])@ == expected.members[j],
            pairs@.len() == k,
            forall|j: int|
                0 <= j < k ==> binary64::floats((#[trigger] pairs@[j])@) == expected.pairs[j],
            forall|j: int| 0 <= j < k ==> proper_row((#[trigger] pairs@[j])@, j as nat),
        decreases cluster@.len() - k,
    {
        let fp = &fps[cluster[k]];
        let row = image_row(fps, cluster, k);
        let similarity = if k == 0 {
            Binary64::one()
        } else {
            row[0]
        };
        assert(k > 0 ==> binary64::floats(row@)[0] == expected.pairs[k as int][0]);
        members.push(SimilarMember { entry: fp.entry.clone(), similarity, w: fp.w, h: fp.h });
        pairs.push(row);
        k = k + 1;
    }
    assert(similar_views(members@) =~= expected.members);
    assert(pair_views(pairs@) =~= expected.pairs);
    SimilarGroup { kind: MediaKind::Image, members, pairs }
}

/// The groups of similar images, bucket by bucket.
pub open spec fn image_groups(
    fps: Seq<ImageView>,
    buckets: Seq<Seq<usize>>,
    threshold: Float,
) -> Seq<SimilarGroupView> {
    cluster::clusters_in(image_keys(fps), buckets, image_likes(fps, threshold)).map_values(
        |c: Seq<usize>| image_group(fps, c),
    )
}

/// All groups can be compared with others.
pub open spec fn proper_groups(groups: Seq<SimilarGroup>) -> bool {
    forall|g: int| 0 <= g < groups.len() ==> proper_group(#[trigger] groups[g])
}

/// Groups similar images, within each bucket and in the order of their paths.
pub fn cluster_images(fps: &Vec<ImageFp>, buckets: &Vec<Vec<usize>>, threshold: Binary64) -> (r:
    Vec<SimilarGroup>)
    requires
        cluster::buckets_within(buckets@, fps@.len()),
        threshold@.normal(),
    ensures
        similar_group_views(r@) == image_groups(
            image_views(fps@),
            cluster::cluster_views(buckets@),
            threshold@,
        ),
        proper_groups(r@),
{
    let ghost views = image_views(fps@);
    let ghost keys = image_keys(views);
    let ghost like = image_likes(views, threshold@);
    proof {
        assert(order::keys_of(fps@) =~= keys);
        assert(cluster::likes(fps@, threshold) =~= like);
        assert forall|b: int| 0 <= b < buckets@.len() implies cluster::stars_defined(
            cluster::sorted_by(keys, #[trigger] cluster::cluster_views(buckets@)[b]),
            like,
            cluster::compares(fps@),
        ) by {
            cluster::lemma_always_defined(
                cluster::sorted_by(keys, cluster::cluster_views(buckets@)[b]),
                like,
                cluster::compares(fps@),
            );
        }
    }
    let mut out: Vec<SimilarGroup> = Vec::new();
    match cluster_buckets(fps, buckets, threshold) {
        Some(clusters) => {
            let ghost all = cluster::cluster_views(clusters@);
            let mut c: usize = 0;
            while c < clusters.len()
                invariant
                    0 <= c <= clusters@.len(),
                    all == cluster::cluster_views(clusters@),
                    cluster::within(all, fps@.len()),
                    views == image_views(fps@),
                    out@.len() == c,
                    forall|j: int| 0 <= j < c ==> (#[trigger] out@[j])@ == image_group(views, all[j]),
                    proper_groups(out@),
                decreases clusters@.len() - c,
            {
                assert(all[c as int] == clusters@[c as int]@);
                assert(all[c as int].len() > 0);
                out.push(make_image_group(fps, &clusters[c]));
                c = c + 1;
            }
            assert(similar_group_views(out@) =~= all.map_values(
                |c: Seq<usize>| image_group(views, c),
            ));
        },
        None => {
            assert(false);
        },
    }
    out
}

/// What images are compared by: their aspect ratios.
pub open spec fn aspect_idents(fps: Seq<ImageView>) -> Seq<Option<Seq<int>>> {
    fps.map_values(|f: ImageView| Some(seq![aspect_of(f.w, f.h) as int]))
}

/// Puts images with the same aspect ratio into one bucket.
pub fn image_buckets(fps: &Vec<ImageFp>) -> (buckets: Vec<Vec<usize>>)
    ensures
        bucket::is_partition(aspect_idents(image_views(fps@)), buckets@),
        cluster::buckets_within(buckets@, fps@.len()),
{
    let ghost ids = aspect_idents(image_views(fps@));
    let mut keys: Vec<Option<i64>> = Vec::new();
    let mut i: usize = 0;
    while i < fps.len()
        invariant
            0 <= i <= fps@.len(),
            keys@.len() == i,
            forall|j: int|
                0 <= j < i ==> #[trigger] keys@[j] == Some(aspect_of(fps@[j].w, fps@[j].h)),
        decreases fps@.len() - i,
    {
        keys.push(Some(aspect_key(fps[i].w, fps[i].h)));
        i = i + 1;
    }
    assert(bucket::idents(keys@) =~= ids);
    let buckets = group_positions(&keys);
    proof {
        lemma_classes_within(ids, buckets@);
    }
    buckets
}

/// Classes hold positions of the list.
pub proof fn lemma_classes_within(ids: Seq<Option<Seq<int>>>, buckets: Seq<Vec<usize>>)
    requires
        bucket::are_classes(ids, buckets),
    ensures
        cluster::buckets_within(buckets, ids.len()),
{
    assert forall|b: int| 0 <= b < buckets.len() implies order::all_below(
        (#[trigger] buckets[b])@,
        ids.len(),
    ) by {
        assert(bucket::is_class(ids, buckets[b]@));
    }
}

/// The aspect ratio of a picture, in hundredths, is its width by its height
/// rounded to the nearest: it is off by a half at most. A picture without height
/// has the ratio zero.
pub proof fn lemma_aspect(w: u32, h: u32)
    ensures
        h > 0 ==> 2 * (aspect_of(w, h) * h - 100 * w) <= h && 2 * (100 * w - aspect_of(w, h) * h)
            <= h,
        h == 0 ==> aspect_of(w, h) == 0,
{
    if h > 0 {
        let n = w as nat;
        let d = h as nat;
        let r = decimal::product(n, d, 100);
        decimal::lemma_product_near(n, d, 100);
        let rd = (r * d) as int;
        assert(2 * (rd - 100 * n) <= d && 2 * (100 * n - rd) <= d);
        assert(r < 0x4000_0000_0000_0000) by (nonlinear_arith)
            requires
                2 * (rd - 100 * n) <= d,
                rd == r * d,
                d >= 1,
                d < 0x1_0000_0000,
                n < 0x1_0000_0000,
        ;
        assert(aspect_of(w, h) == r);
    }
}

/// Pictures whose widths and heights stand in the same ratio are compared with
/// each other.
pub proof fn lemma_same_ratio(w: u32, h: u32, v: u32, g: u32)
    requires
        w * g == v * h,
        w > 0,
        h > 0,
        v > 0,
        g > 0,
    ensures
        aspect_of(w, h) == aspect_of(v, g),
{
    binary64::lemma_nearest_scaled(w as nat, h as nat, g as nat);
    binary64::lemma_nearest_scaled(v as nat, g as nat, h as nat);
    assert(g * w == h * v && g * h == h * g) by (nonlinear_arith)
        requires
            w * g == v * h,
    ;
}

/// Only a header that gives both a width and a height gives a size, and the
/// size is what it gives.
pub proof fn lemma_size_given(w: u32, h: u32)
    ensures
        w > 0 && h > 0 ==> size_given(Some((w, h))) == Some((w, h)),
        w == 0 || h == 0 ==> size_given(Some((w, h))) is None,
        size_given(None) is None,
{
}

/// A picture that was decoded has a fingerprint where it has a width and a
/// height and is not too wide: its own size, and the hash of the grid that it
/// is reduced to, of which each bit tells which of two neighbours is brighter.
pub proof fn lemma_print_of(
    entry: EntryView,
    w: u32,
    h: u32,
    pixels: Seq<u8>,
    x: nat,
    y: nat,
)
    requires
        x < 8,
        y < 8,
        reduced(w, h, pixels).len() == 72,
    ensures
        print_of(entry, None) is None,
        w == 0 || h == 0 ==> print_of(entry, Some((w, h, pixels))) is None,
        w > 0 && h > 0 && w * 128 <= isize::MAX ==> ({
            let fp = print_of(entry, Some((w, h, pixels)));
            let grid = reduced(w, h, pixels);
            &&& fp is Some
            &&& (fp->0).entry == entry
            &&& (fp->0).w == w
            &&& (fp->0).h == h
            &&& ((fp->0).hash >> ((8 * y + x) as u64)) & 1 == (if grid[(9 * y + x) as int]
                > grid[(9 * y + x + 1) as int] {
                1u64
            } else {
                0u64
            })
        }),
{
    assert(y * (9 - 1) + x == 8 * y + x);
    assert(y * 9 == 9 * y);
    fingerprint::lemma_dhash_pixels(9, 8, reduced(w, h, pixels), x, y);
}

} // verus!
