//! What a media file is and what probing it tells.

use crate::binary64;
use crate::decimal;
use crate::decimal::{round_scaled, times};
use crate::numeral;
use crate::numeral::{numeral_end, read_digits, read_numeral};
use crate::path;
use crate::path::{FilePath, PathView};
use crate::text;
use crate::text::{chars_of, copy_text, push_decimal, same_text, text_between, to_lower};
use crate::util;
use crate::util::format_duration_ms;
use vstd::prelude::*;
use vstd::string::*;

verus! {

/// What kind of media a file is, based on its extension.
#[derive(Clone, Copy, Debug, PartialEq, Eq, Structural)]
pub enum MediaKind {
    Image,
    Video,
    Other,
}

/// The extensions of images, in lower case.
pub open spec fn is_image_ext(ext: Seq<char>) -> bool {
    ||| ext == "jpg"@
    ||| ext == "jpeg"@
    ||| ext == "jfif"@
    ||| ext == "png"@
    ||| ext == "gif"@
    ||| ext == "bmp"@
    ||| ext == "webp"@
    ||| ext == "tiff"@
    ||| ext == "tif"@
    ||| ext == "heic"@
    ||| ext == "heif"@
    ||| ext == "avif"@
    ||| ext == "svg"@
    ||| ext == "ico"@
}

/// The extensions of videos, in lower case.
pub open spec fn is_video_ext(ext: Seq<char>) -> bool {
    ||| ext == "mp4"@
    ||| ext == "mkv"@
    ||| ext == "avi"@
    ||| ext == "mov"@
    ||| ext == "webm"@
    ||| ext == "m4v"@
    ||| ext == "flv"@
    ||| ext == "wmv"@
    ||| ext == "mpg"@
    ||| ext == "mpeg"@
    ||| ext == "ts"@
    ||| ext == "m2ts"@
    ||| ext == "3gp"@
    ||| ext == "ogv"@
    ||| ext == "rmvb"@
    ||| ext == "vob"@
}

/// The kind of media that goes with an extension, whatever its case.
pub open spec fn kind_of_ext(ext: Option<Seq<char>>) -> MediaKind {
    match ext {
        None => MediaKind::Other,
        Some(e) => if is_image_ext(text::lower(e)) {
            MediaKind::Image
        } else if is_video_ext(text::lower(e)) {
            MediaKind::Video
        } else {
            MediaKind::Other
        },
    }
}

/// The kind of media that a path names.
pub open spec fn kind_of(p: PathView) -> MediaKind {
    kind_of_ext(path::bytes_text(p.extension()))
}

fn image_ext(ext: &str) -> (r: bool)
    ensures
        r == is_image_ext(ext@),
{
    same_text(ext, "jpg")
        || same_text(ext, "jpeg")
        || same_text(ext, "jfif")
        || same_text(ext, "png")
        || same_text(ext, "gif")
        || same_text(ext, "bmp")
        || same_text(ext, "webp")
        || same_text(ext, "tiff")
        || same_text(ext, "tif")
        || same_text(ext, "heic")
        || same_text(ext, "heif")
        || same_text(ext, "avif")
        || same_text(ext, "svg")
        || same_text(ext, "ico")
}

fn video_ext(ext: &str) -> (r: bool)
    ensures
        r == is_video_ext(ext@),
{
    same_text(ext, "mp4")
        || same_text(ext, "mkv")
        || same_text(ext, "avi")
        || same_text(ext, "mov")
        || same_text(ext, "webm")
        || same_text(ext, "m4v")
        || same_text(ext, "flv")
        || same_text(ext, "wmv")
        || same_text(ext, "mpg")
        || same_text(ext, "mpeg")
        || same_text(ext, "ts")
        || same_text(ext, "m2ts")
        || same_text(ext, "3gp")
        || same_text(ext, "ogv")
        || same_text(ext, "rmvb")
        || same_text(ext, "vob")
}

/// Tells what kind of media a path names, by its extension.
pub fn classify(path: &FilePath) -> (r: MediaKind)
    ensures
        r == kind_of(path@),
{
    match path.extension() {
        None => MediaKind::Other,
        Some(ext) => {
            let low = to_lower(ext.as_str());
            if image_ext(low.as_str()) {
                MediaKind::Image
            } else if video_ext(low.as_str()) {
                MediaKind::Video
            } else {
                MediaKind::Other
            }
        },
    }
}

/// Metadata extracted from a media file by probing it.
#[derive(Debug)]
pub struct MediaInfo {
    pub width: Option<u32>,
    pub height: Option<u32>,
    pub duration_ms: Option<u64>,
    pub codec: Option<String>,
}

/// What is known of a media file.
#[verifier::ext_equal]
pub struct MediaView {
    pub width: Option<u32>,
    pub height: Option<u32>,
    pub duration_ms: Option<u64>,
    pub codec: Option<Seq<char>>,
}

impl View for MediaInfo {
    type V = MediaView;

    open spec fn view(&self) -> MediaView {
        MediaView {
            width: self.width,
            height: self.height,
            duration_ms: self.duration_ms,
            codec: text::option_text(self.codec),
        }
    }
}

/// What a file's metadata is, where it has any.
pub open spec fn info_view(info: Option<MediaInfo>) -> Option<MediaView> {
    match info {
        Some(i) => Some(i@),
        None => None,
    }
}

impl Clone for MediaInfo {
    fn clone(&self) -> (r: Self)
        ensures
            r@ == self@,
    {
        MediaInfo {
            width: self.width,
            height: self.height,
            duration_ms: self.duration_ms,
            codec: copy_text(&self.codec),
        }
    }
}

impl Default for MediaInfo {
    fn default() -> (r: Self)
        ensures
            r@ == (MediaView { width: None, height: None, duration_ms: None, codec: None }),
    {
        MediaInfo { width: None, height: None, duration_ms: None, codec: None }
    }
}

impl MediaView {
    /// Width and height as text, where both are known.
    pub open spec fn resolution(self) -> Option<Seq<char>> {
        match (self.width, self.height) {
            (Some(w), Some(h)) => Some(
                text::decimal(w as nat) + "x"@ + text::decimal(h as nat),
            ),
            _ => None,
        }
    }

    /// Resolution and duration as text.
    pub open spec fn summary(self) -> Seq<char> {
        let res = match self.resolution() {
            Some(r) => r,
            None => "?x?"@,
        };
        match self.duration_ms {
            Some(ms) => res + ", "@ + util::duration_text(ms as nat),
            None => res,
        }
    }
}

impl MediaInfo {
    /// Width and height as text, where both are known.
    pub fn resolution(&self) -> (r: Option<String>)
        ensures
            text::option_text(r) == self@.resolution(),
    {
        match (self.width, self.height) {
            (Some(w), Some(h)) => {
                let mut out = String::new();
                push_decimal(&mut out, w as u128);
                out.append("x");
                push_decimal(&mut out, h as u128);
                assert(out@ =~= text::decimal(w as nat) + "x"@ + text::decimal(h as nat));
                Some(out)
            },
            _ => None,
        }
    }

    /// Resolution and duration as text.
    pub fn summary(&self) -> (out: String)
        ensures
            out@ == self@.summary(),
    {
        let mut out = String::new();
        match self.resolution() {
            Some(res) => out.append(res.as_str()),
            None => out.append("?x?"),
        }
        let ghost res = out@;
        match self.duration_ms {
            Some(ms) => {
                out.append(", ");
                out.append(format_duration_ms(ms).as_str());
                assert(out@ =~= self@.summary());
            },
            None => {
                assert(out@ =~= self@.summary());
            },
        }
        out
    }
}

/// What a probe reports of one stream.
#[derive(Debug)]
pub struct ProbeStream {
    pub width: Option<u32>,
    pub height: Option<u32>,
    pub codec_name: Option<String>,
}

/// What a probe reports of the container.
#[derive(Debug)]
pub struct ProbeFormat {
    /// The duration in seconds, as text.
    pub duration: Option<String>,
}

/// What a probe reports.
#[derive(Debug)]
pub struct ProbeOutput {
    pub streams: Vec<ProbeStream>,
    pub format: Option<ProbeFormat>,
}

/// The text is a sign or begins with one.
pub open spec fn has_sign(s: Seq<char>) -> bool {
    s.len() > 0 && (s[0] == '+' || s[0] == '-')
}

/// A text without the sign that it begins with.
pub open spec fn unsigned(s: Seq<char>) -> Seq<char> {
    if has_sign(s) {
        s.skip(1)
    } else {
        s
    }
}

/// The number whose sign and digits stand in a text.
pub open spec fn signed_value(s: Seq<char>) -> int {
    let v = decimal::digits_value(numeral::digit_values(unsigned(s))) as int;
    if has_sign(s) && s[0] == '-' {
        -v
    } else {
        v
    }
}

/// The text is an exponent: the letter, a sign or none, and digits.
pub open spec fn is_exponent(s: Seq<char>) -> bool {
    &&& s.len() > 0
    &&& s[0] == 'e' || s[0] == 'E'
    &&& unsigned(s.skip(1)).len() > 0
    &&& numeral::digits_only(unsigned(s.skip(1)))
}

/// The exponent that follows a numeral; none is zero.
pub open spec fn exponent_value(s: Seq<char>) -> int {
    if s.len() == 0 {
        0
    } else {
        signed_value(s.skip(1))
    }
}

/// A number of seconds, written with a point, an exponent or neither, in
/// milliseconds. The arithmetic is in double precision.
pub open spec fn numeral_ms(num: Seq<char>, tail: Seq<char>) -> u64 {
    let whole = numeral::whole_part(num);
    let frac = numeral::fraction_part(num);
    let v = decimal::digits_value(numeral::digit_values(whole) + numeral::digit_values(frac));
    let e = exponent_value(tail) - frac.len();
    binary64::clamp64(decimal::product(decimal::tens_over(v, e), decimal::tens_under(e), 1000))
}

/// A duration in seconds, as text, in milliseconds: `None` where the text is
/// no number. What is negative or no number at all counts as zero, and what is
/// too large as the largest duration.
pub open spec fn seconds_ms(s: Seq<char>) -> Option<u64> {
    let body = unsigned(s);
    let negative = has_sign(s) && s[0] == '-';
    let n = numeral::numeral_len(body) as int;
    if text::lower(body) == "nan"@ {
        Some(0)
    } else if text::lower(body) == "inf"@ || text::lower(body) == "infinity"@ {
        Some(
            if negative {
                0
            } else {
                u64::MAX
            },
        )
    } else if numeral::is_numeral(body.take(n)) && (body.len() == n || is_exponent(body.skip(n))) {
        Some(
            if negative {
                0
            } else {
                numeral_ms(body.take(n), body.skip(n))
            },
        )
    } else {
        None
    }
}

/// Joins two lists of digits.
fn join_digits(a: &Vec<u8>, b: &Vec<u8>) -> (out: Vec<u8>)
    requires
        decimal::all_digits(a@),
        decimal::all_digits(b@),
    ensures
        out@ == a@ + b@,
        decimal::all_digits(out@),
{
    let mut out: Vec<u8> = Vec::new();
    let mut i: usize = 0;
    while i < a.len()
        invariant
            0 <= i <= a@.len(),
            out@ == a@.take(i as int),
        decreases a@.len() - i,
    {
        out.push(a[i]);
        i = i + 1;
        assert(a@.take(i as int) =~= a@.take(i - 1).push(a@[i - 1]));
    }
    let mut j: usize = 0;
    assert(out@ =~= a@ + b@.take(0));
    while j < b.len()
        invariant
            0 <= j <= b@.len(),
            out@ == a@ + b@.take(j as int),
        decreases b@.len() - j,
    {
        out.push(b[j]);
        j = j + 1;
        assert(out@ =~= a@ + b@.take(j as int));
    }
    assert(out@ =~= a@ + b@);
    out
}

/// A bound that no exponent that matters exceeds.
const EXPONENT_CAP: u128 = 1_000_000_000_000_000_000_000_000_000_000;

/// The value of digits, where it is below the cap.
fn capped_value(digits: &Vec<u8>) -> (r: u128)
    requires
        decimal::all_digits(digits@),
    ensures
        r <= EXPONENT_CAP,
        r < EXPONENT_CAP ==> r == decimal::digits_value(digits@),
        r == EXPONENT_CAP ==> decimal::digits_value(digits@) >= EXPONENT_CAP,
{
    let mut r: u128 = 0;
    let mut i: usize = 0;
    while i < digits.len()
        invariant
            0 <= i <= digits@.len(),
            decimal::all_digits(digits@),
            r <= EXPONENT_CAP,
            r < EXPONENT_CAP ==> r == decimal::digits_value(digits@.take(i as int)),
            r == EXPONENT_CAP ==> decimal::digits_value(digits@.take(i as int)) >= EXPONENT_CAP,
        decreases digits@.len() - i,
    {
        assert(digits@.take(i + 1).drop_last() =~= digits@.take(i as int));
        assert(digits@[i as int] <= 9);
        if r < EXPONENT_CAP {
            let next: u128 = r * 10 + digits[i] as u128;
            r = if next < EXPONENT_CAP {
                next
            } else {
                EXPONENT_CAP
            };
        }
        i = i + 1;
    }
    assert(digits@.take(i as int) =~= digits@);
    r
}

/// Seconds, given by digits and an exponent, in milliseconds.
fn scaled_ms(whole: &Vec<u8>, frac: &Vec<u8>, down: bool, exponent: &Vec<u8>) -> (ms: u64)
    requires
        decimal::all_digits(whole@),
        decimal::all_digits(frac@),
        decimal::all_digits(exponent@),
    ensures
        ({
            let v = decimal::digits_value(whole@ + frac@);
            let x = decimal::digits_value(exponent@) as int;
            let e = if down {
                -x - frac@.len()
            } else {
                x - frac@.len()
            };
            ms == binary64::clamp64(
                decimal::product(decimal::tens_over(v, e), decimal::tens_under(e), 1000),
            )
        }),
{
    let digits = join_digits(whole, frac);
    let ghost x = decimal::digits_value(exponent@) as int;
    let ghost e = if down {
        -x - frac@.len()
    } else {
        x - frac@.len()
    };
    let size = capped_value(exponent);
    assert(frac.len() == frac@.len());
    assert(digits.len() == digits@.len());
    let places = frac.len() as i128;
    let shift: i128 = if down {
        -(size as i128) - places
    } else {
        size as i128 - places
    };
    let rounded = round_scaled(&digits, shift);
    proof {
        assert(decimal::as_good(shift as int, e, digits@.len()));
        vstd::arithmetic::power::lemma_pow_positive(10, (-e) as nat);
        let over = decimal::tens_over(decimal::digits_value(digits@), e);
        assert(decimal::rounds_to(rounded, over, decimal::tens_under(e)));
    }
    match times(&rounded, 1000) {
        Some(ms) => ms,
        None => u64::MAX,
    }
}

/// Reads an exponent: whether it is negative, and its digits. Where nothing
/// stands it has none; where something else stands there is no result.
fn read_exponent(chars: &Vec<char>, lo: usize) -> (r: Option<(bool, Vec<u8>)>)
    requires
        lo <= chars@.len(),
    ensures
        ({
            let tail = chars@.skip(lo as int);
            match r {
                Some((down, d)) => {
                    &&& tail.len() == 0 || is_exponent(tail)
                    &&& decimal::all_digits(d@)
                    &&& exponent_value(tail) == if down {
                        -(decimal::digits_value(d@) as int)
                    } else {
                        decimal::digits_value(d@) as int
                    }
                },
                None => tail.len() > 0 && !is_exponent(tail),
            }
        }),
{
    let n = chars.len();
    let ghost tail = chars@.skip(lo as int);
    if lo == n {
        return Some((false, Vec::new()));
    }
    assert(tail[0] == chars@[lo as int]);
    if chars[lo] != 'e' && chars[lo] != 'E' {
        return None;
    }
    let at: usize = lo + 1;
    assert(tail.skip(1) =~= chars@.skip(at as int));
    let sign = at < n && (chars[at] == '+' || chars[at] == '-');
    let down = at < n && chars[at] == '-';
    let from: usize = if sign {
        at + 1
    } else {
        at
    };
    assert(chars@.subrange(from as int, n as int) =~= unsigned(tail.skip(1)));
    match read_digits(chars, from, n) {
        Some(d) => if d.len() == 0 {
            None
        } else {
            Some((down, d))
        },
        None => None,
    }
}

/// Reads a duration in seconds and gives it in milliseconds.
pub fn parse_seconds_ms(raw: &str) -> (r: Option<u64>)
    ensures
        r == seconds_ms(raw@),
{
    let chars = chars_of(raw);
    let n = chars.len();
    let negative = n > 0 && chars[0] == '-';
    let lo: usize = if n > 0 && (chars[0] == '+' || chars[0] == '-') {
        1
    } else {
        0
    };
    let ghost body = unsigned(raw@);
    assert(chars@.skip(lo as int) =~= body);
    assert(chars@.subrange(lo as int, n as int) =~= body);
    let low = to_lower(text_between(&chars, lo, n).as_str());
    if same_text(low.as_str(), "nan") {
        return Some(0);
    }
    if same_text(low.as_str(), "inf") || same_text(low.as_str(), "infinity") {
        return Some(
            if negative {
                0
            } else {
                u64::MAX
            },
        );
    }
    let end = numeral_end(&chars, lo);
    let ghost len = numeral::numeral_len(body) as int;
    assert(chars@.subrange(lo as int, end as int) =~= body.take(len));
    assert(chars@.skip(end as int) =~= body.skip(len));
    match (read_numeral(&chars, lo, end), read_exponent(&chars, end)) {
        (Some((whole, frac)), Some((down, exponent))) => if negative {
            Some(0)
        } else {
            Some(scaled_ms(&whole, &frac, down, &exponent))
        },
        _ => None,
    }
}

/// What a probe's report says of the file: the first stream's size and codec,
/// and the container's duration.
pub open spec fn report_view(out: ProbeOutput) -> MediaView {
    let first = if out.streams@.len() > 0 {
        Some(out.streams@[0])
    } else {
        None
    };
    MediaView {
        width: match first {
            Some(s) => s.width,
            None => None,
        },
        height: match first {
            Some(s) => s.height,
            None => None,
        },
        codec: match first {
            Some(s) => text::option_text(s.codec_name),
            None => None,
        },
        duration_ms: match out.format {
            Some(f) => match f.duration {
                Some(d) => seconds_ms(d@),
                None => None,
            },
            None => None,
        },
    }
}

/// Turns a probe's report into metadata; a report that could not be read gives
/// none.
pub fn parse_probe_output(parsed: &Option<ProbeOutput>) -> (r: Option<MediaInfo>)
    ensures
        info_view(r) == match *parsed {
            Some(out) => Some(report_view(out)),
            None => None,
        },
{
    match parsed {
        None => None,
        Some(out) => {
            let duration_ms = match &out.format {
                Some(f) => match &f.duration {
                    Some(d) => parse_seconds_ms(d.as_str()),
                    None => None,
                },
                None => None,
            };
            if out.streams.len() > 0 {
                let s = &out.streams[0];
                Some(
                    MediaInfo {
                        width: s.width,
                        height: s.height,
                        duration_ms,
                        codec: copy_text(&s.codec_name),
                    },
                )
            } else {
                Some(MediaInfo { width: None, height: None, duration_ms, codec: None })
            }
        },
    }
}

/// What probing a file tells: nothing where the probe failed, where its report
/// could not be read, or where there is no video stream.
pub open spec fn probed(succeeded: bool, parsed: Option<ProbeOutput>) -> Option<MediaView> {
    match parsed {
        Some(out) => if succeeded && out.streams@.len() > 0 {
            Some(report_view(out))
        } else {
            None
        },
        None => None,
    }
}

/// The metadata of a file from the outcome of probing it: whether the probe
/// succeeded, and its report. There is none on any failure: the probe failed,
/// its report could not be read, or there is no video stream.
pub fn probe_media(succeeded: bool, parsed: &Option<ProbeOutput>) -> (r: Option<MediaInfo>)
    ensures
        info_view(r) == match *parsed {
            Some(out) => if succeeded && out.streams@.len() > 0 {
                Some(report_view(out))
            } else {
                None
            },
            None => None,
        },
        info_view(r) == probed(succeeded, *parsed),
{
    match parsed {
        Some(out) => if succeeded && out.streams.len() > 0 {
            parse_probe_output(parsed)
        } else {
            None
        },
        None => None,
    }
}

/// The kind of media that a path names goes by its extension, whatever the case
/// of its letters.
pub proof fn lemma_kind_any_case(a: Seq<char>, b: Seq<char>)
    requires
        text::lower(a) == text::lower(b),
    ensures
        kind_of_ext(Some(a)) == kind_of_ext(Some(b)),
{
}

/// These extensions name images.
pub proof fn lemma_images(e: Seq<char>)
    ensures
        text::lower(e) == "jpg"@ || text::lower(e) == "jpeg"@ || text::lower(e) == "jfif"@
            || text::lower(e) == "png"@ || text::lower(e) == "gif"@ || text::lower(e) == "bmp"@
            || text::lower(e) == "webp"@ || text::lower(e) == "tiff"@ || text::lower(e) == "tif"@
            || text::lower(e) == "heic"@ || text::lower(e) == "heif"@ || text::lower(e) == "avif"@
            || text::lower(e) == "svg"@ || text::lower(e) == "ico"@ <==> kind_of_ext(Some(e))
            == MediaKind::Image,
{
}

/// These extensions name videos.
pub proof fn lemma_videos(e: Seq<char>)
    ensures
        text::lower(e) == "mp4"@ || text::lower(e) == "mkv"@ || text::lower(e) == "avi"@
            || text::lower(e) == "mov"@ || text::lower(e) == "webm"@ || text::lower(e) == "m4v"@
            || text::lower(e) == "flv"@ || text::lower(e) == "wmv"@ || text::lower(e) == "mpg"@
            || text::lower(e) == "mpeg"@ || text::lower(e) == "ts"@ || text::lower(e) == "m2ts"@
            || text::lower(e) == "3gp"@ || text::lower(e) == "ogv"@ || text::lower(e) == "rmvb"@
            || text::lower(e) == "vob"@ <==> kind_of_ext(Some(e)) == MediaKind::Video,
        kind_of_ext(None) == MediaKind::Other,
{
    reveal_strlit("jpg");
    reveal_strlit("jpeg");
    reveal_strlit("jfif");
    reveal_strlit("png");
    reveal_strlit("gif");
    reveal_strlit("bmp");
    reveal_strlit("webp");
    reveal_strlit("tiff");
    reveal_strlit("tif");
    reveal_strlit("heic");
    reveal_strlit("heif");
    reveal_strlit("avif");
    reveal_strlit("svg");
    reveal_strlit("ico");
    reveal_strlit("mp4");
    reveal_strlit("mkv");
    reveal_strlit("avi");
    reveal_strlit("mov");
    reveal_strlit("webm");
    reveal_strlit("m4v");
    reveal_strlit("flv");
    reveal_strlit("wmv");
    reveal_strlit("mpg");
    reveal_strlit("mpeg");
    reveal_strlit("ts");
    reveal_strlit("m2ts");
    reveal_strlit("3gp");
    reveal_strlit("ogv");
    reveal_strlit("rmvb");
    reveal_strlit("vob");
    let s = text::lower(e);
    if s.len() == 3 {
        let t = (s[0], s[1], s[2]);
        assert("jpg"@ =~= seq!['j', 'p', 'g']);
        assert("png"@ =~= seq!['p', 'n', 'g']);
        assert("gif"@ =~= seq!['g', 'i', 'f']);
        assert("bmp"@ =~= seq!['b', 'm', 'p']);
        assert("tif"@ =~= seq!['t', 'i', 'f']);
        assert("svg"@ =~= seq!['s', 'v', 'g']);
        assert("ico"@ =~= seq!['i', 'c', 'o']);
    }
    if s.len() == 4 {
        let t = (s[0], s[1], s[2], s[3]);
        assert("jpeg"@ =~= seq!['j', 'p', 'e', 'g']);
        assert("jfif"@ =~= seq!['j', 'f', 'i', 'f']);
        assert("webp"@ =~= seq!['w', 'e', 'b', 'p']);
        assert("tiff"@ =~= seq!['t', 'i', 'f', 'f']);
        assert("heic"@ =~= seq!['h', 'e', 'i', 'c']);
        assert("heif"@ =~= seq!['h', 'e', 'i', 'f']);
        assert("avif"@ =~= seq!['a', 'v', 'i', 'f']);
    }
}

/// A text that begins with a digit or a point is none of the words for what is
/// no number or too large.
proof fn lemma_no_word(s: Seq<char>)
    requires
        s.len() > 0,
        numeral::is_digit(s[0]) || s[0] == '.',
    ensures
        text::lower(s) != "nan"@,
        text::lower(s) != "inf"@,
        text::lower(s) != "infinity"@,
{
    reveal_strlit("nan");
    reveal_strlit("inf");
    reveal_strlit("infinity");
    let c = text::lower(s)[0];
    assert(c == s[0]);
    assert("nan"@[0] == 'n' && "inf"@[0] == 'i' && "infinity"@[0] == 'i');
}

/// What a numeral with nothing behind it, and a sign or none before it, says as
/// a duration.
proof fn lemma_plain_seconds(num: Seq<char>, sign: Seq<char>)
    requires
        num.len() > 0,
        forall|i: int|
            0 <= i < num.len() ==> numeral::is_digit(#[trigger] num[i]) || num[i] == '.',
        numeral::is_numeral(num),
        sign == Seq::<char>::empty() || sign == seq!['+'] || sign == seq!['-'],
    ensures
        seconds_ms(sign + num) == Some(
            if sign == seq!['-'] {
                0
            } else {
                numeral_ms(num, Seq::empty())
            },
        ),
{
    let s = sign + num;
    let none = Seq::<char>::empty();
    assert(numeral::is_digit(num[0]) || num[0] == '.');
    if sign.len() == 0 {
        assert(s =~= num);
        assert(!has_sign(s));
    } else {
        assert(s[0] == sign[0]);
        assert(s.skip(1) =~= num);
    }
    assert(unsigned(s) == num);
    lemma_no_word(num);
    numeral::lemma_numeral_len(num, none);
    assert(num + none =~= num);
    assert(num.take(num.len() as int) =~= num);
    assert(num.skip(num.len() as int) =~= none);
    if sign == seq!['-'] {
        assert(sign[0] == '-');
    } else if sign.len() > 0 {
        assert(sign[0] == '+');
        assert(seq!['-'][0] == '-');
        assert(sign != seq!['-']);
    } else {
        assert(seq!['-'].len() == 1);
        assert(sign != seq!['-']);
    }
}

/// A whole number of seconds is so many thousand milliseconds. A plus before it
/// changes nothing; with a minus it counts as zero.
pub proof fn lemma_whole_seconds(n: nat)
    requires
        n * 1000 < binary64::MANT_HIGH,
    ensures
        seconds_ms(text::decimal(n)) == Some((n * 1000) as u64),
        seconds_ms(seq!['+'] + text::decimal(n)) == Some((n * 1000) as u64),
        seconds_ms(seq!['-'] + text::decimal(n)) == Some(0u64),
{
    let num = text::decimal(n);
    let none = Seq::<char>::empty();
    numeral::lemma_decimal_value(n);
    numeral::lemma_numeral(num, none);
    lemma_plain_seconds(num, none);
    lemma_plain_seconds(num, seq!['+']);
    lemma_plain_seconds(num, seq!['-']);
    assert(none + num =~= num);
    assert(seq!['+'][0] == '+' && seq!['-'][0] == '-');
    assert(seq!['+'] != seq!['-']);
    assert(seq!['-'].len() == 1);
    assert(none != seq!['-']);
    let digits = numeral::digit_values(num);
    assert(digits + numeral::digit_values(none) =~= digits);
    decimal::lemma_product_whole(n, 1000);
}

/// Seconds with a fraction are, up to rounding, a thousand times as many
/// milliseconds: with `k` digits behind the point, as many as the digits stand
/// for, times a thousand, divided by ten to the power `k`.
pub proof fn lemma_fraction_seconds(whole: Seq<char>, frac: Seq<char>) -> (ms: nat)
    requires
        numeral::digits_only(whole),
        numeral::digits_only(frac),
        whole.len() + frac.len() > 0,
    ensures
        seconds_ms(whole + seq!['.'] + frac) == Some(binary64::clamp64(ms)),
        ({
            let v = decimal::digits_value(
                numeral::digit_values(whole) + numeral::digit_values(frac),
            );
            let d = decimal::ten(frac.len());
            &&& 0x8_0000_0000_0000 * (2 * (ms * d) - 2 * (v * 1000)) <= 2 * (v * 1000)
                + 0x8_0000_0000_0000 * d
            &&& 0x8_0000_0000_0000 * (2 * (v * 1000) - 2 * (ms * d)) <= 2 * (v * 1000)
                + 0x8_0000_0000_0000 * d
        }),
{
    let num = whole + seq!['.'] + frac;
    let none = Seq::<char>::empty();
    numeral::lemma_numeral(whole, frac);
    assert forall|i: int| 0 <= i < num.len() implies numeral::is_digit(#[trigger] num[i]) || num[i]
        == '.' by {
        if i < whole.len() {
            assert(num[i] == whole[i]);
        } else if i > whole.len() {
            assert(num[i] == frac[i - whole.len() - 1]);
        }
    }
    lemma_plain_seconds(num, none);
    assert(none + num =~= num);
    assert(seq!['-'].len() == 1);
    assert(none != seq!['-']);
    let v = decimal::digits_value(numeral::digit_values(whole) + numeral::digit_values(frac));
    let d = decimal::ten(frac.len());
    vstd::arithmetic::power::lemma_pow_positive(10, frac.len());
    vstd::arithmetic::power::lemma_pow0(10);
    decimal::lemma_product_near(v, d, 1000);
    decimal::product(v, d, 1000)
}

/// What is no number at all gives no duration, or none worth speaking of.
pub proof fn lemma_no_seconds(s: Seq<char>)
    ensures
        seconds_ms(Seq::<char>::empty()) is None,
        text::lower(s) == "nan"@ ==> seconds_ms(s) == Some(0u64),
        text::lower(s) == "inf"@ || text::lower(s) == "infinity"@ ==> seconds_ms(s) == Some(
            u64::MAX,
        ),
        s.len() > 0 && !numeral::is_digit(s[0]) && s[0] != '.' && s[0] != '+' && s[0] != '-'
            && text::lower(s) != "nan"@ && text::lower(s) != "inf"@ && text::lower(s)
            != "infinity"@ ==> seconds_ms(s) is None,
{
    let none = Seq::<char>::empty();
    reveal_strlit("nan");
    reveal_strlit("inf");
    reveal_strlit("infinity");
    numeral::lemma_numeral(none, none);
    assert("nan"@[0] == 'n' && "inf"@[0] == 'i' && "infinity"@[0] == 'i');
    if s.len() > 0 {
        let c = text::lower(s)[0];
        assert(c == text::lower_char(s[0]));
        assert(s.take(0) =~= none);
    } else {
        assert(s =~= none);
    }
    assert(text::lower(none).len() == 0);
    assert(none.take(0) =~= none);
}

/// A report tells the size and the codec of its first stream, and the duration
/// of the container.
pub proof fn lemma_report(out: ProbeOutput)
    ensures
        out.streams@.len() > 0 ==> report_view(out).width == out.streams@[0].width && report_view(
            out,
        ).height == out.streams@[0].height && report_view(out).codec == text::option_text(
            out.streams@[0].codec_name,
        ),
        out.streams@.len() == 0 ==> report_view(out).width is None && report_view(out).height
            is None && report_view(out).codec is None,
        out.format is None ==> report_view(out).duration_ms is None,
        out.format is Some && (out.format->0).duration is None ==> report_view(
            out,
        ).duration_ms is None,
        out.format is Some && (out.format->0).duration is Some ==> report_view(out).duration_ms
            == seconds_ms((out.format->0).duration->0@),
{
}

/// The resolution reads as width, the letter x and height, and is there only
/// where both are known; in a summary, what is not known is a question mark.
pub proof fn lemma_resolution(info: MediaView, w: u32, h: u32, ms: u64)
    ensures
        info.width == Some(w) && info.height == Some(h) ==> info.resolution() == Some(
            text::decimal(w as nat) + seq!['x'] + text::decimal(h as nat),
        ),
        info.width is None || info.height is None ==> info.resolution() is None,
        info.resolution() is Some && info.duration_ms is None ==> info.summary()
            == info.resolution()->0,
        info.resolution() is None && info.duration_ms is None ==> info.summary() == seq![
            '?',
            'x',
            '?',
        ],
        info.resolution() is Some && info.duration_ms == Some(ms) ==> info.summary()
            == info.resolution()->0 + seq![',', ' '] + util::duration_text(ms as nat),
        info.resolution() is None && info.duration_ms == Some(ms) ==> info.summary() == seq![
            '?',
            'x',
            '?',
        ] + seq![',', ' '] + util::duration_text(ms as nat),
{
    reveal_strlit("x");
    reveal_strlit("?x?");
    reveal_strlit(", ");
    assert("x"@ =~= seq!['x']);
    assert("?x?"@ =~= seq!['?', 'x', '?']);
    assert(", "@ =~= seq![',', ' ']);
}

/// A whole number of seconds with an exponent is that number times ten to the
/// power of the exponent; the letter before it may be small or large.
pub proof fn lemma_exponent_seconds(n: nat, k: nat, letter: char)
    requires
        letter == 'e' || letter == 'E',
        k > 0,
        n * decimal::ten(k) * 1000 < binary64::MANT_HIGH,
    ensures
        seconds_ms(text::decimal(n) + (seq![letter] + text::decimal(k))) == Some(
            (n * decimal::ten(k) * 1000) as u64,
        ),
{
    let num = text::decimal(n);
    let tail = seq![letter] + text::decimal(k);
    let s = num + tail;
    let none = Seq::<char>::empty();
    numeral::lemma_decimal_value(n);
    numeral::lemma_decimal_value(k);
    numeral::lemma_numeral(num, none);
    assert(numeral::is_digit(num[0]));
    assert(s[0] == num[0]);
    assert(unsigned(s) == s);
    lemma_no_word(s);
    assert(tail[0] == letter);
    numeral::lemma_numeral_len(num, tail);
    let digits = text::decimal(k);
    assert(tail.skip(1) =~= digits);
    assert(numeral::is_digit(digits[0]));
    assert(!has_sign(digits));
    assert(unsigned(digits) == digits);
    assert(is_exponent(tail));
    assert(exponent_value(tail) == k);
    let d = numeral::digit_values(num);
    assert(d + numeral::digit_values(none) =~= d);
    vstd::arithmetic::power::lemma_pow_positive(10, k);
    let v = n * decimal::ten(k);
    decimal::lemma_product_whole(v, 1000);
}

/// A probe tells something exactly where it succeeded, its report could be read,
/// and the report has a stream.
pub proof fn lemma_probed(succeeded: bool, out: ProbeOutput)
    ensures
        probed(succeeded, None) is None,
        probed(false, Some(out)) is None,
        out.streams@.len() == 0 ==> probed(succeeded, Some(out)) is None,
        out.streams@.len() > 0 ==> probed(true, Some(out)) == Some(report_view(out)),
{
}

/// A whole number of seconds with a negative exponent is, up to rounding, that
/// number divided by ten to the power of the exponent.
pub proof fn lemma_small_seconds(n: nat, k: nat) -> (ms: nat)
    requires
        k > 0,
    ensures
        seconds_ms(text::decimal(n) + (seq!['e', '-'] + text::decimal(k))) == Some(
            binary64::clamp64(ms),
        ),
        ({
            let d = decimal::ten(k);
            &&& 0x8_0000_0000_0000 * (2 * (ms * d) - 2 * (n * 1000)) <= 2 * (n * 1000)
                + 0x8_0000_0000_0000 * d
            &&& 0x8_0000_0000_0000 * (2 * (n * 1000) - 2 * (ms * d)) <= 2 * (n * 1000)
                + 0x8_0000_0000_0000 * d
        }),
{
    let num = text::decimal(n);
    let digits = text::decimal(k);
    let tail = seq!['e', '-'] + digits;
    let s = num + tail;
    let none = Seq::<char>::empty();
    numeral::lemma_decimal_value(n);
    numeral::lemma_decimal_value(k);
    numeral::lemma_numeral(num, none);
    assert(numeral::is_digit(num[0]));
    assert(s[0] == num[0]);
    assert(unsigned(s) == s);
    lemma_no_word(s);
    assert(tail[0] == 'e');
    numeral::lemma_numeral_len(num, tail);
    let signed = tail.skip(1);
    assert(signed[0] == '-');
    assert(signed.skip(1) =~= digits);
    assert(unsigned(signed) == digits);
    assert(is_exponent(tail));
    assert(exponent_value(tail) == -(k as int));
    let d = numeral::digit_values(num);
    assert(d + numeral::digit_values(none) =~= d);
    vstd::arithmetic::power::lemma_pow_positive(10, k);
    decimal::lemma_product_near(n, decimal::ten(k), 1000);
    decimal::product(n, decimal::ten(k), 1000)
}

} // verus!
