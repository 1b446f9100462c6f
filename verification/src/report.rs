//! The report for people: what it says, line by line.

use crate::accuracy;
use crate::binary64;
use crate::binary64::{Binary64, Float};
use crate::decimal;
use crate::matching;
use crate::matching::{Group, GroupMember, GroupView, MemberView};
use crate::media::{MediaKind, MediaView};
use crate::numeral;
use crate::paint;
use crate::paint::{blank, end, number, put, put_str, single, Paint, Span, SpanView};
use crate::text;
use crate::text::{chars_of, text_between, to_upper};
use crate::util;
use crate::util::human_bytes;
use vstd::arithmetic::power2::pow2;
use vstd::prelude::*;
use vstd::string::*;

verus! {

/// What the report says of the run as a whole.
pub struct ReportContext {
    pub paths: Vec<String>,
    pub hash_algo: String,
    pub verbose: bool,
    pub ffprobe_used: bool,
}

/// Aggregate counters captured from the scan phase.
pub struct ScanStats {
    pub files_scanned: usize,
    pub bytes_scanned: u64,
    pub dirs_skipped: u64,
    pub files_skipped: u64,
    pub dir_read_errors: Vec<String>,
}

/// The name of a kind of media.
pub open spec fn kind_name(kind: MediaKind) -> Seq<char> {
    match kind {
        MediaKind::Image => "image"@,
        MediaKind::Video => "video"@,
        MediaKind::Other => "file"@,
    }
}

/// Names a kind of media.
pub fn group_kind_name(kind: MediaKind) -> (r: &'static str)
    ensures
        r@ == kind_name(kind),
{
    match kind {
        MediaKind::Image => "image",
        MediaKind::Video => "video",
        MediaKind::Other => "file",
    }
}

/// How many files would be deleted: those that are not kept.
pub open spec fn spare_files(groups: Seq<GroupView>) -> nat
    decreases groups.len(),
{
    if groups.len() == 0 {
        0
    } else {
        let last = groups.last().members;
        (spare_files(groups.drop_last()) + last.len() - matching::kept(last)) as nat
    }
}

/// How many bytes deleting them would free.
pub open spec fn spare_total(groups: Seq<GroupView>) -> nat
    decreases groups.len(),
{
    if groups.len() == 0 {
        0
    } else {
        spare_total(groups.drop_last()) + matching::spare_bytes(groups.last().members)
    }
}

/// Fewer groups have no more to spare.
pub proof fn lemma_spare_grows(groups: Seq<GroupView>, i: int)
    requires
        0 <= i <= groups.len(),
    ensures
        spare_files(groups.take(i)) <= spare_files(groups),
        spare_total(groups.take(i)) <= spare_total(groups),
    decreases groups.len() - i,
{
    if i < groups.len() {
        lemma_spare_grows(groups, i + 1);
        assert(groups.take(i + 1).drop_last() =~= groups.take(i));
        matching::lemma_kept_bound(groups[i].members);
    } else {
        assert(groups.take(i) =~= groups);
    }
}

/// Counts the files that would be deleted.
pub fn dup_file_count(groups: &Vec<Group>) -> (n: u64)
    requires
        spare_files(matching::group_views(groups@)) <= u64::MAX,
    ensures
        n == spare_files(matching::group_views(groups@)),
{
    let ghost views = matching::group_views(groups@);
    let mut n: u64 = 0;
    let mut i: usize = 0;
    while i < groups.len()
        invariant
            0 <= i <= groups@.len(),
            views == matching::group_views(groups@),
            spare_files(views) <= u64::MAX,
            n == spare_files(views.take(i as int)),
        decreases groups@.len() - i,
    {
        proof {
            assert(views.take(i + 1).drop_last() =~= views.take(i as int));
            lemma_spare_grows(views, i + 1);
            matching::lemma_kept_bound(groups@[i as int]@.members);
        }
        n = n + (groups[i].members.len() - groups[i].keep_count()) as u64;
        i = i + 1;
    }
    assert(views.take(i as int) =~= views);
    n
}

/// Counts the bytes that deleting them would free.
pub fn reclaimable_bytes(groups: &Vec<Group>) -> (n: u64)
    requires
        spare_total(matching::group_views(groups@)) <= u64::MAX,
    ensures
        n == spare_total(matching::group_views(groups@)),
{
    let ghost views = matching::group_views(groups@);
    let mut n: u64 = 0;
    let mut i: usize = 0;
    while i < groups.len()
        invariant
            0 <= i <= groups@.len(),
            views == matching::group_views(groups@),
            spare_total(views) <= u64::MAX,
            n == spare_total(views.take(i as int)),
        decreases groups@.len() - i,
    {
        proof {
            assert(views.take(i + 1).drop_last() =~= views.take(i as int));
            lemma_spare_grows(views, i + 1);
        }
        n = n + groups[i].dup_bytes();
        i = i + 1;
    }
    assert(views.take(i as int) =~= views);
    n
}

/// The number of bytes that a character takes in UTF-8.
pub open spec fn utf8_len(c: char) -> nat {
    if (c as u32) < 0x80 {
        1
    } else if (c as u32) < 0x800 {
        2
    } else if (c as u32) < 0x1_0000 {
        3
    } else {
        4
    }
}

/// The number of bytes that a text takes in UTF-8.
pub open spec fn byte_len(s: Seq<char>) -> nat
    decreases s.len(),
{
    if s.len() == 0 {
        0
    } else {
        byte_len(s.drop_last()) + utf8_len(s.last())
    }
}

/// The first `k` characters of a text take `n` bytes.
pub open spec fn cut_at(s: Seq<char>, n: nat, k: int) -> bool {
    0 <= k <= s.len() && byte_len(s.take(k)) == n
}

/// How many bytes of a hash are shown.
pub const SHORT_HASH: usize = 12;

/// The hash can be cut to the bytes that are shown: it has fewer, or a
/// character ends there.
pub open spec fn can_shorten(hash: Seq<char>) -> bool {
    byte_len(hash) < SHORT_HASH || exists|k: int| cut_at(hash, SHORT_HASH as nat, k)
}

/// The part of a hash that is shown: its first bytes.
pub open spec fn short_hash(hash: Seq<char>) -> Seq<char> {
    if byte_len(hash) < SHORT_HASH {
        hash
    } else {
        hash.take(choose|k: int| cut_at(hash, SHORT_HASH as nat, k))
    }
}

proof fn lemma_byte_len_grows(s: Seq<char>, j: int, k: int)
    requires
        0 <= j < k <= s.len(),
    ensures
        byte_len(s.take(j)) < byte_len(s.take(k)),
    decreases k,
{
    assert(s.take(k).drop_last() =~= s.take(k - 1));
    if j < k - 1 {
        lemma_byte_len_grows(s, j, k - 1);
    }
}

/// Counts the characters, and the bytes that they take, up to where as many
/// bytes are reached as are shown.
fn measure(chars: &Vec<char>) -> (r: (usize, usize))
    ensures
        0 <= r.0 <= chars@.len(),
        r.0 == chars@.len() || r.1 >= SHORT_HASH,
        r.1 == byte_len(chars@.take(r.0 as int)),
        forall|j: int| 0 <= j < r.0 ==> byte_len(#[trigger] chars@.take(j)) < SHORT_HASH,
{
    let mut bytes: usize = 0;
    let mut k: usize = 0;
    assert(chars@.take(0) =~= Seq::empty());
    while k < chars.len() && bytes < SHORT_HASH
        invariant
            0 <= k <= chars@.len(),
            bytes < SHORT_HASH + 4,
            bytes == byte_len(chars@.take(k as int)),
            forall|j: int| 0 <= j < k ==> byte_len(#[trigger] chars@.take(j)) < SHORT_HASH,
        decreases chars@.len() - k,
    {
        let u: u32 = chars[k] as u32;
        let size: usize = if u < 0x80 {
            1
        } else if u < 0x800 {
            2
        } else if u < 0x1_0000 {
            3
        } else {
            4
        };
        assert(chars@.take(k + 1).drop_last() =~= chars@.take(k as int));
        bytes = bytes + size;
        k = k + 1;
    }
    (k, bytes)
}

/// Cuts a hash to the part that is shown.
pub fn shorten(hash: &str) -> (out: String)
    requires
        can_shorten(hash@),
    ensures
        out@ == short_hash(hash@),
{
    let chars = chars_of(hash);
    let (k, bytes) = measure(&chars);
    proof {
        if byte_len(hash@) < SHORT_HASH {
            if k < chars@.len() {
                assert(hash@.take(hash@.len() as int) =~= hash@);
                lemma_byte_len_grows(hash@, k as int, hash@.len() as int);
            }
            assert(chars@.subrange(0, k as int) =~= hash@);
        } else {
            let c = choose|c: int| cut_at(hash@, SHORT_HASH as nat, c);
            assert(chars@.take(chars@.len() as int) =~= hash@);
            if c < k {
                assert(byte_len(chars@.take(c)) < SHORT_HASH);
            }
            if c > k {
                lemma_byte_len_grows(hash@, k as int, c);
            }
            assert(c == k);
            assert(chars@.subrange(0, k as int) =~= hash@.take(c));
        }
    }
    text_between(&chars, 0, k)
}

/// A similarity as text: a percentage with one digit after the point.
pub open spec fn percent_text(s: Float) -> Seq<char> {
    binary64::fixed_text(binary64::float_mul(s, binary64::nearest(100, 1)), 1) + "% similar"@
}

/// The similarity is a number that can be written out.
pub open spec fn printable(s: Option<Binary64>) -> bool {
    match s {
        Some(x) => x.moderate() && x.exp <= 31,
        None => true,
    }
}

/// Writes a similarity as a percentage.
pub fn percent(s: Binary64) -> (out: String)
    requires
        printable(Some(s)),
    ensures
        out@ == percent_text(s@),
{
    let hundred = Binary64::from_u64(100);
    proof {
        vstd::arithmetic::power2::lemma2_to64();
        binary64::lemma_nearest_range(100, 1, 6, 7);
    }
    let mut out = s.mul(hundred).fixed(1);
    let ghost number = out@;
    out.append("% similar");
    assert(out@ =~= number + "% similar"@);
    out
}

/// A text filled up with spaces to a width.
pub open spec fn filled(s: Seq<char>, width: nat) -> Seq<char> {
    if s.len() < width {
        s + text::repeated(' ', (width - s.len()) as nat)
    } else {
        s
    }
}

/// Fills a text up with spaces to a width.
fn fill(s: &str, width: usize) -> (out: String)
    ensures
        out@ == filled(s@, width as nat),
{
    let mut out = String::new();
    out.append(s);
    let n = chars_of(s).len();
    let mut k: usize = n;
    assert(out@ =~= s@ + text::repeated(' ', 0));
    while k < width
        invariant
            n == s@.len(),
            n <= k,
            k <= width || k == n,
            out@ == s@ + text::repeated(' ', (k - n) as nat),
        decreases width - k,
    {
        out.push(' ');
        k = k + 1;
        assert(out@ =~= s@ + text::repeated(' ', (k - n) as nat));
    }
    assert(out@ =~= filled(s@, width as nat));
    out
}

/// The length of the longest path.
pub open spec fn widest(members: Seq<MemberView>) -> nat
    decreases members.len(),
{
    if members.len() == 0 {
        0
    } else {
        let rest = widest(members.drop_last());
        let last = members.last().path.text.len();
        if last > rest {
            last
        } else {
            rest
        }
    }
}

/// Finds the length of the longest path.
fn path_width(members: &Vec<GroupMember>) -> (w: usize)
    ensures
        w == widest(matching::member_views(members@)),
{
    let ghost views = matching::member_views(members@);
    let mut w: usize = 0;
    let mut i: usize = 0;
    assert(views.take(0) =~= Seq::empty());
    while i < members.len()
        invariant
            0 <= i <= members@.len(),
            views == matching::member_views(members@),
            w == widest(views.take(i as int)),
        decreases members@.len() - i,
    {
        assert(views.take(i + 1).drop_last() =~= views.take(i as int));
        assert(views.take(i + 1).last() == members@[i as int]@);
        let n = chars_of(members[i].path.text.as_str()).len();
        if n > w {
            w = n;
        }
        i = i + 1;
    }
    assert(views.take(i as int) =~= views);
    w
}

/// What the report says of a file's media: resolution, duration and codec.
pub open spec fn media_text(info: MediaView) -> Seq<char> {
    match info.codec {
        Some(c) => info.summary() + ", "@ + c,
        None => info.summary(),
    }
}

/// What follows the size of a file: how similar it is, unless it is kept.
pub open spec fn similarity_spans(m: MemberView) -> Seq<SpanView> {
    match m.similarity {
        Some(s) => if m.keep {
            Seq::empty()
        } else {
            seq![
                paint::painted(Paint::Plain, "  "@),
                paint::painted(Paint::Dim, "·"@),
                paint::painted(Paint::Plain, " "@),
                paint::painted(Paint::Dim, percent_text(s)),
            ]
        },
        None => Seq::empty(),
    }
}

/// What follows at the end, if the report is to say all: the file's media.
pub open spec fn media_spans(m: MemberView, verbose: bool) -> Seq<SpanView> {
    match m.media {
        Some(info) => if verbose {
            seq![
                paint::painted(Paint::Plain, "  "@),
                paint::painted(Paint::Dim, "·"@),
                paint::painted(Paint::Plain, " "@),
                paint::painted(Paint::Dim, media_text(info)),
            ]
        } else {
            Seq::empty()
        },
        None => Seq::empty(),
    }
}

/// The line of a file: whether it stays, its path and its size. Sizes stand
/// below each other.
pub open spec fn member_line(m: MemberView, width: nat, verbose: bool) -> Seq<SpanView> {
    let head = if m.keep {
        seq![
            paint::painted(Paint::Plain, "  "@),
            paint::painted(Paint::Green, "✓"@),
            paint::painted(Paint::Plain, " "@),
            paint::painted(Paint::GreenBold, "KEEP"@),
            paint::painted(Paint::Plain, "  "@),
        ]
    } else {
        seq![
            paint::painted(Paint::Plain, "  "@),
            paint::painted(Paint::Yellow, "✗"@),
            paint::painted(Paint::Plain, " "@),
            paint::painted(Paint::YellowBold, "DUP"@),
            paint::painted(Paint::Plain, "   "@),
        ]
    };
    head + seq![
        paint::painted(Paint::Plain, filled(m.path.text, width)),
        paint::painted(Paint::Plain, "  "@),
        paint::painted(Paint::Magenta, util::human_bytes_text(m.size)),
    ] + similarity_spans(m) + media_spans(m, verbose)
}

/// How many characters the pieces of a line take.
pub open spec fn line_width(line: Seq<SpanView>) -> nat
    decreases line.len(),
{
    if line.len() == 0 {
        0
    } else {
        line_width(line.drop_last()) + line.last().text.len()
    }
}

proof fn lemma_widest(members: Seq<MemberView>, i: int)
    requires
        0 <= i < members.len(),
    ensures
        members[i].path.text.len() <= widest(members),
    decreases members.len(),
{
    if i < members.len() - 1 {
        lemma_widest(members.drop_last(), i);
    }
}

proof fn lemma_line_head(m: MemberView, width: nat, verbose: bool)
    requires
        m.path.text.len() <= width,
    ensures
        member_line(m, width, verbose).len() >= 8,
        member_line(m, width, verbose)[7].text == util::human_bytes_text(m.size),
        line_width(member_line(m, width, verbose).take(7)) == width + 12,
{
    reveal_strlit("  ");
    reveal_strlit("✓");
    reveal_strlit("✗");
    reveal_strlit(" ");
    reveal_strlit("KEEP");
    reveal_strlit("DUP");
    reveal_strlit("   ");
    let line = member_line(m, width, verbose);
    assert(line.take(7).drop_last() =~= line.take(6));
    assert(line.take(6).drop_last() =~= line.take(5));
    assert(line.take(5).drop_last() =~= line.take(4));
    assert(line.take(4).drop_last() =~= line.take(3));
    assert(line.take(3).drop_last() =~= line.take(2));
    assert(line.take(2).drop_last() =~= line.take(1));
    assert(line.take(1).drop_last() =~= line.take(0));
    assert(line.take(0) =~= Seq::empty());
    reveal_with_fuel(line_width, 8);
}

/// The sizes of a group's files stand below each other: on every line the size
/// begins behind the same number of characters.
pub proof fn lemma_sizes_align(members: Seq<MemberView>, verbose: bool, i: int, j: int)
    requires
        0 <= i < members.len(),
        0 <= j < members.len(),
    ensures
        ({
            let a = member_line(members[i], widest(members), verbose);
            let b = member_line(members[j], widest(members), verbose);
            &&& a.len() >= 8 && a[7].text == util::human_bytes_text(members[i].size)
            &&& b.len() >= 8 && b[7].text == util::human_bytes_text(members[j].size)
            &&& line_width(a.take(7)) == line_width(b.take(7))
        }),
{
    lemma_widest(members, i);
    lemma_widest(members, j);
    lemma_line_head(members[i], widest(members), verbose);
    lemma_line_head(members[j], widest(members), verbose);
}

fn put_member(m: &GroupMember, width: usize, verbose: bool) -> (line: Vec<Span>)
    requires
        printable(m.similarity),
    ensures
        paint::line_view(line@) == member_line(m@, width as nat, verbose),
{
    let mut line: Vec<Span> = Vec::new();
    put_str(&mut line, Paint::Plain, "  ");
    if m.keep {
        put_str(&mut line, Paint::Green, "✓");
        put_str(&mut line, Paint::Plain, " ");
        put_str(&mut line, Paint::GreenBold, "KEEP");
        put_str(&mut line, Paint::Plain, "  ");
    } else {
        put_str(&mut line, Paint::Yellow, "✗");
        put_str(&mut line, Paint::Plain, " ");
        put_str(&mut line, Paint::YellowBold, "DUP");
        put_str(&mut line, Paint::Plain, "   ");
    }
    put(&mut line, Paint::Plain, fill(m.path.text.as_str(), width));
    put_str(&mut line, Paint::Plain, "  ");
    put(&mut line, Paint::Magenta, human_bytes(m.size));
    let ghost base = paint::line_view(line@);
    match m.similarity {
        Some(s) => if !m.keep {
            put_str(&mut line, Paint::Plain, "  ");
            put_str(&mut line, Paint::Dim, "·");
            put_str(&mut line, Paint::Plain, " ");
            put(&mut line, Paint::Dim, percent(s));
        },
        None => {},
    }
    assert(paint::line_view(line@) =~= base + similarity_spans(m@));
    let ghost mid = paint::line_view(line@);
    match &m.media {
        Some(info) => if verbose {
            let mut extra = info.summary();
            match &info.codec {
                Some(c) => {
                    extra.append(", ");
                    extra.append(c.as_str());
                },
                None => {},
            }
            assert(extra@ =~= media_text(info@));
            put_str(&mut line, Paint::Plain, "  ");
            put_str(&mut line, Paint::Dim, "·");
            put_str(&mut line, Paint::Plain, " ");
            put(&mut line, Paint::Dim, extra);
        },
        None => {},
    }
    assert(paint::line_view(line@) =~= mid + media_spans(m@, verbose));
    assert(paint::line_view(line@) =~= member_line(m@, width as nat, verbose));
    line
}

/// How a group is identified: similar files by their similarity, exact
/// duplicates by their content hash.
pub open spec fn ident_span(g: GroupView, algo: Seq<char>) -> SpanView {
    match g.similarity {
        Some(s) => paint::painted(Paint::YellowBold, percent_text(s)),
        None => paint::painted(Paint::Plain, algo + " "@ + short_hash(g.hash)),
    }
}

/// The line that introduces a group.
pub open spec fn group_line(g: GroupView, algo: Seq<char>) -> Seq<SpanView> {
    seq![
        paint::painted(Paint::CyanBold, "◆"@),
        paint::painted(Paint::Plain, " "@),
        paint::painted(Paint::CyanBold, "Group #"@ + text::decimal(g.index)),
        paint::painted(Paint::Plain, " · "@),
        paint::painted(Paint::MagentaBold, text::upper(kind_name(g.media_kind))),
        paint::painted(
            Paint::Plain,
            " · "@ + text::decimal(g.members.len()) + " files · "@ + util::human_bytes_text(
                g.members[0].size,
            ) + " each · "@ + util::human_bytes_text(
                matching::spare_bytes(g.members) as u64,
            ) + " reclaimable · "@,
        ),
        ident_span(g, algo),
    ]
}

/// The line between groups.
pub open spec fn divider() -> Seq<char> {
    text::repeated('─', 48)
}

/// The lines of the first `n` files.
pub open spec fn member_lines(
    members: Seq<MemberView>,
    width: nat,
    verbose: bool,
    n: nat,
) -> Seq<Seq<SpanView>>
    decreases n,
{
    if n == 0 {
        Seq::empty()
    } else {
        member_lines(members, width, verbose, (n - 1) as nat).push(
            member_line(members[n - 1], width, verbose),
        )
    }
}

/// The line on the media of the file that is kept, where it is known.
pub open spec fn keeper_lines(g: GroupView) -> Seq<Seq<SpanView>> {
    match g.members[0].media {
        Some(info) => seq![
            seq![
                paint::painted(Paint::Dim, "  ↳"@),
                paint::painted(Paint::Plain, " "@),
                paint::painted(Paint::Dim, info.summary()),
            ],
        ],
        None => Seq::empty(),
    }
}

/// The lines of a group.
pub open spec fn group_lines(g: GroupView, algo: Seq<char>, verbose: bool) -> Seq<Seq<SpanView>> {
    seq![
        Seq::empty(),
        seq![paint::painted(Paint::Dim, divider())],
        group_line(g, algo),
    ] + keeper_lines(g) + member_lines(g.members, widest(g.members), verbose, g.members.len())
}

/// The group can be reported: it has files, its hash can be cut, and its
/// numbers can be written out.
pub open spec fn reportable(g: Group) -> bool {
    &&& g.members@.len() > 0
    &&& can_shorten(g.hash@)
    &&& printable(g.similarity)
    &&& forall|i: int| 0 <= i < g.members@.len() ==> printable((#[trigger] g.members@[i]).similarity)
    &&& matching::spare_bytes(g@.members) <= u64::MAX
}

fn put_group_line(g: &Group, algo: &str) -> (line: Vec<Span>)
    requires
        reportable(*g),
    ensures
        paint::line_view(line@) == group_line(g@, algo@),
{
    let mut line: Vec<Span> = Vec::new();
    put_str(&mut line, Paint::CyanBold, "◆");
    put_str(&mut line, Paint::Plain, " ");
    let mut title = String::new();
    title.append("Group #");
    title.append(number(g.index as u64).as_str());
    assert(title@ =~= "Group #"@ + text::decimal(g.index as nat));
    put(&mut line, Paint::CyanBold, title);
    put_str(&mut line, Paint::Plain, " · ");
    put(&mut line, Paint::MagentaBold, to_upper(group_kind_name(g.media_kind)));
    let mut counts = String::new();
    counts.append(" · ");
    counts.append(number(g.members.len() as u64).as_str());
    counts.append(" files · ");
    counts.append(human_bytes(g.members[0].size).as_str());
    counts.append(" each · ");
    counts.append(human_bytes(g.dup_bytes()).as_str());
    counts.append(" reclaimable · ");
    assert(counts@ =~= " · "@ + text::decimal(g@.members.len()) + " files · "@
        + util::human_bytes_text(g@.members[0].size) + " each · "@ + util::human_bytes_text(
        matching::spare_bytes(g@.members) as u64,
    ) + " reclaimable · "@);
    put(&mut line, Paint::Plain, counts);
    match g.similarity {
        Some(s) => {
            put(&mut line, Paint::YellowBold, percent(s));
        },
        None => {
            let mut ident = String::new();
            ident.append(algo);
            ident.append(" ");
            ident.append(shorten(g.hash.as_str()).as_str());
            assert(ident@ =~= algo@ + " "@ + short_hash(g.hash@));
            put(&mut line, Paint::Plain, ident);
        },
    }
    assert(paint::line_view(line@) =~= group_line(g@, algo@));
    line
}

/// The line between groups.
fn rule_text() -> (rule: String)
    ensures
        rule@ == divider(),
{
    let mut rule = String::new();
    let mut k: usize = 0;
    assert(rule@ =~= text::repeated('─', 0));
    while k < 48
        invariant
            0 <= k <= 48,
            rule@ == text::repeated('─', k as nat),
        decreases 48 - k,
    {
        rule.push('─');
        k = k + 1;
        assert(rule@ =~= text::repeated('─', k as nat));
    }
    rule
}

fn put_keeper(lines: &mut Vec<Vec<Span>>, g: &Group)
    requires
        g.members@.len() > 0,
    ensures
        paint::report_view(final(lines)@) == paint::report_view(old(lines)@) + keeper_lines(g@),
{
    let ghost before = paint::report_view(lines@);
    assert(g@.members[0] == g.members@[0]@);
    match &g.members[0].media {
        Some(info) => {
            let mut note: Vec<Span> = Vec::new();
            put_str(&mut note, Paint::Dim, "  ↳");
            put_str(&mut note, Paint::Plain, " ");
            put(&mut note, Paint::Dim, info.summary());
            assert(paint::line_view(note@) =~= keeper_lines(g@)[0]);
            end(lines, note);
        },
        None => {},
    }
    assert(paint::report_view(lines@) =~= before + keeper_lines(g@));
}

fn put_members(lines: &mut Vec<Vec<Span>>, g: &Group, verbose: bool)
    requires
        reportable(*g),
    ensures
        paint::report_view(final(lines)@) == paint::report_view(old(lines)@) + member_lines(
            g@.members,
            widest(g@.members),
            verbose,
            g@.members.len(),
        ),
{
    let ghost before = paint::report_view(lines@);
    let ghost members = g@.members;
    let width = path_width(&g.members);
    let mut i: usize = 0;
    assert(paint::report_view(lines@) =~= before + member_lines(members, width as nat, verbose, 0));
    while i < g.members.len()
        invariant
            0 <= i <= g.members@.len(),
            reportable(*g),
            members == g@.members,
            paint::report_view(lines@) == before + member_lines(
                members,
                width as nat,
                verbose,
                i as nat,
            ),
        decreases g.members@.len() - i,
    {
        assert(printable(g.members@[i as int].similarity));
        let line = put_member(&g.members[i], width, verbose);
        end(lines, line);
        i = i + 1;
        assert(paint::report_view(lines@) =~= before + member_lines(
            members,
            width as nat,
            verbose,
            i as nat,
        ));
    }
}

fn put_group(lines: &mut Vec<Vec<Span>>, g: &Group, algo: &str, verbose: bool)
    requires
        reportable(*g),
    ensures
        paint::report_view(final(lines)@) == paint::report_view(old(lines)@) + group_lines(
            g@,
            algo@,
            verbose,
        ),
{
    let ghost before = paint::report_view(lines@);
    blank(lines);
    single(lines, Paint::Dim, rule_text());
    let line = put_group_line(g, algo);
    end(lines, line);
    let ghost head = seq![
        Seq::empty(),
        seq![paint::painted(Paint::Dim, divider())],
        group_line(g@, algo@),
    ];
    assert(paint::report_view(lines@) =~= before + head);
    put_keeper(lines, g);
    put_members(lines, g, verbose);
    assert(paint::report_view(lines@) =~= before + group_lines(g@, algo@, verbose));
}

fn put_groups(lines: &mut Vec<Vec<Span>>, groups: &Vec<Group>, algo: &str, verbose: bool)
    requires
        all_reportable(groups@),
    ensures
        paint::report_view(final(lines)@) == paint::report_view(old(lines)@) + all_group_lines(
            matching::group_views(groups@),
            algo@,
            verbose,
            groups@.len(),
        ),
{
    let ghost before = paint::report_view(lines@);
    let ghost views = matching::group_views(groups@);
    let mut i: usize = 0;
    assert(paint::report_view(lines@) =~= before + all_group_lines(views, algo@, verbose, 0));
    while i < groups.len()
        invariant
            0 <= i <= groups@.len(),
            all_reportable(groups@),
            views == matching::group_views(groups@),
            paint::report_view(lines@) == before + all_group_lines(
                views,
                algo@,
                verbose,
                i as nat,
            ),
        decreases groups@.len() - i,
    {
        assert(reportable(groups@[i as int]));
        put_group(lines, &groups[i], algo, verbose);
        i = i + 1;
        assert(paint::report_view(lines@) =~= before + all_group_lines(
            views,
            algo@,
            verbose,
            i as nat,
        ));
    }
}

/// The line that sums the run up.
pub open spec fn summary_text(
    paths: nat,
    stats: ScanStats,
    groups: nat,
    dups: nat,
) -> Seq<char> {
    "Scanned "@ + text::decimal(paths) + " path(s) · "@ + text::decimal(stats.files_scanned as nat)
        + " files ("@ + util::human_bytes_text(stats.bytes_scanned) + ") · "@ + text::decimal(groups)
        + " duplicate group(s) · "@ + text::decimal(dups) + " duplicate file(s)"@
}

/// The lines that sum the run up.
pub open spec fn summary_lines(
    paths: nat,
    stats: ScanStats,
    groups: nat,
    dups: nat,
) -> Seq<Seq<SpanView>> {
    seq![
        Seq::empty(),
        seq![paint::painted(Paint::Bold, summary_text(paths, stats, groups, dups))],
    ]
}

/// What is said where there are no duplicates.
pub open spec fn none_lines() -> Seq<Seq<SpanView>> {
    seq![
        Seq::empty(),
        seq![paint::painted(Paint::GreenBold, "✔ No duplicate files found."@)],
    ]
}

/// What is said where media could not be probed.
pub open spec fn probe_note() -> Seq<char> {
    "Note: ffprobe not found on PATH; image/video resolution and duration are not reported. Install FFmpeg to enable media metadata."@
}

/// The line on what could be reclaimed, if there is anything.
pub open spec fn reclaim_lines(bytes: nat) -> Seq<Seq<SpanView>> {
    if bytes > 0 {
        seq![
            seq![
                paint::painted(
                    Paint::YellowBold,
                    "Reclaimable with --delete: "@ + util::human_bytes_text(bytes as u64),
                ),
            ],
        ]
    } else {
        Seq::empty()
    }
}

/// The line on what was skipped, if anything was.
pub open spec fn skip_lines(stats: ScanStats) -> Seq<Seq<SpanView>> {
    if stats.dirs_skipped > 0 || stats.files_skipped > 0 {
        seq![
            seq![
                paint::painted(
                    Paint::Dim,
                    "Skipped "@ + text::decimal(stats.files_skipped as nat) + " file(s) and "@
                        + text::decimal(stats.dirs_skipped as nat)
                        + " directory tree(s) via filters."@,
                ),
            ],
        ]
    } else {
        Seq::empty()
    }
}

/// The line on what could not be read, if there is anything.
pub open spec fn error_lines(errors: Seq<Seq<char>>) -> Seq<Seq<SpanView>> {
    if errors.len() > 0 {
        seq![
            seq![
                paint::painted(Paint::Yellow, "⚠"@),
                paint::painted(Paint::Plain, " "@),
                paint::painted(
                    Paint::Yellow,
                    text::decimal(errors.len()) + " path(s) could not be read (first: "@ + errors[0]
                        + ")"@,
                ),
            ],
        ]
    } else {
        Seq::empty()
    }
}

/// The note on probing, where it was not used.
pub open spec fn note_lines(ffprobe_used: bool) -> Seq<Seq<SpanView>> {
    if !ffprobe_used {
        seq![seq![paint::painted(Paint::Dim, probe_note())]]
    } else {
        Seq::empty()
    }
}

/// The lines of the first `n` groups.
pub open spec fn all_group_lines(
    groups: Seq<GroupView>,
    algo: Seq<char>,
    verbose: bool,
    n: nat,
) -> Seq<Seq<SpanView>>
    decreases n,
{
    if n == 0 {
        Seq::empty()
    } else {
        all_group_lines(groups, algo, verbose, (n - 1) as nat) + group_lines(
            groups[n - 1],
            algo,
            verbose,
        )
    }
}

/// The tip at the end, if there is anything to delete.
pub open spec fn tip_lines(dups: nat) -> Seq<Seq<SpanView>> {
    if dups > 0 {
        seq![
            Seq::empty(),
            seq![
                paint::painted(Paint::CyanBold, "Tip:"@),
                paint::painted(Paint::Plain, " run with "@),
                paint::painted(Paint::Green, "--delete"@),
                paint::painted(
                    Paint::Plain,
                    " to remove the "@ + text::decimal(dups) + " duplicate file(s), or "@,
                ),
                paint::painted(Paint::Green, "--delete --keep-smaller"@),
                paint::painted(Paint::Plain, " to prefer the smallest copy."@),
            ],
        ]
    } else {
        Seq::empty()
    }
}

/// What comes before the groups.
pub open spec fn opening_lines(
    ctx: ReportContext,
    stats: ScanStats,
    groups: Seq<GroupView>,
) -> Seq<Seq<SpanView>> {
    summary_lines(ctx.paths@.len(), stats, groups.len(), spare_files(groups)) + reclaim_lines(spare_total(groups)) + skip_lines(stats) + error_lines(
        text::texts(stats.dir_read_errors@),
    ) + note_lines(ctx.ffprobe_used)
}

/// The lines of the report.
pub open spec fn report_lines(
    ctx: ReportContext,
    stats: ScanStats,
    groups: Seq<GroupView>,
) -> Seq<Seq<SpanView>> {
    if groups.len() == 0 {
        opening_lines(ctx, stats, groups) + none_lines()
    } else {
        opening_lines(ctx, stats, groups) + all_group_lines(
            groups,
            ctx.hash_algo@,
            ctx.verbose,
            groups.len(),
        ) + tip_lines(spare_files(groups))
    }
}

/// All groups can be reported, and so can what they add up to.
pub open spec fn all_reportable(groups: Seq<Group>) -> bool {
    &&& forall|i: int| 0 <= i < groups.len() ==> reportable(#[trigger] groups[i])
    &&& spare_files(matching::group_views(groups)) <= u64::MAX
    &&& spare_total(matching::group_views(groups)) <= u64::MAX
}

fn put_summary(
    lines: &mut Vec<Vec<Span>>,
    ctx: &ReportContext,
    stats: &ScanStats,
    groups: usize,
    dups: u64,
)
    ensures
        paint::report_view(final(lines)@) == paint::report_view(old(lines)@) + summary_lines(
            ctx.paths@.len(),
            *stats,
            groups as nat,
            dups as nat,
        ),
{
    let ghost before = paint::report_view(lines@);
    blank(lines);
    let mut summary = String::new();
    summary.append("Scanned ");
    summary.append(number(ctx.paths.len() as u64).as_str());
    summary.append(" path(s) · ");
    summary.append(number(stats.files_scanned as u64).as_str());
    summary.append(" files (");
    summary.append(human_bytes(stats.bytes_scanned).as_str());
    summary.append(") · ");
    summary.append(number(groups as u64).as_str());
    summary.append(" duplicate group(s) · ");
    summary.append(number(dups).as_str());
    summary.append(" duplicate file(s)");
    assert(summary@ =~= summary_text(ctx.paths@.len(), *stats, groups as nat, dups as nat));
    single(lines, Paint::Bold, summary);
    assert(paint::report_view(lines@) =~= before + summary_lines(
        ctx.paths@.len(),
        *stats,
        groups as nat,
        dups as nat,
    ));
}

fn put_reclaim(lines: &mut Vec<Vec<Span>>, reclaim: u64)
    ensures
        paint::report_view(final(lines)@) == paint::report_view(old(lines)@) + reclaim_lines(
            reclaim as nat,
        ),
{
    let ghost before = paint::report_view(lines@);
    if reclaim > 0 {
        let mut line = String::new();
        line.append("Reclaimable with --delete: ");
        line.append(human_bytes(reclaim).as_str());
        assert(line@ =~= "Reclaimable with --delete: "@ + util::human_bytes_text(reclaim));
        single(lines, Paint::YellowBold, line);
    }
    assert(paint::report_view(lines@) =~= before + reclaim_lines(reclaim as nat));
}

fn put_skipped(lines: &mut Vec<Vec<Span>>, stats: &ScanStats)
    ensures
        paint::report_view(final(lines)@) == paint::report_view(old(lines)@) + skip_lines(*stats),
{
    let ghost before = paint::report_view(lines@);
    if stats.dirs_skipped > 0 || stats.files_skipped > 0 {
        let mut line = String::new();
        line.append("Skipped ");
        line.append(number(stats.files_skipped).as_str());
        line.append(" file(s) and ");
        line.append(number(stats.dirs_skipped).as_str());
        line.append(" directory tree(s) via filters.");
        assert(line@ =~= "Skipped "@ + text::decimal(stats.files_skipped as nat) + " file(s) and "@
            + text::decimal(stats.dirs_skipped as nat) + " directory tree(s) via filters."@);
        single(lines, Paint::Dim, line);
    }
    assert(paint::report_view(lines@) =~= before + skip_lines(*stats));
}

fn put_errors(lines: &mut Vec<Vec<Span>>, stats: &ScanStats)
    ensures
        paint::report_view(final(lines)@) == paint::report_view(old(lines)@) + error_lines(
            text::texts(stats.dir_read_errors@),
        ),
{
    let ghost before = paint::report_view(lines@);
    let ghost errors = text::texts(stats.dir_read_errors@);
    if stats.dir_read_errors.len() > 0 {
        let mut what = number(stats.dir_read_errors.len() as u64);
        what.append(" path(s) could not be read (first: ");
        what.append(stats.dir_read_errors[0].as_str());
        what.append(")");
        assert(what@ =~= text::decimal(errors.len()) + " path(s) could not be read (first: "@
            + errors[0] + ")"@);
        let mut line: Vec<Span> = Vec::new();
        put_str(&mut line, Paint::Yellow, "⚠");
        put_str(&mut line, Paint::Plain, " ");
        put(&mut line, Paint::Yellow, what);
        assert(paint::line_view(line@) =~= error_lines(errors)[0]);
        end(lines, line);
    }
    assert(paint::report_view(lines@) =~= before + error_lines(errors));
}

fn put_note(lines: &mut Vec<Vec<Span>>, ffprobe_used: bool)
    ensures
        paint::report_view(final(lines)@) == paint::report_view(old(lines)@) + note_lines(
            ffprobe_used,
        ),
{
    let ghost before = paint::report_view(lines@);
    if !ffprobe_used {
        let mut note = String::new();
        note.append(
            "Note: ffprobe not found on PATH; image/video resolution and duration are not reported. Install FFmpeg to enable media metadata.",
        );
        assert(note@ =~= probe_note());
        single(lines, Paint::Dim, note);
    }
    assert(paint::report_view(lines@) =~= before + note_lines(ffprobe_used));
}

fn put_none(lines: &mut Vec<Vec<Span>>)
    ensures
        paint::report_view(final(lines)@) == paint::report_view(old(lines)@) + none_lines(),
{
    let ghost before = paint::report_view(lines@);
    blank(lines);
    let mut none = String::new();
    none.append("✔ No duplicate files found.");
    assert(none@ =~= "✔ No duplicate files found."@);
    single(lines, Paint::GreenBold, none);
    assert(paint::report_view(lines@) =~= before + none_lines());
}

fn put_tip(lines: &mut Vec<Vec<Span>>, dups: u64)
    ensures
        paint::report_view(final(lines)@) == paint::report_view(old(lines)@) + tip_lines(
            dups as nat,
        ),
{
    let ghost before = paint::report_view(lines@);
    if dups > 0 {
        blank(lines);
        let mut line: Vec<Span> = Vec::new();
        put_str(&mut line, Paint::CyanBold, "Tip:");
        put_str(&mut line, Paint::Plain, " run with ");
        put_str(&mut line, Paint::Green, "--delete");
        let mut what = String::new();
        what.append(" to remove the ");
        what.append(number(dups).as_str());
        what.append(" duplicate file(s), or ");
        assert(what@ =~= " to remove the "@ + text::decimal(dups as nat)
            + " duplicate file(s), or "@);
        put(&mut line, Paint::Plain, what);
        put_str(&mut line, Paint::Green, "--delete --keep-smaller");
        put_str(&mut line, Paint::Plain, " to prefer the smallest copy.");
        assert(paint::line_view(line@) =~= tip_lines(dups as nat)[1]);
        end(lines, line);
    }
    assert(paint::report_view(lines@) =~= before + tip_lines(dups as nat));
}

/// Writes the report for people, line by line.
pub fn human_report(ctx: &ReportContext, stats: &ScanStats, groups: &Vec<Group>) -> (lines: Vec<
    Vec<Span>,
>)
    requires
        all_reportable(groups@),
    ensures
        paint::report_view(lines@) == report_lines(*ctx, *stats, matching::group_views(groups@)),
{
    let ghost views = matching::group_views(groups@);
    let reclaim = reclaimable_bytes(groups);
    let dups = dup_file_count(groups);
    let mut lines: Vec<Vec<Span>> = Vec::new();
    let ghost start = paint::report_view(lines@);
    put_summary(&mut lines, ctx, stats, groups.len(), dups);
    put_reclaim(&mut lines, reclaim);
    put_skipped(&mut lines, stats);
    put_errors(&mut lines, stats);
    put_note(&mut lines, ctx.ffprobe_used);
    assert(start =~= Seq::empty());
    assert(start + summary_lines(ctx.paths@.len(), *stats, views.len(), spare_files(views))
        =~= summary_lines(ctx.paths@.len(), *stats, views.len(), spare_files(views)));
    if groups.len() == 0 {
        put_none(&mut lines);
    } else {
        put_groups(&mut lines, groups, ctx.hash_algo.as_str(), ctx.verbose);
        put_tip(&mut lines, dups);
    }
    lines
}

fn can_print(s: Option<Binary64>) -> (r: bool)
    ensures
        r == printable(s),
{
    match s {
        Some(x) => ((x.mant == 0 && x.exp == 0) || (binary64::MANT_LOW <= x.mant && x.mant
            < binary64::MANT_HIGH)) && -100_000 <= x.exp && x.exp <= 31,
        None => true,
    }
}

/// Tells whether a hash can be cut to the part that is shown.
fn can_cut(hash: &str) -> (r: bool)
    ensures
        r == can_shorten(hash@),
{
    let chars = chars_of(hash);
    let (k, bytes) = measure(&chars);
    proof {
        let n = hash@.len() as int;
        assert(hash@.take(n) =~= hash@);
        if bytes == SHORT_HASH {
            assert(cut_at(hash@, SHORT_HASH as nat, k as int));
        } else if bytes > SHORT_HASH {
            assert forall|c: int| !cut_at(hash@, SHORT_HASH as nat, c) by {
                if cut_at(hash@, SHORT_HASH as nat, c) {
                    if c < k {
                        assert(byte_len(chars@.take(c)) < SHORT_HASH);
                    } else if c > k {
                        lemma_byte_len_grows(hash@, k as int, c);
                    }
                }
            }
            if k < n {
                lemma_byte_len_grows(hash@, k as int, n);
            }
        }
    }
    bytes <= SHORT_HASH
}

/// Adds up the bytes that deleting the files of a group would free, as far as
/// they can be counted.
fn spare_sum(g: &Group) -> (r: Option<u64>)
    ensures
        match r {
            Some(n) => n == matching::spare_bytes(g@.members),
            None => matching::spare_bytes(g@.members) > u64::MAX,
        },
{
    let mut n: u64 = 0;
    let mut i: usize = 0;
    while i < g.members.len()
        invariant
            0 <= i <= g.members@.len(),
            n == matching::spare_bytes(g@.members.take(i as int)),
        decreases g.members@.len() - i,
    {
        proof {
            assert(g@.members.take(i + 1).drop_last() =~= g@.members.take(i as int));
            matching::lemma_spare_bytes_grow(g@.members, i + 1);
        }
        if !g.members[i].keep {
            if g.members[i].size > u64::MAX - n {
                return None;
            }
            n = n + g.members[i].size;
        }
        i = i + 1;
    }
    assert(g@.members.take(i as int) =~= g@.members);
    Some(n)
}

/// Tells whether groups can be reported.
pub fn can_report(groups: &Vec<Group>) -> (r: bool)
    ensures
        r == all_reportable(groups@),
{
    let ghost views = matching::group_views(groups@);
    let mut files: u64 = 0;
    let mut total: u64 = 0;
    let mut i: usize = 0;
    while i < groups.len()
        invariant
            0 <= i <= groups@.len(),
            views == matching::group_views(groups@),
            files == spare_files(views.take(i as int)),
            total == spare_total(views.take(i as int)),
            forall|j: int| 0 <= j < i ==> reportable(#[trigger] groups@[j]),
        decreases groups@.len() - i,
    {
        let g = &groups[i];
        proof {
            assert(views.take(i + 1).drop_last() =~= views.take(i as int));
            assert(views.take(i + 1).last() == g@);
            lemma_spare_grows(views, i + 1);
            matching::lemma_kept_bound(g@.members);
        }
        if g.members.len() == 0 || !can_cut(g.hash.as_str()) || !can_print(g.similarity) {
            assert(!reportable(groups@[i as int]));
            return false;
        }
        let mut k: usize = 0;
        while k < g.members.len()
            invariant
                i < groups@.len(),
                *g == groups@[i as int],
                0 <= k <= g.members@.len(),
                forall|j: int| 0 <= j < k ==> printable((#[trigger] g.members@[j]).similarity),
            decreases g.members@.len() - k,
        {
            if !can_print(g.members[k].similarity) {
                assert(!reportable(groups@[i as int]));
                return false;
            }
            k = k + 1;
        }
        let bytes = match spare_sum(g) {
            Some(n) => n,
            None => {
                assert(!reportable(groups@[i as int]));
                return false;
            },
        };
        let count = (g.members.len() - g.keep_count()) as u64;
        if count > u64::MAX - files || bytes > u64::MAX - total {
            return false;
        }
        files = files + count;
        total = total + bytes;
        i = i + 1;
    }
    assert(views.take(i as int) =~= views);
    true
}

/// What would be deleted adds up over the groups, and of one group it is what is
/// not kept.
pub proof fn lemma_spare_sums(a: Seq<GroupView>, b: Seq<GroupView>, g: GroupView)
    ensures
        spare_files(a + b) == spare_files(a) + spare_files(b),
        spare_total(a + b) == spare_total(a) + spare_total(b),
        spare_files(seq![g]) + matching::kept(g.members) == g.members.len(),
        spare_total(seq![g]) == matching::spare_bytes(g.members),
        spare_files(Seq::<GroupView>::empty()) == 0,
        spare_total(Seq::<GroupView>::empty()) == 0,
    decreases b.len(),
{
    let one = seq![g];
    let none = Seq::<GroupView>::empty();
    assert(one.drop_last() =~= none);
    assert(one.last() == g);
    assert(spare_files(none) == 0 && spare_total(none) == 0);
    matching::lemma_kept_bound(g.members);
    if b.len() == 0 {
        assert(a + b =~= a);
    } else {
        assert((a + b).drop_last() =~= a + b.drop_last());
        assert((a + b).last() == b.last());
        matching::lemma_kept_bound(b.last().members);
        lemma_spare_sums(a, b.drop_last(), g);
    }
}

/// The line of a file tells whether it is kept, its path, and its size.
pub proof fn lemma_member_told(m: MemberView, width: nat, verbose: bool)
    ensures
        ({
            let line = member_line(m, width, verbose);
            &&& line.len() >= 8
            &&& m.keep ==> line[3].text == "KEEP"@
            &&& !m.keep ==> line[3].text == "DUP"@
            &&& line[5].text.take(m.path.text.len() as int) == m.path.text
            &&& forall|i: int|
                m.path.text.len() <= i < line[5].text.len() ==> #[trigger] line[5].text[i] == ' '
            &&& line[7].text == util::human_bytes_text(m.size)
        }),
{
    let line = member_line(m, width, verbose);
    assert(line[5].text == filled(m.path.text, width));
    assert(line[5].text.take(m.path.text.len() as int) =~= m.path.text);
}

/// The line of a file that is not kept tells how similar it is to the one that
/// is, where that is known; that of the one that is kept does not.
pub proof fn lemma_similarity_told(m: MemberView, width: nat, verbose: bool)
    ensures
        !m.keep && m.similarity is Some ==> member_line(m, width, verbose).len() >= 12
            && member_line(m, width, verbose)[11].text == percent_text(m.similarity->0),
        (m.keep || m.similarity is None) && (!verbose || m.media is None) ==> member_line(
            m,
            width,
            verbose,
        ).len() == 8,
        (m.keep || m.similarity is None) && verbose && m.media is Some ==> member_line(
            m,
            width,
            verbose,
        ).len() == 12 && member_line(m, width, verbose)[11].text == media_text(m.media->0),
{
}

proof fn lemma_member_line_at(
    members: Seq<MemberView>,
    width: nat,
    verbose: bool,
    n: nat,
    m: int,
)
    requires
        0 <= m < n,
    ensures
        member_lines(members, width, verbose, n).len() == n,
        member_lines(members, width, verbose, n)[m] == member_line(members[m], width, verbose),
    decreases n,
{
    lemma_member_lines_len(members, width, verbose, n);
    lemma_member_lines_len(members, width, verbose, (n - 1) as nat);
    if m < n - 1 {
        lemma_member_line_at(members, width, verbose, (n - 1) as nat, m);
    }
}

proof fn lemma_member_lines_len(members: Seq<MemberView>, width: nat, verbose: bool, n: nat)
    ensures
        member_lines(members, width, verbose, n).len() == n,
    decreases n,
{
    if n > 0 {
        lemma_member_lines_len(members, width, verbose, (n - 1) as nat);
    }
}

proof fn lemma_group_line_at(
    groups: Seq<GroupView>,
    algo: Seq<char>,
    verbose: bool,
    n: nat,
    g: int,
    k: int,
) -> (at: int)
    requires
        0 <= g < n,
        0 <= k < group_lines(groups[g], algo, verbose).len(),
    ensures
        0 <= at < all_group_lines(groups, algo, verbose, n).len(),
        all_group_lines(groups, algo, verbose, n)[at] == group_lines(groups[g], algo, verbose)[k],
    decreases n,
{
    let front = all_group_lines(groups, algo, verbose, (n - 1) as nat);
    if g == n - 1 {
        front.len() + k
    } else {
        lemma_group_line_at(groups, algo, verbose, (n - 1) as nat, g, k)
    }
}

/// The report has a line for every file of every group.
pub proof fn lemma_every_file_told(
    ctx: ReportContext,
    stats: ScanStats,
    groups: Seq<GroupView>,
    g: int,
    m: int,
) -> (at: int)
    requires
        0 <= g < groups.len(),
        0 <= m < groups[g].members.len(),
    ensures
        0 <= at < report_lines(ctx, stats, groups).len(),
        report_lines(ctx, stats, groups)[at] == member_line(
            groups[g].members[m],
            widest(groups[g].members),
            ctx.verbose,
        ),
{
    let members = groups[g].members;
    let algo = ctx.hash_algo@;
    lemma_member_line_at(members, widest(members), ctx.verbose, members.len(), m);
    let lines = group_lines(groups[g], algo, ctx.verbose);
    let k = lines.len() - members.len() + m;
    let at = lemma_group_line_at(groups, algo, ctx.verbose, groups.len(), g, k);
    opening_lines(ctx, stats, groups).len() + at
}

/// Pieces of a text occur in it.
proof fn lemma_piece(before: Seq<char>, part: Seq<char>, after: Seq<char>)
    ensures
        text::contains_text(before + part + after, part),
{
    text::lemma_contains(before + part + after, part);
}

proof fn lemma_group_words(
    a: Seq<char>,
    b: Seq<char>,
    f: Seq<char>,
    g: Seq<char>,
    c: Seq<char>,
    d: Seq<char>,
    e: Seq<char>,
    r: Seq<char>,
    s: Seq<char>,
)
    ensures
        text::contains_text(a + b + (f + g) + c + d + e + (r + s), b + f),
        text::contains_text(a + b + (f + g) + c + d + e + (r + s), e + r),
{
    let told = a + b + (f + g) + c + d + e + (r + s);
    lemma_piece(a, b + f, g + c + d + e + (r + s));
    assert(told =~= a + (b + f) + (g + c + d + e + (r + s)));
    lemma_piece(a + b + (f + g) + c + d, e + r, s);
    assert(told =~= (a + b + (f + g) + c + d) + (e + r) + s);
}

/// What the line that introduces a group says of its files.
proof fn lemma_group_counts(g: GroupView, algo: Seq<char>)
    ensures
        text::contains_text(
            group_line(g, algo)[5].text,
            text::decimal(g.members.len()) + " files"@,
        ),
        text::contains_text(
            group_line(g, algo)[5].text,
            util::human_bytes_text(matching::spare_bytes(g.members) as u64) + " reclaimable"@,
        ),
{
    reveal_strlit(" files · ");
    reveal_strlit(" files");
    reveal_strlit(" reclaimable · ");
    reveal_strlit(" reclaimable");
    let files = " files · "@;
    let rec = " reclaimable · "@;
    assert(files =~= " files"@ + files.skip(6));
    assert(rec =~= " reclaimable"@ + rec.skip(12));
    lemma_group_words(
        " · "@,
        text::decimal(g.members.len()),
        " files"@,
        files.skip(6),
        util::human_bytes_text(g.members[0].size),
        " each · "@,
        util::human_bytes_text(matching::spare_bytes(g.members) as u64),
        " reclaimable"@,
        rec.skip(12),
    );
}

/// The report introduces every group by its number, its kind and how many files
/// it has: similar files with their similarity, others with the beginning of
/// their hash.
pub proof fn lemma_every_group_told(
    ctx: ReportContext,
    stats: ScanStats,
    groups: Seq<GroupView>,
    g: int,
) -> (at: int)
    requires
        0 <= g < groups.len(),
    ensures
        0 <= at < report_lines(ctx, stats, groups).len(),
        ({
            let line = report_lines(ctx, stats, groups)[at];
            &&& line.len() == 7
            &&& line[2].text == "Group #"@ + text::decimal(groups[g].index)
            &&& line[4].text == text::upper(kind_name(groups[g].media_kind))
            &&& text::contains_text(
                line[5].text,
                text::decimal(groups[g].members.len()) + " files"@,
            )
            &&& text::contains_text(
                line[5].text,
                util::human_bytes_text(matching::spare_bytes(groups[g].members) as u64)
                    + " reclaimable"@,
            )
            &&& groups[g].similarity is Some ==> line[6].text == percent_text(
                groups[g].similarity->0,
            )
            &&& groups[g].similarity is None ==> line[6].text == ctx.hash_algo@ + " "@
                + short_hash(groups[g].hash)
        }),
{
    let algo = ctx.hash_algo@;
    let at = lemma_group_line_at(groups, algo, ctx.verbose, groups.len(), g, 2);
    lemma_group_counts(groups[g], algo);
    assert(group_lines(groups[g], algo, ctx.verbose)[2] == group_line(groups[g], algo));
    opening_lines(ctx, stats, groups).len() + at
}

proof fn lemma_summary_words(
    a: Seq<char>,
    paths: Seq<char>,
    q: Seq<char>,
    r: Seq<char>,
    files: Seq<char>,
    f: Seq<char>,
    bytes: Seq<char>,
    c: Seq<char>,
    sets: Seq<char>,
    e: Seq<char>,
    d: Seq<char>,
    dups: Seq<char>,
    z: Seq<char>,
)
    ensures
        ({
            let told = a + paths + (q + r) + files + f + bytes + c + sets + (e + d) + dups + z;
            &&& text::contains_text(told, paths + q)
            &&& text::contains_text(told, files + f)
            &&& text::contains_text(told, bytes)
            &&& text::contains_text(told, sets + e)
            &&& text::contains_text(told, dups + z)
        }),
{
    let none = Seq::<char>::empty();
    let x = a + paths + (q + r);
    let y = x + files + f;
    let w = y + bytes + c;
    let v = w + sets + (e + d);
    let told = v + dups + z;
    let t1 = dups + z;
    let t2 = sets + (e + d) + t1;
    let t3 = bytes + c + t2;
    let t4 = files + f + t3;
    assert(v + t1 =~= told);
    assert(w + t2 =~= v + t1);
    assert(y + t3 =~= w + t2);
    assert(x + t4 =~= y + t3);
    lemma_piece(a, paths + q, r + t4);
    assert(a + (paths + q) + (r + t4) =~= x + t4);
    lemma_piece(x, files + f, t3);
    assert(x + (files + f) + t3 =~= y + t3);
    lemma_piece(y, bytes, c + t2);
    assert(y + bytes + (c + t2) =~= w + t2);
    lemma_piece(w, sets + e, d + t1);
    assert(w + (sets + e) + (d + t1) =~= v + t1);
    lemma_piece(v, dups + z, none);
    assert(v + (dups + z) + none =~= told);
}

/// The report says what was scanned and what was found: how many paths, files
/// and bytes, how many groups, and how many files would be deleted.
pub proof fn lemma_opening_told(ctx: ReportContext, stats: ScanStats, groups: Seq<GroupView>)
    ensures
        ({
            let lines = report_lines(ctx, stats, groups);
            let told = lines[1][0].text;
            &&& lines.len() >= 2
            &&& text::contains_text(told, text::decimal(ctx.paths@.len()) + " path(s)"@)
            &&& text::contains_text(told, text::decimal(stats.files_scanned as nat) + " files ("@)
            &&& text::contains_text(told, util::human_bytes_text(stats.bytes_scanned))
            &&& text::contains_text(told, text::decimal(groups.len()) + " duplicate group(s)"@)
            &&& text::contains_text(
                told,
                text::decimal(spare_files(groups)) + " duplicate file(s)"@,
            )
        }),
{
    let told = summary_text(ctx.paths@.len(), stats, groups.len(), spare_files(groups));
    assert(report_lines(ctx, stats, groups)[1] == seq![paint::painted(Paint::Bold, told)]);
    reveal_strlit(" path(s) · ");
    reveal_strlit(" path(s)");
    reveal_strlit(" duplicate group(s) · ");
    reveal_strlit(" duplicate group(s)");
    let p = " path(s) · "@;
    let d = " duplicate group(s) · "@;
    assert(p =~= " path(s)"@ + p.skip(8));
    assert(d =~= " duplicate group(s)"@ + d.skip(19));
    lemma_summary_words(
        "Scanned "@,
        text::decimal(ctx.paths@.len()),
        " path(s)"@,
        p.skip(8),
        text::decimal(stats.files_scanned as nat),
        " files ("@,
        util::human_bytes_text(stats.bytes_scanned),
        ") · "@,
        text::decimal(groups.len()),
        " duplicate group(s)"@,
        d.skip(19),
        text::decimal(spare_files(groups)),
        " duplicate file(s)"@,
    );
}

/// There is a line on what could be reclaimed where there is anything, on what
/// was skipped where anything was, on what could not be read where there is
/// anything, on probing where it was not used, and a tip where there is anything
/// to delete.
pub proof fn lemma_notes_told(ctx: ReportContext, stats: ScanStats, groups: Seq<GroupView>)
    ensures
        spare_total(groups) == 0 <==> reclaim_lines(spare_total(groups)).len() == 0,
        stats.dirs_skipped == 0 && stats.files_skipped == 0 <==> skip_lines(stats).len() == 0,
        stats.dir_read_errors@.len() == 0 <==> error_lines(
            text::texts(stats.dir_read_errors@),
        ).len() == 0,
        ctx.ffprobe_used <==> note_lines(ctx.ffprobe_used).len() == 0,
        spare_files(groups) == 0 <==> tip_lines(spare_files(groups)).len() == 0,
{
}

proof fn lemma_ascii_bytes(s: Seq<char>)
    requires
        forall|i: int| 0 <= i < s.len() ==> (#[trigger] s[i] as u32) < 0x80,
    ensures
        byte_len(s) == s.len(),
    decreases s.len(),
{
    if s.len() > 0 {
        assert((s[s.len() - 1] as u32) < 0x80);
        assert forall|i: int| 0 <= i < s.drop_last().len() implies (#[trigger] s.drop_last()[i]
            as u32) < 0x80 by {
            assert(s.drop_last()[i] == s[i]);
        }
        lemma_ascii_bytes(s.drop_last());
    }
}

/// Of a hash in ASCII, as all hexadecimal ones are, the first twelve characters
/// are shown; of a shorter one, all.
pub proof fn lemma_short_hash(hash: Seq<char>)
    requires
        forall|i: int| 0 <= i < hash.len() ==> (#[trigger] hash[i] as u32) < 0x80,
    ensures
        hash.len() >= 12 ==> short_hash(hash) == hash.take(12),
        hash.len() < 12 ==> short_hash(hash) == hash,
        can_shorten(hash),
{
    lemma_ascii_bytes(hash);
    if hash.len() >= 12 {
        let t = hash.take(12);
        assert forall|i: int| 0 <= i < t.len() implies (#[trigger] t[i] as u32) < 0x80 by {
            assert(t[i] == hash[i]);
        }
        lemma_ascii_bytes(t);
        assert(cut_at(hash, 12, 12));
        let k = choose|k: int| cut_at(hash, SHORT_HASH as nat, k);
        if k < 12 {
            lemma_byte_len_grows(hash, k, 12);
        } else if k > 12 {
            lemma_byte_len_grows(hash, 12, k);
        }
    }
}

/// A similarity as a percentage has one digit behind the point: what is written,
/// in tenths of a percent, is off by a half, and by the exact value's part in
/// `2^53`, at most.
pub proof fn lemma_percent(x: Float) -> (parts: (Seq<char>, Seq<char>))
    requires
        binary64::MANT_LOW <= x.mant < binary64::MANT_HIGH,
        -1000 <= x.exp <= 1000,
    ensures
        percent_text(x) == parts.0 + seq!['.'] + parts.1 + "% similar"@,
        numeral::digits_only(parts.0),
        parts.0.len() > 0,
        numeral::digits_only(parts.1),
        parts.1.len() == 1,
        ({
            let v = decimal::digits_value(
                numeral::digit_values(parts.0) + numeral::digit_values(parts.1),
            );
            &&& binary64::MANT_HIGH * (2 * (v * x.below()) - 2 * (1000 * x.above()))
                <= binary64::MANT_HIGH * x.below() + 2 * (1000 * x.above())
            &&& binary64::MANT_HIGH * (2 * (1000 * x.above()) - 2 * (v * x.below()))
                <= binary64::MANT_HIGH * x.below() + 2 * (1000 * x.above())
        }),
{
    let h = binary64::nearest(100, 1);
    let z = binary64::float_mul(x, h);
    accuracy::lemma_small(100, 52);
    accuracy::lemma_mul(x, h, 2000, 52);
    let parts = accuracy::lemma_fixed_text(z, 1);
    vstd::arithmetic::power::lemma_pow1(10);
    let v = decimal::digits_value(
        numeral::digit_values(parts.0) + numeral::digit_values(parts.1),
    );
    accuracy::lemma_units_fraction(z, 2052);
    accuracy::lemma_units_fraction(x, 2000);
    vstd::arithmetic::power2::lemma_pow2_adds(2000, 52);
    vstd::arithmetic::power2::lemma_pow2_pos(52);
    lemma_tenths(
        v,
        x.above(),
        x.below(),
        z.above(),
        z.below(),
        accuracy::units(x, 2000),
        accuracy::units(z, 2052),
        pow2(2000),
        pow2(52),
    );
    parts
}

proof fn lemma_ratio_kept(h: int, left: int, right: int, x: int, a: int, b: int, k: int)
    requires
        h * left <= right,
        left * x == a * k,
        right * x == b * k,
        x > 0,
        k > 0,
    ensures
        h * a <= b,
{
    assert((h * left) * x <= right * x) by (nonlinear_arith)
        requires
            h * left <= right,
            x > 0,
    ;
    assert((h * left) * x == (h * a) * k) by (nonlinear_arith)
        requires
            left * x == a * k,
    ;
    assert(h * a <= b) by (nonlinear_arith)
        requires
            (h * a) * k <= b * k,
            k > 0,
    ;
}

/// From what the digits stand for to the exact value.
proof fn lemma_tenths(
    v: nat,
    xa: nat,
    xb: nat,
    za: nat,
    zb: nat,
    u: nat,
    w: nat,
    p: nat,
    q: nat,
)
    requires
        xb > 0,
        zb > 0,
        p > 0,
        q > 0,
        u * xb == xa * p,
        w * zb == za * (p * q),
        accuracy::near(w, u * (100 * q)),
        2 * (v * zb - za * 10) <= zb,
        2 * (za * 10 - v * zb) <= zb,
    ensures
        binary64::MANT_HIGH * (2 * (v * xb) - 2 * (1000 * xa)) <= binary64::MANT_HIGH * xb + 2 * (
        1000 * xa),
        binary64::MANT_HIGH * (2 * (1000 * xa) - 2 * (v * xb)) <= binary64::MANT_HIGH * xb + 2 * (
        1000 * xa),
{
    let h = binary64::MANT_HIGH as int;
    let k = (p * q) as int;
    let vk = v * k;
    assert(2 * (vk - 10 * w) <= k && 2 * (10 * w - vk) <= k) by (nonlinear_arith)
        requires
            w * zb == za * k,
            2 * (v * zb - za * 10) <= zb,
            2 * (za * 10 - v * zb) <= zb,
            vk == v * k,
            zb > 0,
            k >= 0,
    {
        assert((2 * (v * zb - za * 10)) * k <= zb * k);
        assert((2 * (v * zb - za * 10)) * k == 2 * (vk * zb) - 20 * (za * k));
        assert((2 * (vk - 10 * w)) * zb == 2 * (vk * zb) - 20 * (w * zb));
        assert((2 * (vk - 10 * w)) * zb <= k * zb);
        assert((2 * (za * 10 - v * zb)) * k <= zb * k);
        assert((2 * (za * 10 - v * zb)) * k == 20 * (za * k) - 2 * (vk * zb));
        assert((2 * (10 * w - vk)) * zb == 20 * (w * zb) - 2 * (vk * zb));
        assert((2 * (10 * w - vk)) * zb <= k * zb);
    }
    let e = (u * (100 * q)) as int;
    assert(h * (2 * vk - 20 * e) <= h * k + 20 * e && h * (20 * e - 2 * vk) <= h * k + 20 * e);
    let eb = e * xb;
    assert(eb == 100 * (xa * k)) by (nonlinear_arith)
        requires
            eb == e * xb,
            e == u * (100 * q),
            u * xb == xa * p,
            k == p * q,
    {
        assert((u * (100 * q)) * xb == (u * xb) * (100 * q));
        assert((xa * p) * (100 * q) == 100 * (xa * (p * q)));
    }
    assert(k > 0) by (nonlinear_arith)
        requires
            k == p * q,
            p > 0,
            q > 0,
    ;
    let left = 2 * vk - 20 * e;
    let right = h * k + 20 * e;
    let vx = (v * xb) as int;
    let a = 2 * vx - 2000 * xa;
    let b = h * xb + 2000 * xa;
    assert(left * xb == a * k) by (nonlinear_arith)
        requires
            left == 2 * vk - 20 * e,
            a == 2 * vx - 2000 * xa,
            vk == v * k,
            vx == v * xb,
            eb == e * xb,
            eb == 100 * (xa * k),
    ;
    assert(right * xb == b * k) by (nonlinear_arith)
        requires
            right == h * k + 20 * e,
            b == h * xb + 2000 * xa,
            eb == e * xb,
            eb == 100 * (xa * k),
    ;
    lemma_ratio_kept(h, left, right, xb as int, a, b, k);
    assert((-left) * xb == (-a) * k) by (nonlinear_arith)
        requires
            left * xb == a * k,
    ;
    lemma_ratio_kept(h, -left, right, xb as int, -a, b, k);
}

/// The notes tell the numbers that they are about: how many bytes could be
/// reclaimed, how many files and directories were skipped, how many paths could
/// not be read and which was the first, and how many files could be removed.
pub proof fn lemma_note_numbers(stats: ScanStats, bytes: u64, errors: Seq<Seq<char>>, dups: nat)
    ensures
        bytes > 0 ==> text::contains_text(
            reclaim_lines(bytes as nat)[0][0].text,
            util::human_bytes_text(bytes),
        ),
        skip_lines(stats).len() > 0 ==> text::contains_text(
            skip_lines(stats)[0][0].text,
            text::decimal(stats.files_skipped as nat) + " file(s)"@,
        ) && text::contains_text(
            skip_lines(stats)[0][0].text,
            text::decimal(stats.dirs_skipped as nat) + " directory tree(s)"@,
        ),
        errors.len() > 0 ==> text::contains_text(
            error_lines(errors)[0][2].text,
            text::decimal(errors.len()) + " path(s)"@,
        ) && text::contains_text(error_lines(errors)[0][2].text, errors[0]),
        dups > 0 ==> text::contains_text(
            tip_lines(dups)[1][3].text,
            text::decimal(dups) + " duplicate file(s)"@,
        ),
{
    let none = Seq::<char>::empty();
    let shown = util::human_bytes_text(bytes);
    let claim = "Reclaimable with --delete: "@;
    lemma_piece(claim, shown, none);
    assert(claim + shown + none =~= claim + shown);
    lemma_skip_words(stats);
    if errors.len() > 0 {
        lemma_error_words(errors);
    }
    let count = text::decimal(dups);
    reveal_strlit(" duplicate file(s), or ");
    reveal_strlit(" duplicate file(s)");
    let rest = " duplicate file(s), or "@;
    assert(rest =~= " duplicate file(s)"@ + rest.skip(18));
    let head = " to remove the "@;
    lemma_piece(head, count + " duplicate file(s)"@, rest.skip(18));
    assert(head + count + rest =~= head + (count + " duplicate file(s)"@) + rest.skip(18));
}

proof fn lemma_skip_words(stats: ScanStats)
    ensures
        skip_lines(stats).len() > 0 ==> text::contains_text(
            skip_lines(stats)[0][0].text,
            text::decimal(stats.files_skipped as nat) + " file(s)"@,
        ) && text::contains_text(
            skip_lines(stats)[0][0].text,
            text::decimal(stats.dirs_skipped as nat) + " directory tree(s)"@,
        ),
{
    reveal_strlit(" file(s) and ");
    reveal_strlit(" file(s)");
    reveal_strlit(" directory tree(s) via filters.");
    reveal_strlit(" directory tree(s)");
    let files = " file(s) and "@;
    let dirs = " directory tree(s) via filters."@;
    assert(files =~= " file(s)"@ + files.skip(8));
    assert(dirs =~= " directory tree(s)"@ + dirs.skip(18));
    let none = Seq::<char>::empty();
    lemma_group_words(
        "Skipped "@,
        text::decimal(stats.files_skipped as nat),
        " file(s)"@,
        files.skip(8),
        none,
        none,
        text::decimal(stats.dirs_skipped as nat),
        " directory tree(s)"@,
        dirs.skip(18),
    );
    let head = "Skipped "@ + text::decimal(stats.files_skipped as nat) + files;
    assert(head + none + none =~= head);
}

proof fn lemma_error_words(errors: Seq<Seq<char>>)
    requires
        errors.len() > 0,
    ensures
        text::contains_text(
            error_lines(errors)[0][2].text,
            text::decimal(errors.len()) + " path(s)"@,
        ),
        text::contains_text(error_lines(errors)[0][2].text, errors[0]),
{
    reveal_strlit(" path(s) could not be read (first: ");
    reveal_strlit(" path(s)");
    let said = " path(s) could not be read (first: "@;
    assert(said =~= " path(s)"@ + said.skip(8));
    let count = text::decimal(errors.len());
    let none = Seq::<char>::empty();
    let told = count + said + errors[0] + ")"@;
    lemma_piece(none, count + " path(s)"@, said.skip(8) + errors[0] + ")"@);
    assert(none + (count + " path(s)"@) + (said.skip(8) + errors[0] + ")"@) =~= told);
    lemma_piece(count + said, errors[0], ")"@);
}

/// What is said of the media of the file that is kept is its resolution and
/// duration, and nothing where it is not known.
pub proof fn lemma_keeper_media_told(g: GroupView)
    ensures
        g.members[0].media is None ==> keeper_lines(g).len() == 0,
        g.members[0].media is Some ==> keeper_lines(g).len() == 1 && keeper_lines(g)[0][2].text
            == (g.members[0].media->0).summary(),
{
}

/// The kinds of media have these names.
pub proof fn lemma_kind_names()
    ensures
        text::upper(kind_name(MediaKind::Image)) == "IMAGE"@,
        text::upper(kind_name(MediaKind::Video)) == "VIDEO"@,
        text::upper(kind_name(MediaKind::Other)) == "FILE"@,
{
    reveal_strlit("image");
    reveal_strlit("video");
    reveal_strlit("file");
    reveal_strlit("IMAGE");
    reveal_strlit("VIDEO");
    reveal_strlit("FILE");
    assert(text::upper("image"@) =~= "IMAGE"@);
    assert(text::upper("video"@) =~= "VIDEO"@);
    assert(text::upper("file"@) =~= "FILE"@);
}

/// The report comes group by group: the lines of a group follow those of the
/// groups before it, and nothing else stands among them.
pub proof fn lemma_group_by_group(
    groups: Seq<GroupView>,
    more: Seq<GroupView>,
    algo: Seq<char>,
    verbose: bool,
)
    ensures
        all_group_lines(groups + more, algo, verbose, (groups + more).len()) == all_group_lines(
            groups,
            algo,
            verbose,
            groups.len(),
        ) + all_group_lines(more, algo, verbose, more.len()),
    decreases more.len(),
{
    lemma_lines_of_front(groups, more, algo, verbose, groups.len());
    lemma_lines_of_back(groups, more, algo, verbose, more.len());
}

proof fn lemma_lines_of_front(
    groups: Seq<GroupView>,
    more: Seq<GroupView>,
    algo: Seq<char>,
    verbose: bool,
    n: nat,
)
    requires
        n <= groups.len(),
    ensures
        all_group_lines(groups + more, algo, verbose, n) == all_group_lines(
            groups,
            algo,
            verbose,
            n,
        ),
    decreases n,
{
    if n > 0 {
        lemma_lines_of_front(groups, more, algo, verbose, (n - 1) as nat);
        assert((groups + more)[n - 1] == groups[n - 1]);
    }
}

proof fn lemma_lines_of_back(
    groups: Seq<GroupView>,
    more: Seq<GroupView>,
    algo: Seq<char>,
    verbose: bool,
    n: nat,
)
    requires
        n <= more.len(),
        all_group_lines(groups + more, algo, verbose, groups.len()) == all_group_lines(
            groups,
            algo,
            verbose,
            groups.len(),
        ),
    ensures
        all_group_lines(groups + more, algo, verbose, groups.len() + n) == all_group_lines(
            groups,
            algo,
            verbose,
            groups.len(),
        ) + all_group_lines(more, algo, verbose, n),
    decreases n,
{
    let front = all_group_lines(groups, algo, verbose, groups.len());
    if n == 0 {
        assert(front + all_group_lines(more, algo, verbose, 0) =~= front);
    } else {
        lemma_lines_of_back(groups, more, algo, verbose, (n - 1) as nat);
        let m = groups.len() + n;
        assert((groups + more)[m - 1] == more[n - 1]);
        assert(front + all_group_lines(more, algo, verbose, n) =~= front + all_group_lines(
            more,
            algo,
            verbose,
            (n - 1) as nat,
        ) + group_lines(more[n - 1], algo, verbose));
    }
}

/// The lines of a group: an empty one, a divider, the one that introduces it,
/// the media of the file that is kept where it is known, and one for each file,
/// in their order.
pub proof fn lemma_lines_of_group(g: GroupView, algo: Seq<char>, verbose: bool, m: int)
    requires
        0 <= m < g.members.len(),
    ensures
        ({
            let lines = group_lines(g, algo, verbose);
            &&& lines.len() == 3 + keeper_lines(g).len() + g.members.len()
            &&& lines[0].len() == 0
            &&& lines[2] == group_line(g, algo)
            &&& lines[3 + keeper_lines(g).len() + m] == member_line(
                g.members[m],
                widest(g.members),
                verbose,
            )
        }),
{
    lemma_member_line_at(g.members, widest(g.members), verbose, g.members.len(), m);
}

/// What is said of a file's media is its summary, and its codec where that is
/// known.
pub proof fn lemma_media_told(info: MediaView)
    ensures
        info.codec is None ==> media_text(info) == info.summary(),
        info.codec is Some ==> media_text(info) == info.summary() + seq![',', ' ']
            + info.codec->0,
{
    reveal_strlit(", ");
    assert(", "@ =~= seq![',', ' ']);
}

/// The line that introduces a group tells the size of its first file.
pub proof fn lemma_each_told(g: GroupView, algo: Seq<char>)
    ensures
        text::contains_text(
            group_line(g, algo)[5].text,
            util::human_bytes_text(g.members[0].size) + " each"@,
        ),
{
    reveal_strlit(" each · ");
    reveal_strlit(" each");
    let each = " each · "@;
    assert(each =~= " each"@ + each.skip(5));
    let dot = " · "@;
    let count = text::decimal(g.members.len());
    let files = " files · "@;
    let size = util::human_bytes_text(g.members[0].size);
    let spare = util::human_bytes_text(matching::spare_bytes(g.members) as u64);
    let rec = " reclaimable · "@;
    let head = dot + count + files;
    let told = head + size + each + spare + rec;
    lemma_piece(head, size + " each"@, each.skip(5) + spare + rec);
    assert(told =~= head + (size + " each"@) + (each.skip(5) + spare + rec));
}

} // verus!
