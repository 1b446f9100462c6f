//! Which files a scan collects.

use crate::cli::Cli;
use crate::path;
use crate::path::{FilePath, PathView};
use crate::path_table;
use crate::path_table::PathTable;
use crate::text;
use crate::text::{chars_of, contains, same_text, text_between, to_lower, trim};
use vstd::prelude::*;
use vstd::string::*;

verus! {

/// A single discovered file.
#[derive(Debug)]
pub struct FileEntry {
    pub path: FilePath,
    pub size: u64,
    /// Modification time in whole seconds since the Unix epoch, if readable.
    pub mtime_secs: Option<i64>,
}

/// What is known of a discovered file.
#[verifier::ext_equal]
pub struct EntryView {
    pub path: PathView,
    pub size: u64,
    pub mtime_secs: Option<i64>,
}

impl View for FileEntry {
    type V = EntryView;

    open spec fn view(&self) -> EntryView {
        EntryView { path: self.path@, size: self.size, mtime_secs: self.mtime_secs }
    }
}

impl Clone for FileEntry {
    fn clone(&self) -> (r: Self)
        ensures
            r@ == self@,
    {
        FileEntry { path: self.path.clone(), size: self.size, mtime_secs: self.mtime_secs }
    }
}

/// What is known of each file in a list.
pub open spec fn entry_views(entries: Seq<FileEntry>) -> Seq<EntryView> {
    entries.map_values(|e: FileEntry| e@)
}

/// What a scan found.
#[derive(Debug)]
pub struct ScanResult {
    pub entries: Vec<FileEntry>,
    /// Where each of these files really is, whatever way its path is spelled.
    pub real_paths: Vec<FilePath>,
    pub dirs_skipped: u64,
    pub files_skipped: u64,
    pub dir_read_errors: Vec<String>,
}

/// What a scan found.
#[verifier::ext_equal]
pub struct ResultView {
    pub entries: Seq<EntryView>,
    pub real_paths: Seq<PathView>,
    pub dirs_skipped: nat,
    pub files_skipped: nat,
    pub dir_read_errors: Seq<Seq<char>>,
}

impl View for ScanResult {
    type V = ResultView;

    open spec fn view(&self) -> ResultView {
        ResultView {
            entries: entry_views(self.entries@),
            real_paths: path_table::path_views(self.real_paths@),
            dirs_skipped: self.dirs_skipped as nat,
            files_skipped: self.files_skipped as nat,
            dir_read_errors: text::texts(self.dir_read_errors@),
        }
    }
}

/// What a scan of nothing finds.
pub open spec fn nothing_found() -> ResultView {
    ResultView {
        entries: Seq::empty(),
        real_paths: Seq::empty(),
        dirs_skipped: 0,
        files_skipped: 0,
        dir_read_errors: Seq::empty(),
    }
}

impl Default for ScanResult {
    fn default() -> (r: Self)
        ensures
            r@ == nothing_found(),
    {
        let r = ScanResult {
            entries: Vec::new(),
            real_paths: Vec::new(),
            dirs_skipped: 0,
            files_skipped: 0,
            dir_read_errors: Vec::new(),
        };
        assert(r@ =~= nothing_found());
        r
    }
}

impl ScanResult {
    pub fn new() -> (r: Self)
        ensures
            r@ == nothing_found(),
    {
        ScanResult::default()
    }
}

/// A text without the dots that it begins with.
pub open spec fn undotted(s: Seq<char>) -> Seq<char>
    decreases s.len(),
{
    if s.len() > 0 && s[0] == '.' {
        undotted(s.skip(1))
    } else {
        s
    }
}

/// An extension as the filter knows it: without white space around it, without
/// leading dots, in lower case.
pub open spec fn plain_extension(s: Seq<char>) -> Seq<char> {
    text::lower(undotted(text::trimmed(s)))
}

/// The extensions that a list asks for.
pub open spec fn wanted_extensions(exts: Seq<Seq<char>>) -> Set<Seq<char>>
    decreases exts.len(),
{
    if exts.len() == 0 {
        Set::empty()
    } else {
        let e = plain_extension(exts.last());
        if e.len() == 0 {
            wanted_extensions(exts.drop_last())
        } else {
            wanted_extensions(exts.drop_last()).insert(e)
        }
    }
}

/// A set of extensions.
pub struct ExtensionFilter {
    exts: Vec<String>,
}

/// The members of a list as a set.
spec fn listed(exts: Seq<Seq<char>>) -> Set<Seq<char>>
    decreases exts.len(),
{
    if exts.len() == 0 {
        Set::empty()
    } else {
        listed(exts.drop_last()).insert(exts.last())
    }
}

/// A list without repetition has as many members as positions.
proof fn lemma_listed(exts: Seq<Seq<char>>)
    ensures
        forall|e: Seq<char>| #[trigger] listed(exts).contains(e) <==> exts.contains(e),
        listed(exts).finite(),
        exts.no_duplicates() ==> listed(exts).len() == exts.len(),
    decreases exts.len(),
{
    if exts.len() > 0 {
        let front = exts.drop_last();
        lemma_listed(front);
        assert forall|e: Seq<char>| #[trigger] listed(exts).contains(e) <==> exts.contains(e) by {
            if exts.contains(e) {
                let i = choose|i: int| 0 <= i < exts.len() && exts[i] == e;
                if i < front.len() {
                    assert(front[i] == e);
                    assert(front.contains(e));
                }
            }
            if listed(exts).contains(e) {
                if e == exts.last() {
                    assert(exts[exts.len() - 1] == e);
                } else {
                    assert(front.contains(e));
                    let i = choose|i: int| 0 <= i < front.len() && front[i] == e;
                    assert(exts[i] == e);
                }
            }
        }
        if exts.no_duplicates() {
            assert(front.no_duplicates());
            assert(!front.contains(exts.last())) by {
                if front.contains(exts.last()) {
                    let i = choose|i: int| 0 <= i < front.len() && front[i] == exts.last();
                    assert(exts[i] == exts[exts.len() - 1]);
                }
            }
        }
    }
}

impl View for ExtensionFilter {
    type V = Set<Seq<char>>;

    closed spec fn view(&self) -> Set<Seq<char>> {
        listed(text::texts(self.exts@))
    }
}

impl ExtensionFilter {
    /// No extension is listed twice.
    pub closed spec fn well_formed(&self) -> bool {
        text::texts(self.exts@).no_duplicates()
    }

    /// Tells whether an extension is in the set.
    pub fn contains(&self, ext: &str) -> (r: bool)
        ensures
            r == self@.contains(ext@),
    {
        let ghost all = text::texts(self.exts@);
        proof {
            lemma_listed(all);
        }
        let mut i: usize = 0;
        while i < self.exts.len()
            invariant
                0 <= i <= self.exts@.len(),
                all == text::texts(self.exts@),
                forall|e: Seq<char>| #[trigger] self@.contains(e) <==> all.contains(e),
                forall|j: int| 0 <= j < i ==> #[trigger] all[j] != ext@,
            decreases self.exts@.len() - i,
        {
            if same_text(self.exts[i].as_str(), ext) {
                assert(all[i as int] == ext@);
                return true;
            }
            i = i + 1;
        }
        false
    }

    /// How many extensions are in the set.
    pub fn len(&self) -> (n: usize)
        requires
            self.well_formed(),
        ensures
            n == self@.len(),
    {
        proof {
            lemma_listed(text::texts(self.exts@));
        }
        self.exts.len()
    }

    /// Tells whether the set is empty.
    pub fn is_empty(&self) -> (r: bool)
        ensures
            r == (self@ == Set::<Seq<char>>::empty()),
    {
        let ghost all = text::texts(self.exts@);
        proof {
            lemma_listed(all);
            if all.len() == 0 {
                assert(self@ =~= Set::<Seq<char>>::empty());
            } else {
                assert(all.contains(all[0]));
                assert(self@.contains(all[0]));
            }
        }
        self.exts.len() == 0
    }
}

/// Takes the dots off the front of a text.
fn strip_dots(s: &str) -> (out: String)
    ensures
        out@ == undotted(s@),
{
    let chars = chars_of(s);
    let n = chars.len();
    let mut lo: usize = 0;
    assert(chars@.skip(0) =~= chars@);
    while lo < n && chars[lo] == '.'
        invariant
            n == chars@.len(),
            0 <= lo <= n,
            undotted(chars@) == undotted(chars@.skip(lo as int)),
        decreases n - lo,
    {
        assert(chars@.skip(lo as int).skip(1) =~= chars@.skip(lo + 1));
        lo = lo + 1;
    }
    assert(chars@.skip(lo as int) =~= chars@.subrange(lo as int, n as int));
    text_between(&chars, lo, n)
}

/// Build a set of lower-cased extensions (dots stripped).
pub fn extension_filter(exts: &Vec<String>) -> (r: ExtensionFilter)
    ensures
        r.well_formed(),
        r@ == wanted_extensions(text::texts(exts@)),
{
    let ghost asked = text::texts(exts@);
    let mut r = ExtensionFilter { exts: Vec::new() };
    let mut i: usize = 0;
    assert(asked.take(0) =~= Seq::empty());
    while i < exts.len()
        invariant
            0 <= i <= exts@.len(),
            asked == text::texts(exts@),
            r.well_formed(),
            r@ == wanted_extensions(asked.take(i as int)),
        decreases exts@.len() - i,
    {
        let e = to_lower(strip_dots(trim(exts[i].as_str()).as_str()).as_str());
        assert(asked.take(i + 1).drop_last() =~= asked.take(i as int));
        assert(asked.take(i + 1).last() == exts@[i as int]@);
        let ghost before = text::texts(r.exts@);
        if e.as_str().unicode_len() > 0 {
            if !r.contains(e.as_str()) {
                proof {
                    lemma_listed(before);
                }
                r.exts.push(e);
                proof {
                    let after = text::texts(r.exts@);
                    assert(after =~= before.push(e@));
                    assert(after.drop_last() =~= before);
                    assert forall|a: int, b: int| 0 <= a < after.len() && 0 <= b < after.len() && a
                        != b implies after[a] != after[b] by {
                        assert(!before.contains(e@));
                        if a < before.len() && b < before.len() {
                            assert(before[a] != before[b]);
                        } else if a < before.len() {
                            assert(before.contains(before[a]));
                        } else {
                            assert(before.contains(before[b]));
                        }
                    }
                }
            } else {
                assert(r@.insert(e@) =~= r@);
            }
        }
        i = i + 1;
    }
    assert(asked.take(i as int) =~= asked);
    r
}

/// The path has one of the extensions, whatever its case.
pub open spec fn has_extension(p: PathView, filter: Set<Seq<char>>) -> bool {
    match path::bytes_text(p.extension()) {
        Some(e) => filter.contains(text::lower(e)),
        None => false,
    }
}

/// Tells whether a path has one of the extensions.
pub fn matches_extension(path: &FilePath, filter: &ExtensionFilter) -> (r: bool)
    ensures
        r == has_extension(path@, filter@),
{
    match path.extension() {
        None => false,
        Some(ext) => filter.contains(to_lower(ext.as_str()).as_str()),
    }
}

/// One of the parts occurs in the text.
pub open spec fn has_any(whole: Seq<char>, parts: Seq<Seq<char>>) -> bool {
    exists|i: int| 0 <= i < parts.len() && text::contains_text(whole, #[trigger] parts[i])
}

fn contains_any(whole: &str, parts: &Vec<String>) -> (r: bool)
    ensures
        r == has_any(whole@, text::texts(parts@)),
{
    let ghost all = text::texts(parts@);
    let mut i: usize = 0;
    while i < parts.len()
        invariant
            0 <= i <= parts@.len(),
            all == text::texts(parts@),
            forall|j: int| 0 <= j < i ==> !text::contains_text(whole@, #[trigger] all[j]),
        decreases parts@.len() - i,
    {
        if contains(whole, parts[i].as_str()) {
            assert(text::contains_text(whole@, all[i as int]));
            return true;
        }
        i = i + 1;
    }
    false
}

/// The directory's name holds one of the excluded texts.
pub open spec fn excluded_dir(p: PathView, parts: Seq<Seq<char>>) -> bool {
    match path::bytes_text(p.file_name()) {
        Some(name) => has_any(name, parts),
        None => false,
    }
}

/// Tells whether a directory is excluded by its name.
pub fn matches_excluded_dir(path: &FilePath, cli: &Cli) -> (r: bool)
    ensures
        r == excluded_dir(path@, text::texts(cli.exclude_dir@)),
{
    match path.file_name() {
        None => false,
        Some(name) => contains_any(name.as_str(), &cli.exclude_dir),
    }
}

/// Tells whether a file is excluded by its path.
pub fn matches_excluded_path(path: &FilePath, cli: &Cli) -> (r: bool)
    ensures
        r == has_any(path@.text, text::texts(cli.exclude_path@)),
{
    contains_any(path.text.as_str(), &cli.exclude_path)
}

/// What the file system says of a file.
#[derive(Debug)]
pub struct FileMeta {
    pub size: u64,
    /// Seconds since the Unix epoch, if the file was modified after it and the
    /// time can be read.
    pub modified_secs: Option<u64>,
    /// Where the file really is: absolute, and without links. It is the same
    /// however the file's path is spelled.
    pub real_path: FilePath,
}

/// What a scan looks for.
pub struct Rules {
    pub types: Set<Seq<char>>,
    pub exclude_dir: Seq<Seq<char>>,
    pub exclude_path: Seq<Seq<char>>,
    pub size_min: u64,
    pub size_max: u64,
}

/// What the options of a run, and the size limits in them, ask a scan for.
pub open spec fn rules_of(cli: Cli, size_min: u64, size_max: u64) -> Rules {
    Rules {
        types: wanted_extensions(text::texts(cli.types@)),
        exclude_dir: text::texts(cli.exclude_dir@),
        exclude_path: text::texts(cli.exclude_path@),
        size_min,
        size_max,
    }
}

impl Rules {
    /// The path is one that the scan looks for: where extensions are given it
    /// has one of them, and it holds none of the excluded texts.
    pub open spec fn admits_path(self, p: PathView) -> bool {
        &&& self.types == Set::<Seq<char>>::empty() || has_extension(p, self.types)
        &&& !has_any(p.text, self.exclude_path)
    }

    /// The size is one that the scan looks for; no upper limit is zero.
    pub open spec fn admits_size(self, size: u64) -> bool {
        size >= self.size_min && (self.size_max == 0 || size <= self.size_max)
    }

    /// The walk does not enter the directory. The root of a walk is always
    /// entered.
    pub open spec fn prunes(self, depth: nat, is_dir: bool, p: PathView) -> bool {
        depth > 0 && is_dir && excluded_dir(p, self.exclude_dir)
    }
}

/// Tells whether the scan looks for a path, so that the file's metadata is
/// needed.
pub fn wants_file(path: &FilePath, cli: &Cli, filter: &ExtensionFilter) -> (r: bool)
    requires
        filter@ == wanted_extensions(text::texts(cli.types@)),
    ensures
        forall|size_min: u64, size_max: u64|
            r == #[trigger] rules_of(*cli, size_min, size_max).admits_path(path@),
{
    let r = (filter.is_empty() || matches_extension(path, filter)) && !matches_excluded_path(
        path,
        cli,
    );
    assert forall|size_min: u64, size_max: u64|
        r == #[trigger] rules_of(*cli, size_min, size_max).admits_path(path@) by {}
    r
}

/// Tells whether a walk leaves a directory out.
pub fn prunes(depth: usize, is_dir: bool, path: &FilePath, cli: &Cli) -> (r: bool)
    ensures
        forall|size_min: u64, size_max: u64|
            r == #[trigger] rules_of(*cli, size_min, size_max).prunes(depth as nat, is_dir, path@),
{
    let r = depth > 0 && is_dir && matches_excluded_dir(path, cli);
    assert forall|size_min: u64, size_max: u64|
        r == #[trigger] rules_of(*cli, size_min, size_max).prunes(depth as nat, is_dir, path@) by {}
    r
}

/// How many levels below its root a walk goes: one more than the limit, so that
/// a limit of zero means the files directly in the root.
pub open spec fn walk_levels(max_depth: Option<usize>) -> int {
    match max_depth {
        Some(d) => d + 1,
        None => usize::MAX as int,
    }
}

/// How deep a walk goes, its root counted as one level: a limit of zero means
/// the files directly in the root.
pub fn walk_depth(max_depth: Option<usize>) -> (r: usize)
    requires
        max_depth != Some(usize::MAX),
    ensures
        r == match max_depth {
            Some(d) => (d + 1) as usize,
            None => usize::MAX,
        },
        r == walk_levels(max_depth),
{
    match max_depth {
        Some(d) => d + 1,
        None => usize::MAX,
    }
}

/// The paths of some files.
pub open spec fn entry_paths(entries: Seq<EntryView>) -> Seq<PathView> {
    entries.map_values(|e: EntryView| e.path)
}

/// What has been found after a file came up whose metadata is `meta`, if it
/// can be read.
pub open spec fn after_file(
    rules: Rules,
    r: ResultView,
    p: PathView,
    meta: Option<FileMeta>,
) -> ResultView {
    let skipped = ResultView { files_skipped: r.files_skipped + 1, ..r };
    if !rules.admits_path(p) {
        skipped
    } else {
        match meta {
            None => skipped,
            Some(m) => if !rules.admits_size(m.size) {
                skipped
            } else if path_table::has_path(entry_paths(r.entries), p) || path_table::has_path(
                r.real_paths,
                m.real_path@,
            ) {
                r
            } else {
                ResultView {
                    real_paths: r.real_paths.push(m.real_path@),
                    entries: r.entries.push(
                        EntryView {
                            path: p,
                            size: m.size,
                            mtime_secs: match m.modified_secs {
                                Some(s) => Some(s as i64),
                                None => None,
                            },
                        },
                    ),
                    ..r
                }
            },
        }
    }
}

/// The paths that have come up, as they are spelled and as they really are.
pub struct Seen {
    pub spelled: PathTable,
    pub real: PathTable,
}

impl Seen {
    /// The paths are those of the files found.
    pub open spec fn tracks(self, r: ResultView) -> bool {
        &&& self.spelled.well_formed()
        &&& self.real.well_formed()
        &&& self.spelled@ == entry_paths(r.entries)
        &&& self.real@ == r.real_paths
    }
}

/// Takes a file into the result, unless it is skipped or was seen before, under
/// this path or another one.
pub fn collect_file(
    path: &FilePath,
    cli: &Cli,
    filter: &ExtensionFilter,
    size_min: u64,
    size_max: u64,
    meta: &Option<FileMeta>,
    seen: &mut Seen,
    result: &mut ScanResult,
)
    requires
        filter@ == wanted_extensions(text::texts(cli.types@)),
        old(seen).tracks(old(result)@),
        old(result).files_skipped < u64::MAX,
    ensures
        final(seen).tracks(final(result)@),
        final(result)@ == after_file(
            rules_of(*cli, size_min, size_max),
            old(result)@,
            path@,
            *meta,
        ),
{
    let ghost rules = rules_of(*cli, size_min, size_max);
    let wanted = wants_file(path, cli, filter);
    assert(wanted == rules.admits_path(path@));
    if !wanted {
        result.files_skipped = result.files_skipped + 1;
        return;
    }
    let m = match meta {
        Some(m) => m,
        None => {
            result.files_skipped = result.files_skipped + 1;
            return;
        },
    };
    let size = m.size;
    if size < size_min || (size_max > 0 && size > size_max) {
        result.files_skipped = result.files_skipped + 1;
        return;
    }
    if seen.spelled.contains(path) || seen.real.contains(&m.real_path) {
        return;
    }
    seen.spelled.add(path.clone());
    seen.real.add(m.real_path.clone());
    result.real_paths.push(m.real_path.clone());
    let mtime_secs = match m.modified_secs {
        Some(s) => Some(s as i64),
        None => None,
    };
    result.entries.push(FileEntry { path: path.clone(), size, mtime_secs });
    proof {
        let before = old(result)@.entries;
        let e = EntryView { path: path@, size, mtime_secs };
        assert(result@.entries =~= before.push(e));
        assert(seen.spelled@ =~= entry_paths(result@.entries));
        assert(result@.real_paths =~= old(result)@.real_paths.push(m.real_path@));
        assert(result@ =~= after_file(rules, old(result)@, path@, *meta));
    }
}

/// One thing that comes up in a walk.
#[derive(Debug)]
pub enum WalkEvent {
    /// Something could not be read, for the reason given.
    Failed(String),
    /// A file, a directory or something else, at a depth below the root.
    Found {
        depth: usize,
        path: FilePath,
        is_dir: bool,
        is_file: bool,
        meta: Option<FileMeta>,
    },
}

/// What is at a path that was given to scan.
#[derive(Debug)]
pub enum Root {
    File { path: FilePath, meta: Option<FileMeta> },
    Missing { path: FilePath },
    Tree { events: Vec<WalkEvent> },
}

/// What has been found after something came up in a walk.
pub open spec fn after_event(rules: Rules, r: ResultView, event: WalkEvent) -> ResultView {
    match event {
        WalkEvent::Failed(why) => ResultView {
            dir_read_errors: r.dir_read_errors.push("cannot read: "@ + why@),
            ..r
        },
        WalkEvent::Found { depth, path, is_dir, is_file, meta } => if rules.prunes(
            depth as nat,
            is_dir,
            path@,
        ) {
            ResultView { dirs_skipped: r.dirs_skipped + 1, ..r }
        } else if is_dir || !is_file {
            r
        } else {
            after_file(rules, r, path@, meta)
        },
    }
}

/// What has been found after a walk.
pub open spec fn after_walk(rules: Rules, r: ResultView, events: Seq<WalkEvent>) -> ResultView
    decreases events.len(),
{
    if events.len() == 0 {
        r
    } else {
        after_event(rules, after_walk(rules, r, events.drop_last()), events.last())
    }
}

/// What has been found after a root was scanned: a file given directly is
/// taken in if it passes the filters.
pub open spec fn after_root(rules: Rules, r: ResultView, root: Root) -> ResultView {
    match root {
        Root::File { path, meta } => after_file(rules, r, path@, meta),
        Root::Missing { path } => ResultView {
            dir_read_errors: r.dir_read_errors.push("path does not exist: "@ + path@.text),
            ..r
        },
        Root::Tree { events } => after_walk(rules, r, events@),
    }
}

/// What has been found after all roots were scanned, one after the other.
pub open spec fn after_roots(rules: Rules, roots: Seq<Root>) -> ResultView
    decreases roots.len(),
{
    if roots.len() == 0 {
        nothing_found()
    } else {
        after_root(rules, after_roots(rules, roots.drop_last()), roots.last())
    }
}

/// How many things came up under a root.
pub open spec fn root_size(root: Root) -> nat {
    match root {
        Root::Tree { events } => events@.len(),
        _ => 1,
    }
}

/// How many things came up in all.
pub open spec fn scan_size(roots: Seq<Root>) -> nat
    decreases roots.len(),
{
    if roots.len() == 0 {
        0
    } else {
        scan_size(roots.drop_last()) + root_size(roots.last())
    }
}

proof fn lemma_scan_size(roots: Seq<Root>, i: int)
    requires
        0 <= i <= roots.len(),
    ensures
        scan_size(roots.take(i)) <= scan_size(roots),
    decreases roots.len() - i,
{
    if i < roots.len() {
        lemma_scan_size(roots, i + 1);
        assert(roots.take(i + 1).drop_last() =~= roots.take(i));
    } else {
        assert(roots.take(i) =~= roots);
    }
}

fn join_texts(a: &str, b: &str) -> (out: String)
    ensures
        out@ == a@ + b@,
{
    let mut out = String::new();
    out.append(a);
    out.append(b);
    assert(out@ =~= a@ + b@);
    out
}

fn note_error(result: &mut ScanResult, what: &str, detail: &str)
    ensures
        final(result)@ == (ResultView {
            dir_read_errors: old(result)@.dir_read_errors.push(what@ + detail@),
            ..old(result)@
        }),
{
    result.dir_read_errors.push(join_texts(what, detail));
    assert(text::texts(result.dir_read_errors@) =~= old(result)@.dir_read_errors.push(
        what@ + detail@,
    ));
}

fn take_event(
    event: &WalkEvent,
    cli: &Cli,
    filter: &ExtensionFilter,
    size_min: u64,
    size_max: u64,
    seen: &mut Seen,
    result: &mut ScanResult,
)
    requires
        filter@ == wanted_extensions(text::texts(cli.types@)),
        old(seen).tracks(old(result)@),
        old(result).files_skipped + old(result).dirs_skipped < u64::MAX,
    ensures
        final(seen).tracks(final(result)@),
        final(result)@ == after_event(rules_of(*cli, size_min, size_max), old(result)@, *event),
        final(result).files_skipped + final(result).dirs_skipped <= old(result).files_skipped
            + old(result).dirs_skipped + 1,
{
    let ghost rules = rules_of(*cli, size_min, size_max);
    match event {
        WalkEvent::Failed(why) => {
            note_error(result, "cannot read: ", why.as_str());
        },
        WalkEvent::Found { depth, path, is_dir, is_file, meta } => {
            let pruned = prunes(*depth, *is_dir, path, cli);
            assert(pruned == rules.prunes(*depth as nat, *is_dir, path@));
            if pruned {
                result.dirs_skipped = result.dirs_skipped + 1;
            } else if *is_dir || !*is_file {
            } else {
                collect_file(path, cli, filter, size_min, size_max, meta, seen, result);
            }
        },
    }
}

/// Collect the candidate files under the paths given to scan, from what came
/// up there.
///
/// Files outside the size range, or excluded by the filters, are skipped.
/// Read errors are collected (not fatal).
pub fn scan(cli: &Cli, size_min: u64, size_max: u64, roots: &Vec<Root>) -> (result: ScanResult)
    requires
        scan_size(roots@) <= u64::MAX,
    ensures
        result@ == after_roots(rules_of(*cli, size_min, size_max), roots@),
{
    let ghost rules = rules_of(*cli, size_min, size_max);
    let filter = extension_filter(&cli.types);
    let mut result = ScanResult::new();
    let mut seen = Seen { spelled: PathTable::new(), real: PathTable::new() };
    assert(seen.spelled@ =~= entry_paths(result@.entries));
    assert(roots@.take(0) =~= Seq::empty());
    let mut i: usize = 0;
    while i < roots.len()
        invariant
            0 <= i <= roots@.len(),
            rules == rules_of(*cli, size_min, size_max),
            filter@ == wanted_extensions(text::texts(cli.types@)),
            seen.tracks(result@),
            result@ == after_roots(rules, roots@.take(i as int)),
            result.files_skipped + result.dirs_skipped <= scan_size(roots@.take(i as int)),
            scan_size(roots@) <= u64::MAX,
        decreases roots@.len() - i,
    {
        let ghost before = result@;
        let ghost size = scan_size(roots@.take(i as int));
        proof {
            assert(roots@.take(i + 1).drop_last() =~= roots@.take(i as int));
            lemma_scan_size(roots@, i + 1);
        }
        match &roots[i] {
            Root::File { path, meta } => {
                collect_file(path, cli, &filter, size_min, size_max, meta, &mut seen, &mut result);
            },
            Root::Missing { path } => {
                note_error(&mut result, "path does not exist: ", path.text.as_str());
            },
            Root::Tree { events } => {
                let mut k: usize = 0;
                assert(events@.take(0) =~= Seq::empty());
                while k < events.len()
                    invariant
                        0 <= k <= events@.len(),
                        rules == rules_of(*cli, size_min, size_max),
                        filter@ == wanted_extensions(text::texts(cli.types@)),
                        seen.tracks(result@),
                        result@ == after_walk(rules, before, events@.take(k as int)),
                        result.files_skipped + result.dirs_skipped <= size + k,
                        size + events@.len() <= u64::MAX,
                    decreases events@.len() - k,
                {
                    assert(events@.take(k + 1).drop_last() =~= events@.take(k as int));
                    take_event(
                        &events[k],
                        cli,
                        &filter,
                        size_min,
                        size_max,
                        &mut seen,
                        &mut result,
                    );
                    k = k + 1;
                }
                assert(events@.take(k as int) =~= events@);
            },
        }
        i = i + 1;
    }
    assert(roots@.take(i as int) =~= roots@);
    result
}

/// What a scan may have found: files that it looks for, each once, under one
/// spelling of its path.
pub open spec fn is_sound(rules: Rules, r: ResultView) -> bool {
    &&& path_table::distinct_paths(entry_paths(r.entries))
    &&& r.real_paths.len() == r.entries.len()
    &&& path_table::distinct_paths(r.real_paths)
    &&& forall|i: int|
        0 <= i < r.entries.len() ==> rules.admits_path((#[trigger] r.entries[i]).path)
            && rules.admits_size(r.entries[i].size)
}

proof fn lemma_push_distinct(paths: Seq<PathView>, p: PathView)
    requires
        path_table::distinct_paths(paths),
        !path_table::has_path(paths, p),
    ensures
        path_table::distinct_paths(paths.push(p)),
{
    let now = paths.push(p);
    assert forall|i: int, j: int| 0 <= i < j < now.len() implies !(#[trigger] now[i]).same(
        #[trigger] now[j],
    ) by {
        if j < paths.len() {
            assert(!paths[i].same(paths[j]));
        } else {
            assert(!paths[i].same(p));
        }
    }
}

proof fn lemma_file_sound(rules: Rules, r: ResultView, p: PathView, meta: Option<FileMeta>)
    requires
        is_sound(rules, r),
    ensures
        is_sound(rules, after_file(rules, r, p, meta)),
{
    let after = after_file(rules, r, p, meta);
    if after.entries.len() > r.entries.len() {
        let was = entry_paths(r.entries);
        let now = entry_paths(after.entries);
        assert(now =~= was.push(p));
        lemma_push_distinct(was, p);
        lemma_push_distinct(r.real_paths, (meta->0).real_path@);
        assert forall|i: int| 0 <= i < after.entries.len() implies rules.admits_path(
            (#[trigger] after.entries[i]).path,
        ) && rules.admits_size(after.entries[i].size) by {
            if i < r.entries.len() {
                assert(after.entries[i] == r.entries[i]);
            }
        }
    }
}

proof fn lemma_walk_sound(rules: Rules, r: ResultView, events: Seq<WalkEvent>)
    requires
        is_sound(rules, r),
    ensures
        is_sound(rules, after_walk(rules, r, events)),
    decreases events.len(),
{
    if events.len() > 0 {
        lemma_walk_sound(rules, r, events.drop_last());
        let mid = after_walk(rules, r, events.drop_last());
        match events.last() {
            WalkEvent::Failed(why) => {},
            WalkEvent::Found { depth, path, is_dir, is_file, meta } => {
                lemma_file_sound(rules, mid, path@, meta);
            },
        }
    }
}

/// A scan finds no path twice, and no file under two paths; and it finds only
/// files that pass the filters and lie within the size limits.
pub proof fn lemma_scan_sound(rules: Rules, roots: Seq<Root>)
    ensures
        is_sound(rules, after_roots(rules, roots)),
    decreases roots.len(),
{
    if roots.len() > 0 {
        lemma_scan_sound(rules, roots.drop_last());
        let mid = after_roots(rules, roots.drop_last());
        match roots.last() {
            Root::File { path, meta } => {
                lemma_file_sound(rules, mid, path@, meta);
            },
            Root::Missing { path } => {},
            Root::Tree { events } => {
                lemma_walk_sound(rules, mid, events@);
            },
        }
    }
}

/// A file that passes the filters and whose metadata can be read is found: once
/// it has come up, it is in the result, under this path or another one.
pub proof fn lemma_file_found(rules: Rules, r: ResultView, p: PathView, meta: FileMeta)
    requires
        rules.admits_path(p),
        rules.admits_size(meta.size),
    ensures
        path_table::has_path(
            entry_paths(after_file(rules, r, p, Some(meta)).entries),
            p,
        ) || path_table::has_path(
            after_file(rules, r, p, Some(meta)).real_paths,
            meta.real_path@,
        ),
        !path_table::has_path(r.real_paths, meta.real_path@) ==> path_table::has_path(
            entry_paths(after_file(rules, r, p, Some(meta)).entries),
            p,
        ),
{
    let after = after_file(rules, r, p, Some(meta));
    if !path_table::has_path(entry_paths(r.entries), p) && !path_table::has_path(
        r.real_paths,
        meta.real_path@,
    ) {
        let now = entry_paths(after.entries);
        assert(now[now.len() - 1].same(p));
    }
}

/// What was found stays found, in its place, whatever comes up later.
pub proof fn lemma_found_stays(rules: Rules, r: ResultView, event: WalkEvent)
    ensures
        r.entries.is_prefix_of(after_event(rules, r, event).entries),
        r.real_paths.is_prefix_of(after_event(rules, r, event).real_paths),
{
}

/// A directory below the root whose name holds any one of the texts to leave
/// out, wherever the text stands in the list and in the name, is not entered.
pub proof fn lemma_dir_left_out(
    cli: Cli,
    size_min: u64,
    size_max: u64,
    depth: nat,
    p: PathView,
    name: Seq<u8>,
    i: int,
    before: Seq<char>,
    after: Seq<char>,
)
    requires
        depth > 0,
        p.parts.len() > 0,
        p.parts.last() == path::PartView::Normal(name),
        vstd::utf8::valid_utf8(name),
        0 <= i < cli.exclude_dir@.len(),
        vstd::utf8::decode_utf8(name) == before + cli.exclude_dir@[i]@ + after,
    ensures
        rules_of(cli, size_min, size_max).prunes(depth, true, p),
{
    let parts = text::texts(cli.exclude_dir@);
    let whole = vstd::utf8::decode_utf8(name);
    text::lemma_contains(whole, parts[i]);
    assert(whole == before + parts[i] + after);
}

/// A directory whose name holds none of the texts to leave out is entered. So
/// is the root of a walk, whatever its name, and a file is never left out as a
/// directory.
pub proof fn lemma_dir_entered(
    cli: Cli,
    size_min: u64,
    size_max: u64,
    depth: nat,
    is_dir: bool,
    p: PathView,
    name: Seq<u8>,
)
    ensures
        depth == 0 ==> !rules_of(cli, size_min, size_max).prunes(depth, is_dir, p),
        !is_dir ==> !rules_of(cli, size_min, size_max).prunes(depth, is_dir, p),
        p.parts.len() > 0 && p.parts.last() == path::PartView::Normal(name) && (forall|
            i: int,
            before: Seq<char>,
            after: Seq<char>,
        |
            0 <= i < cli.exclude_dir@.len() ==> vstd::utf8::decode_utf8(name) != #[trigger] (before
                + #[trigger] cli.exclude_dir@[i]@ + after)) ==> !rules_of(
            cli,
            size_min,
            size_max,
        ).prunes(depth, is_dir, p),
{
    let rules = rules_of(cli, size_min, size_max);
    let parts = text::texts(cli.exclude_dir@);
    if rules.prunes(depth, is_dir, p) && p.file_name() == Some(name) {
        let whole = vstd::utf8::decode_utf8(name);
        let i = choose|i: int| 0 <= i < parts.len() && text::contains_text(whole, #[trigger] parts[i]);
        text::lemma_contains(whole, parts[i]);
        let (before, after) = choose|before: Seq<char>, after: Seq<char>|
            whole == #[trigger] (before + parts[i] + after);
        assert(parts[i] == cli.exclude_dir@[i]@);
        assert(whole == before + cli.exclude_dir@[i]@ + after);
    }
}

/// A path that holds any one of the texts to leave out, wherever the text
/// stands in the list and in the path, is not looked for.
pub proof fn lemma_path_left_out(
    cli: Cli,
    size_min: u64,
    size_max: u64,
    p: PathView,
    i: int,
    before: Seq<char>,
    after: Seq<char>,
)
    requires
        0 <= i < cli.exclude_path@.len(),
        p.text == before + cli.exclude_path@[i]@ + after,
    ensures
        !rules_of(cli, size_min, size_max).admits_path(p),
{
    let parts = text::texts(cli.exclude_path@);
    text::lemma_contains(p.text, parts[i]);
    assert(p.text == before + parts[i] + after);
}

/// Dots in front go.
proof fn lemma_undotted(dots: Seq<char>, word: Seq<char>)
    requires
        forall|i: int| 0 <= i < dots.len() ==> #[trigger] dots[i] == '.',
        word.len() > 0 ==> word[0] != '.',
    ensures
        undotted(dots + word) == word,
    decreases dots.len(),
{
    if dots.len() == 0 {
        assert(dots + word =~= word);
    } else {
        assert((dots + word)[0] == dots[0]);
        assert((dots + word).skip(1) =~= dots.skip(1) + word);
        lemma_undotted(dots.skip(1), word);
    }
}

/// An extension may be given with white space around it, with dots before it
/// and in any case: what is looked for is the word in it, in lower case.
pub proof fn lemma_plain_extension(
    a: Seq<char>,
    dots: Seq<char>,
    word: Seq<char>,
    b: Seq<char>,
)
    requires
        forall|i: int| 0 <= i < a.len() ==> text::is_space(#[trigger] a[i]),
        forall|i: int| 0 <= i < b.len() ==> text::is_space(#[trigger] b[i]),
        forall|i: int| 0 <= i < dots.len() ==> #[trigger] dots[i] == '.',
        word.len() > 0,
        word[0] != '.',
        !text::is_space(word[0]),
        !text::is_space(word.last()),
    ensures
        plain_extension(a + (dots + word) + b) == text::lower(word),
{
    let s = dots + word;
    assert(s.last() == word.last());
    assert(s[0] == if dots.len() > 0 {
        dots[0]
    } else {
        word[0]
    });
    text::lemma_trimmed(a, s, b);
    lemma_undotted(dots, word);
}

/// Every extension in a list is looked for, wherever it stands in the list,
/// and nothing but those: an empty one asks for nothing.
pub proof fn lemma_wanted(exts: Seq<Seq<char>>, e: Seq<char>)
    ensures
        wanted_extensions(exts).contains(e) <==> e.len() > 0 && exists|i: int|
            0 <= i < exts.len() && plain_extension(#[trigger] exts[i]) == e,
    decreases exts.len(),
{
    if exts.len() > 0 {
        let front = exts.drop_last();
        lemma_wanted(front, e);
        if exists|i: int| 0 <= i < exts.len() && plain_extension(#[trigger] exts[i]) == e {
            let i = choose|i: int| 0 <= i < exts.len() && plain_extension(#[trigger] exts[i]) == e;
            if i < front.len() {
                assert(front[i] == exts[i]);
            }
        }
        if exists|i: int| 0 <= i < front.len() && plain_extension(#[trigger] front[i]) == e {
            let i = choose|i: int|
                0 <= i < front.len() && plain_extension(#[trigger] front[i]) == e;
            assert(exts[i] == front[i]);
        }
        if plain_extension(exts.last()) == e {
            assert(plain_extension(exts[exts.len() - 1]) == e);
        }
    }
}

/// What a run looks for by path. Without a word among its extensions, any
/// path; otherwise a path whose extension is, whatever its case, one of the
/// list. In either case none that holds a text to leave out.
pub proof fn lemma_path_looked_for(cli: Cli, size_min: u64, size_max: u64, p: PathView)
    ensures
        rules_of(cli, size_min, size_max).admits_path(p) ==> {
            &&& forall|i: int, before: Seq<char>, after: Seq<char>|
                0 <= i < cli.exclude_path@.len() ==> p.text != #[trigger] (before
                    + #[trigger] cli.exclude_path@[i]@ + after)
            &&& (forall|i: int|
                0 <= i < cli.types@.len() ==> plain_extension(#[trigger] cli.types@[i]@).len() == 0)
                || (exists|i: int|
                0 <= i < cli.types@.len() && path::bytes_text(p.extension()) is Some
                    && plain_extension(#[trigger] cli.types@[i]@) == text::lower(
                    path::bytes_text(p.extension())->0,
                ))
        },
        (forall|i: int, before: Seq<char>, after: Seq<char>|
            0 <= i < cli.exclude_path@.len() ==> p.text != #[trigger] (before
                + #[trigger] cli.exclude_path@[i]@ + after)) && ((forall|i: int|
            0 <= i < cli.types@.len() ==> plain_extension(#[trigger] cli.types@[i]@).len() == 0)
            || (exists|i: int|
            0 <= i < cli.types@.len() && path::bytes_text(p.extension()) is Some && text::lower(
                path::bytes_text(p.extension())->0,
            ).len() > 0 && plain_extension(#[trigger] cli.types@[i]@) == text::lower(
                path::bytes_text(p.extension())->0,
            ))) ==> rules_of(cli, size_min, size_max).admits_path(p),
{
    let rules = rules_of(cli, size_min, size_max);
    let parts = text::texts(cli.exclude_path@);
    let exts = text::texts(cli.types@);
    assert forall|i: int, before: Seq<char>, after: Seq<char>|
        rules.admits_path(p) && 0 <= i < cli.exclude_path@.len() implies p.text != #[trigger] (
    before + #[trigger] cli.exclude_path@[i]@ + after) by {
        if p.text == before + cli.exclude_path@[i]@ + after {
            lemma_path_left_out(cli, size_min, size_max, p, i, before, after);
        }
    }
    if has_any(p.text, parts) {
        let i = choose|i: int|
            0 <= i < parts.len() && text::contains_text(p.text, #[trigger] parts[i]);
        text::lemma_contains(p.text, parts[i]);
        let (before, after) = choose|before: Seq<char>, after: Seq<char>|
            p.text == #[trigger] (before + parts[i] + after);
        assert(parts[i] == cli.exclude_path@[i]@);
        assert(p.text == before + cli.exclude_path@[i]@ + after);
    }
    if forall|i: int| 0 <= i < cli.types@.len() ==> plain_extension(#[trigger] cli.types@[i]@).len()
        == 0 {
        assert forall|e: Seq<char>| !(#[trigger] rules.types.contains(e)) by {
            lemma_wanted(exts, e);
            if rules.types.contains(e) {
                let i = choose|i: int|
                    0 <= i < exts.len() && plain_extension(#[trigger] exts[i]) == e;
                assert(plain_extension(cli.types@[i]@).len() == 0);
            }
        }
        assert(rules.types =~= Set::empty());
    } else {
        let i = choose|i: int|
            0 <= i < cli.types@.len() && plain_extension(#[trigger] cli.types@[i]@).len() != 0;
        assert(exts[i] == cli.types@[i]@);
        lemma_wanted(exts, plain_extension(exts[i]));
        assert(rules.types.contains(plain_extension(exts[i])));
        assert(rules.types != Set::<Seq<char>>::empty());
        if path::bytes_text(p.extension()) is Some {
            let e = text::lower(path::bytes_text(p.extension())->0);
            lemma_wanted(exts, e);
            if rules.types.contains(e) {
                let k = choose|k: int|
                    0 <= k < exts.len() && plain_extension(#[trigger] exts[k]) == e;
                assert(plain_extension(cli.types@[k]@) == e);
            }
            if exists|k: int|
                0 <= k < cli.types@.len() && plain_extension(#[trigger] cli.types@[k]@) == e {
                let k = choose|k: int|
                    0 <= k < cli.types@.len() && plain_extension(#[trigger] cli.types@[k]@) == e;
                assert(plain_extension(exts[k]) == e);
            }
        }
    }
}

/// A run looks for the sizes from the lower limit to the upper one, both
/// included; an upper limit of zero is none.
pub proof fn lemma_size_looked_for(cli: Cli, size_min: u64, size_max: u64, size: u64)
    ensures
        size_min <= size <= size_max ==> rules_of(cli, size_min, size_max).admits_size(size),
        size_min <= size && size_max == 0 ==> rules_of(cli, size_min, size_max).admits_size(size),
        size < size_min ==> !rules_of(cli, size_min, size_max).admits_size(size),
        0 < size_max < size ==> !rules_of(cli, size_min, size_max).admits_size(size),
{
}

proof fn lemma_walk_keeps(rules: Rules, r: ResultView, events: Seq<WalkEvent>)
    ensures
        r.entries.is_prefix_of(after_walk(rules, r, events).entries),
        r.real_paths.is_prefix_of(after_walk(rules, r, events).real_paths),
    decreases events.len(),
{
    if events.len() > 0 {
        lemma_walk_keeps(rules, r, events.drop_last());
        let mid = after_walk(rules, r, events.drop_last());
        lemma_found_stays(rules, mid, events.last());
        let end = after_walk(rules, r, events);
        assert(r.entries.is_prefix_of(end.entries));
        assert(r.real_paths.is_prefix_of(end.real_paths));
    }
}

proof fn lemma_root_keeps(rules: Rules, r: ResultView, root: Root)
    ensures
        r.entries.is_prefix_of(after_root(rules, r, root).entries),
        r.real_paths.is_prefix_of(after_root(rules, r, root).real_paths),
{
    match root {
        Root::Tree { events } => {
            lemma_walk_keeps(rules, r, events@);
        },
        _ => {},
    }
}

/// The file is among those found: an entry has its path, or a file found under
/// another path is really the same one.
pub open spec fn is_found(r: ResultView, p: PathView, meta: FileMeta) -> bool {
    ||| exists|i: int| 0 <= i < r.entries.len() && (#[trigger] r.entries[i]).path.parts == p.parts
    ||| exists|i: int|
        0 <= i < r.real_paths.len() && (#[trigger] r.real_paths[i]).parts
            == meta.real_path@.parts
}

proof fn lemma_found_later(a: ResultView, b: ResultView, p: PathView, meta: FileMeta)
    requires
        is_found(a, p, meta),
        a.entries.is_prefix_of(b.entries),
        a.real_paths.is_prefix_of(b.real_paths),
    ensures
        is_found(b, p, meta),
{
    if exists|i: int| 0 <= i < a.entries.len() && (#[trigger] a.entries[i]).path.parts == p.parts {
        let i = choose|i: int|
            0 <= i < a.entries.len() && (#[trigger] a.entries[i]).path.parts == p.parts;
        assert(b.entries[i] == a.entries[i]);
    } else {
        let i = choose|i: int|
            0 <= i < a.real_paths.len() && (#[trigger] a.real_paths[i]).parts
                == meta.real_path@.parts;
        assert(b.real_paths[i] == a.real_paths[i]);
    }
}

proof fn lemma_file_is_found(rules: Rules, r: ResultView, p: PathView, meta: FileMeta)
    requires
        rules.admits_path(p),
        rules.admits_size(meta.size),
    ensures
        is_found(after_file(rules, r, p, Some(meta)), p, meta),
{
    lemma_file_found(rules, r, p, meta);
    let end = after_file(rules, r, p, Some(meta));
    let paths = entry_paths(end.entries);
    if path_table::has_path(paths, p) {
        let i = choose|i: int| 0 <= i < paths.len() && (#[trigger] paths[i]).same(p);
        assert(end.entries[i].path.parts == p.parts);
    } else {
        let i = choose|i: int|
            0 <= i < end.real_paths.len() && (#[trigger] end.real_paths[i]).same(meta.real_path@);
        assert(end.real_paths[i].parts == meta.real_path@.parts);
    }
}

/// A walk misses no file: every file that came up in it, however deep, and
/// that the rules admit by its path and its size, has been found once the walk
/// is over.
pub proof fn lemma_walk_finds(
    rules: Rules,
    r: ResultView,
    events: Seq<WalkEvent>,
    k: int,
    depth: usize,
    path: FilePath,
    meta: FileMeta,
)
    requires
        0 <= k < events.len(),
        events[k] == (WalkEvent::Found {
            depth,
            path,
            is_dir: false,
            is_file: true,
            meta: Some(meta),
        }),
        rules.admits_path(path@),
        rules.admits_size(meta.size),
    ensures
        is_found(after_walk(rules, r, events), path@, meta),
    decreases events.len(),
{
    let mid = after_walk(rules, r, events.drop_last());
    if k == events.len() - 1 {
        lemma_file_is_found(rules, mid, path@, meta);
    } else {
        assert(events.drop_last()[k] == events[k]);
        lemma_walk_finds(rules, r, events.drop_last(), k, depth, path, meta);
        lemma_found_stays(rules, mid, events.last());
        lemma_found_later(mid, after_walk(rules, r, events), path@, meta);
    }
}

/// A scan misses no file: every file that came up under any of its roots, or
/// was given as one, and that the rules admit by its path and its size, has
/// been found once all roots were scanned.
pub proof fn lemma_scan_finds(
    rules: Rules,
    roots: Seq<Root>,
    i: int,
    k: int,
    depth: usize,
    path: FilePath,
    meta: FileMeta,
)
    requires
        0 <= i < roots.len(),
        match roots[i] {
            Root::File { path: p, meta: m } => p == path && m == Some(meta),
            Root::Missing { path: p } => false,
            Root::Tree { events } => 0 <= k < events@.len() && events@[k] == (WalkEvent::Found {
                depth,
                path,
                is_dir: false,
                is_file: true,
                meta: Some(meta),
            }),
        },
        rules.admits_path(path@),
        rules.admits_size(meta.size),
    ensures
        is_found(after_roots(rules, roots), path@, meta),
    decreases roots.len(),
{
    let mid = after_roots(rules, roots.drop_last());
    if i == roots.len() - 1 {
        match roots[i] {
            Root::File { path: p, meta: m } => {
                lemma_file_is_found(rules, mid, path@, meta);
            },
            Root::Missing { path: p } => {},
            Root::Tree { events } => {
                lemma_walk_finds(rules, mid, events@, k, depth, path, meta);
            },
        }
    } else {
        assert(roots.drop_last()[i] == roots[i]);
        lemma_scan_finds(rules, roots.drop_last(), i, k, depth, path, meta);
        lemma_root_keeps(rules, mid, roots.last());
        lemma_found_later(mid, after_roots(rules, roots), path@, meta);
    }
}

/// The entry, really at `place`, is what a file at a path with some metadata
/// gives.
pub open spec fn entry_tells(e: EntryView, place: PathView, path: FilePath, meta: FileMeta) -> bool {
    &&& e.path == path@
    &&& e.size == meta.size
    &&& match meta.modified_secs {
        Some(s) => e.mtime_secs == Some(s as i64),
        None => e.mtime_secs is None,
    }
    &&& place == meta.real_path@
}

/// A file with this path and metadata came up under a root, below it or as the
/// root itself.
pub open spec fn came_up(root: Root, path: FilePath, meta: FileMeta) -> bool {
    match root {
        Root::File { path: p, meta: m } => p == path && m == Some(meta),
        Root::Missing { path: p } => false,
        Root::Tree { events } => came_up_in(events@, path, meta),
    }
}

/// A file with this path and metadata came up in a walk.
pub open spec fn came_up_in(events: Seq<WalkEvent>, path: FilePath, meta: FileMeta) -> bool {
    exists|k: int|
        0 <= k < events.len() && match #[trigger] events[k] {
            WalkEvent::Found { depth, path: p, is_dir, is_file, meta: m } => p == path && !is_dir
                && is_file && m == Some(meta),
            WalkEvent::Failed(why) => false,
        }
}

proof fn lemma_file_origin(
    rules: Rules,
    r: ResultView,
    path: FilePath,
    meta: Option<FileMeta>,
    n: int,
)
    requires
        r.real_paths.len() == r.entries.len(),
        0 <= n < after_file(rules, r, path@, meta).entries.len(),
    ensures
        after_file(rules, r, path@, meta).real_paths.len() == after_file(
            rules,
            r,
            path@,
            meta,
        ).entries.len(),
        n < r.entries.len() ==> after_file(rules, r, path@, meta).entries[n] == r.entries[n]
            && after_file(rules, r, path@, meta).real_paths[n] == r.real_paths[n],
        n >= r.entries.len() ==> meta is Some && entry_tells(
            after_file(rules, r, path@, meta).entries[n],
            after_file(rules, r, path@, meta).real_paths[n],
            path,
            meta->0,
        ),
{
}

proof fn lemma_walk_origin(
    rules: Rules,
    r: ResultView,
    events: Seq<WalkEvent>,
    n: int,
) -> (w: (FilePath, FileMeta))
    requires
        r.real_paths.len() == r.entries.len(),
        0 <= n < after_walk(rules, r, events).entries.len(),
    ensures
        after_walk(rules, r, events).real_paths.len() == after_walk(rules, r, events).entries.len(),
        n < r.entries.len() ==> after_walk(rules, r, events).entries[n] == r.entries[n]
            && after_walk(rules, r, events).real_paths[n] == r.real_paths[n],
        n >= r.entries.len() ==> came_up_in(events, w.0, w.1) && entry_tells(
            after_walk(rules, r, events).entries[n],
            after_walk(rules, r, events).real_paths[n],
            w.0,
            w.1,
        ),
    decreases events.len(),
{
    if events.len() == 0 {
        arbitrary()
    } else {
        let front = events.drop_last();
        let mid = after_walk(rules, r, front);
        let end = after_walk(rules, r, events);
        lemma_walk_lengths(rules, r, front);
        let w = if n < mid.entries.len() {
            let v = lemma_walk_origin(rules, r, front, n);
            if n >= r.entries.len() {
                let k = choose|k: int|
                    0 <= k < front.len() && match #[trigger] front[k] {
                        WalkEvent::Found { depth, path: p, is_dir, is_file, meta: m } => p == v.0
                            && !is_dir && is_file && m == Some(v.1),
                        WalkEvent::Failed(why) => false,
                    };
                assert(events[k] == front[k]);
                assert(came_up_in(events, v.0, v.1));
            }
            v
        } else {
            match events.last() {
                WalkEvent::Found { depth, path, is_dir, is_file, meta } => (path, meta->0),
                WalkEvent::Failed(why) => arbitrary(),
            }
        };
        match events.last() {
            WalkEvent::Found { depth, path, is_dir, is_file, meta } => {
                if !rules.prunes(depth as nat, is_dir, path@) && !is_dir && is_file {
                    lemma_file_origin(rules, mid, path, meta, n);
                    if n >= mid.entries.len() {
                        assert(events[events.len() - 1] == events.last());
                        assert(came_up_in(events, path, meta->0));
                    }
                }
            },
            WalkEvent::Failed(why) => {},
        }
        w
    }
}

proof fn lemma_walk_lengths(rules: Rules, r: ResultView, events: Seq<WalkEvent>)
    requires
        r.real_paths.len() == r.entries.len(),
    ensures
        after_walk(rules, r, events).real_paths.len() == after_walk(rules, r, events).entries.len(),
        after_walk(rules, r, events).entries.len() >= r.entries.len(),
    decreases events.len(),
{
    if events.len() > 0 {
        lemma_walk_lengths(rules, r, events.drop_last());
    }
}

/// A scan makes nothing up: every entry has the path, the size and the time of
/// a file that came up under one of the roots, and that file's real path.
pub proof fn lemma_scan_origin(rules: Rules, roots: Seq<Root>, n: int)
    requires
        0 <= n < after_roots(rules, roots).entries.len(),
    ensures
        after_roots(rules, roots).real_paths.len() == after_roots(rules, roots).entries.len(),
        exists|i: int, path: FilePath, meta: FileMeta|
            0 <= i < roots.len() && #[trigger] came_up(roots[i], path, meta) && entry_tells(
                after_roots(rules, roots).entries[n],
                after_roots(rules, roots).real_paths[n],
                path,
                meta,
            ),
    decreases roots.len(),
{
    if roots.len() > 0 {
        let front = roots.drop_last();
        let mid = after_roots(rules, front);
        let end = after_roots(rules, roots);
        lemma_scan_sound(rules, front);
        lemma_scan_sound(rules, roots);
        let last = roots.len() - 1;
        if n < mid.entries.len() {
            lemma_scan_origin(rules, front, n);
            let (i, path, meta) = choose|i: int, path: FilePath, meta: FileMeta|
                0 <= i < front.len() && #[trigger] came_up(front[i], path, meta) && entry_tells(
                    mid.entries[n],
                    mid.real_paths[n],
                    path,
                    meta,
                );
            lemma_root_keeps(rules, mid, roots.last());
            assert(end.entries[n] == mid.entries[n]);
            assert(end.real_paths[n] == mid.real_paths[n]);
            assert(roots[i] == front[i]);
            assert(came_up(roots[i], path, meta));
        } else {
            match roots[last] {
                Root::File { path, meta } => {
                    lemma_file_origin(rules, mid, path, meta, n);
                    assert(came_up(roots[last], path, meta->0));
                },
                Root::Missing { path } => {},
                Root::Tree { events } => {
                    let w = lemma_walk_origin(rules, mid, events@, n);
                    assert(came_up(roots[last], w.0, w.1));
                },
            }
        }
    }
}

/// What one more thing does to a walk. A directory that is left out is counted;
/// one that is entered, and what is neither a file nor a directory, changes
/// nothing; what could not be read is noted, with the reason; and a file that
/// is not looked for, or of which nothing can be read, is counted.
pub proof fn lemma_walk_step(rules: Rules, r: ResultView, events: Seq<WalkEvent>, event: WalkEvent)
    ensures
        ({
            let was = after_walk(rules, r, events);
            let now = after_walk(rules, r, events.push(event));
            match event {
                WalkEvent::Failed(why) => {
                    &&& now.entries == was.entries
                    &&& now.real_paths == was.real_paths
                    &&& now.files_skipped == was.files_skipped
                    &&& now.dirs_skipped == was.dirs_skipped
                    &&& now.dir_read_errors.len() == was.dir_read_errors.len() + 1
                    &&& was.dir_read_errors.is_prefix_of(now.dir_read_errors)
                    &&& now.dir_read_errors.last() == "cannot read: "@ + why@
                },
                WalkEvent::Found { depth, path, is_dir, is_file, meta } => {
                    &&& now.dir_read_errors == was.dir_read_errors
                    &&& now.dirs_skipped == was.dirs_skipped + if rules.prunes(
                        depth as nat,
                        is_dir,
                        path@,
                    ) {
                        1int
                    } else {
                        0int
                    }
                    &&& is_dir || !is_file ==> now.entries == was.entries && now.files_skipped
                        == was.files_skipped
                    &&& !is_dir && is_file ==> {
                        let wanted = rules.admits_path(path@) && meta is Some && rules.admits_size(
                            (meta->0).size,
                        );
                        &&& !wanted ==> now.entries == was.entries && now.files_skipped
                            == was.files_skipped + 1
                        &&& wanted ==> now.files_skipped == was.files_skipped
                            && was.entries.len() <= now.entries.len() <= was.entries.len() + 1
                        &&& wanted && !is_found(was, path@, meta->0) ==> now.entries.len()
                            == was.entries.len() + 1
                        &&& wanted && is_found(was, path@, meta->0) ==> now.entries
                            == was.entries
                    }
                },
            }
        }),
{
    assert(events.push(event).drop_last() =~= events);
    let was = after_walk(rules, r, events);
    match event {
        WalkEvent::Failed(why) => {},
        WalkEvent::Found { depth, path, is_dir, is_file, meta } => {
            if !is_dir && is_file && meta is Some {
                let m = meta->0;
                let paths = entry_paths(was.entries);
                if path_table::has_path(paths, path@) {
                    let i = choose|i: int| 0 <= i < paths.len() && (#[trigger] paths[i]).same(path@);
                    assert(was.entries[i].path.parts == path@.parts);
                }
                if exists|i: int|
                    0 <= i < was.entries.len() && (#[trigger] was.entries[i]).path.parts
                        == path@.parts {
                    let i = choose|i: int|
                        0 <= i < was.entries.len() && (#[trigger] was.entries[i]).path.parts
                            == path@.parts;
                    assert(paths[i].same(path@));
                }
                if path_table::has_path(was.real_paths, m.real_path@) {
                    let i = choose|i: int|
                        0 <= i < was.real_paths.len() && (#[trigger] was.real_paths[i]).same(
                            m.real_path@,
                        );
                    assert(was.real_paths[i].parts == m.real_path@.parts);
                }
                if exists|i: int|
                    0 <= i < was.real_paths.len() && (#[trigger] was.real_paths[i]).parts
                        == m.real_path@.parts {
                    let i = choose|i: int|
                        0 <= i < was.real_paths.len() && (#[trigger] was.real_paths[i]).parts
                            == m.real_path@.parts;
                    assert(was.real_paths[i].same(m.real_path@));
                }
            }
        },
    }
}

/// A root that does not exist is noted, by its path, and changes nothing else.
pub proof fn lemma_missing_root(rules: Rules, roots: Seq<Root>, path: FilePath)
    ensures
        ({
            let was = after_roots(rules, roots);
            let now = after_roots(rules, roots.push(Root::Missing { path }));
            &&& now.entries == was.entries
            &&& now.files_skipped == was.files_skipped
            &&& now.dirs_skipped == was.dirs_skipped
            &&& now.dir_read_errors == was.dir_read_errors.push(
                "path does not exist: "@ + path@.text,
            )
        }),
{
    assert(roots.push(Root::Missing { path }).drop_last() =~= roots);
}

/// A walk goes one level deeper than its limit says, and without a limit as deep
/// as can be.
pub proof fn lemma_walk_levels(d: usize)
    ensures
        walk_levels(Some(d)) == d + 1,
        walk_levels(Some(0)) == 1,
        walk_levels(None) == usize::MAX,
{
}

} // verus!
