//! File paths as plain values.
//!
//! A path is held as its components, so that its order, its file name and its
//! extension are the same on every platform whose paths it came from.

use crate::index;
use crate::index::{hash_more, mixed, HASH_START};
use crate::order;
use crate::order::{Rank, SortKey};
use vstd::prelude::*;
use vstd::utf8::*;

verus! {

/// One component of a path. Names are in the platform's own encoding, which
/// is UTF-8 wherever the name is proper text.
#[derive(Debug)]
pub enum PathPart {
    /// A prefix such as a drive letter, as bytes that compare as prefixes do.
    Prefix(Vec<u8>),
    /// The root of a file system.
    RootDir,
    /// A leading reference to the current directory.
    CurDir,
    /// A reference to the parent directory.
    ParentDir,
    /// The name of a file or a directory.
    Normal(Vec<u8>),
}

/// What a component of a path is.
#[verifier::ext_equal]
pub enum PartView {
    Prefix(Seq<u8>),
    RootDir,
    CurDir,
    ParentDir,
    Normal(Seq<u8>),
}

impl PartView {
    /// Components of different kinds are ordered by their kind.
    pub open spec fn kind(self) -> u8 {
        match self {
            PartView::Prefix(_) => 0,
            PartView::RootDir => 1,
            PartView::CurDir => 2,
            PartView::ParentDir => 3,
            PartView::Normal(_) => 4,
        }
    }

    /// The bytes of the component's name.
    pub open spec fn name(self) -> Seq<u8> {
        match self {
            PartView::Prefix(b) => b,
            PartView::Normal(b) => b,
            _ => Seq::empty(),
        }
    }

    /// Components compare by kind, then by name.
    pub open spec fn key(self) -> Seq<int> {
        seq![self.kind() as int] + self.name().map_values(|b: u8| b as int)
    }
}

impl View for PathPart {
    type V = PartView;

    open spec fn view(&self) -> PartView {
        match *self {
            PathPart::Prefix(b) => PartView::Prefix(b@),
            PathPart::RootDir => PartView::RootDir,
            PathPart::CurDir => PartView::CurDir,
            PathPart::ParentDir => PartView::ParentDir,
            PathPart::Normal(b) => PartView::Normal(b@),
        }
    }
}

/// Compares two runs of bytes.
fn rank_bytes(a: &Vec<u8>, b: &Vec<u8>) -> (r: Rank)
    ensures
        r == order::rank_word(a@.map_values(|x: u8| x as int), b@.map_values(|x: u8| x as int)),
{
    let ghost wa = a@.map_values(|x: u8| x as int);
    let ghost wb = b@.map_values(|x: u8| x as int);
    let mut i: usize = 0;
    assert(wa.skip(0) =~= wa);
    assert(wb.skip(0) =~= wb);
    while i < a.len() && i < b.len()
        invariant
            0 <= i <= a@.len(),
            i <= b@.len(),
            wa == a@.map_values(|x: u8| x as int),
            wb == b@.map_values(|x: u8| x as int),
            order::rank_word(wa, wb) == order::rank_word(wa.skip(i as int), wb.skip(i as int)),
        decreases a@.len() - i,
    {
        assert(wa.skip(i as int)[0] == a@[i as int]);
        assert(wb.skip(i as int)[0] == b@[i as int]);
        if a[i] < b[i] {
            return Rank::Less;
        }
        if a[i] > b[i] {
            return Rank::Greater;
        }
        assert(wa.skip(i as int).skip(1) =~= wa.skip(i + 1));
        assert(wb.skip(i as int).skip(1) =~= wb.skip(i + 1));
        i = i + 1;
    }
    if i < b.len() {
        Rank::Less
    } else if i < a.len() {
        Rank::Greater
    } else {
        Rank::Equal
    }
}

impl Clone for PathPart {
    fn clone(&self) -> (r: Self)
        ensures
            r@ == self@,
    {
        match self {
            PathPart::Prefix(b) => PathPart::Prefix(copy_bytes(b)),
            PathPart::RootDir => PathPart::RootDir,
            PathPart::CurDir => PathPart::CurDir,
            PathPart::ParentDir => PathPart::ParentDir,
            PathPart::Normal(b) => PathPart::Normal(copy_bytes(b)),
        }
    }
}

/// Copies bytes.
fn copy_bytes(b: &Vec<u8>) -> (r: Vec<u8>)
    ensures
        r@ == b@,
{
    let r = b.clone();
    assert(r@ =~= b@);
    r
}

impl PathPart {
    fn kind(&self) -> (r: u8)
        ensures
            r == self@.kind(),
    {
        match self {
            PathPart::Prefix(_) => 0,
            PathPart::RootDir => 1,
            PathPart::CurDir => 2,
            PathPart::ParentDir => 3,
            PathPart::Normal(_) => 4,
        }
    }

    fn rank(&self, other: &Self) -> (r: Rank)
        ensures
            r == order::rank_word(self@.key(), other@.key()),
    {
        let k = self.kind();
        let m = other.kind();
        proof {
            let a = self@.key();
            let b = other@.key();
            assert(a[0] == k && b[0] == m);
            assert(a.skip(1) =~= self@.name().map_values(|x: u8| x as int));
            assert(b.skip(1) =~= other@.name().map_values(|x: u8| x as int));
        }
        if k < m {
            return Rank::Less;
        }
        if k > m {
            return Rank::Greater;
        }
        assert(order::rank_word(self@.key(), other@.key()) == order::rank_word(
            self@.name().map_values(|x: u8| x as int),
            other@.name().map_values(|x: u8| x as int),
        ));
        proof {
            order::lemma_rank_word_equal(
                Seq::<u8>::empty().map_values(|x: u8| x as int),
                Seq::<u8>::empty().map_values(|x: u8| x as int),
            );
        }
        match (self, other) {
            (PathPart::Prefix(a), PathPart::Prefix(b)) => rank_bytes(a, b),
            (PathPart::Normal(a), PathPart::Normal(b)) => rank_bytes(a, b),
            _ => Rank::Equal,
        }
    }
}

/// The path of a file.
#[derive(Debug)]
pub struct FilePath {
    /// The path as the platform gave it, in the platform's encoding.
    pub raw: Vec<u8>,
    /// The path as text to be shown; what is no proper text is replaced.
    pub text: String,
    /// The components of the path.
    pub parts: Vec<PathPart>,
}

/// What a path is.
#[verifier::ext_equal]
pub struct PathView {
    pub raw: Seq<u8>,
    pub text: Seq<char>,
    pub parts: Seq<PartView>,
}

impl View for FilePath {
    type V = PathView;

    open spec fn view(&self) -> PathView {
        PathView {
            raw: self.raw@,
            text: self.text@,
            parts: self.parts@.map_values(|p: PathPart| p@),
        }
    }
}

/// The key by which paths are compared: that of each component in turn.
pub open spec fn path_key(parts: Seq<PartView>) -> Seq<Seq<int>> {
    parts.map_values(|p: PartView| p.key())
}

/// The hash of a path's components.
pub open spec fn hash_parts(parts: Seq<PartView>) -> u64
    decreases parts.len(),
{
    if parts.len() == 0 {
        HASH_START
    } else {
        index::hash_bytes(
            index::mix(hash_parts(parts.drop_last()), parts.last().kind() as u32),
            parts.last().name(),
        )
    }
}

impl PathView {
    /// The key by which the path is compared.
    pub open spec fn key(self) -> Seq<Seq<int>> {
        path_key(self.parts)
    }

    /// Two paths are the same path when they have the same components,
    /// however they were spelled.
    pub open spec fn same(self, other: PathView) -> bool {
        self.parts == other.parts
    }

    /// The path comes before another.
    pub open spec fn less(self, other: PathView) -> bool {
        order::rank_key(self.key(), other.key()) == Rank::Less
    }

    /// The name that the path ends with, if it ends with a name.
    pub open spec fn file_name(self) -> Option<Seq<u8>> {
        if self.parts.len() == 0 {
            None
        } else {
            match self.parts.last() {
                PartView::Normal(b) => Some(b),
                _ => None,
            }
        }
    }

    /// What follows the last dot of the file name. A name without a dot has
    /// no extension, nor has one whose only dot is its first character.
    pub open spec fn extension(self) -> Option<Seq<u8>> {
        match self.file_name() {
            Some(name) => name_extension(name),
            None => None,
        }
    }
}

/// `i` is the position of the last dot in a name.
pub open spec fn last_dot(name: Seq<u8>, i: int) -> bool {
    &&& 0 <= i < name.len()
    &&& name[i] == 46
    &&& forall|j: int| i < j < name.len() ==> name[j] != 46
}

/// What follows the last dot of a name, unless that dot comes first.
pub open spec fn name_extension(name: Seq<u8>) -> Option<Seq<u8>> {
    if exists|i: int| last_dot(name, i) && i > 0 {
        let i = choose|i: int| last_dot(name, i) && i > 0;
        Some(name.skip(i + 1))
    } else {
        None
    }
}

/// The text that some bytes encode, where they are proper UTF-8.
pub open spec fn bytes_text(bytes: Option<Seq<u8>>) -> Option<Seq<char>> {
    match bytes {
        Some(b) => if valid_utf8(b) {
            Some(decode_utf8(b))
        } else {
            None
        },
        None => None,
    }
}

/// `String::from_utf8` gives the text that the bytes encode, and refuses
/// bytes that are no proper UTF-8.
#[verifier::external_body]
fn text_of_utf8(bytes: Vec<u8>) -> (r: Option<String>)
    ensures
        match r {
            Some(s) => valid_utf8(bytes@) && s@ == decode_utf8(bytes@),
            None => !valid_utf8(bytes@),
        },
{
    String::from_utf8(bytes).ok()
}

/// A path's key says what its components are.
pub proof fn lemma_key_injective(a: Seq<PartView>, b: Seq<PartView>)
    ensures
        path_key(a) == path_key(b) <==> a == b,
{
    if path_key(a) == path_key(b) {
        assert(path_key(a).len() == path_key(b).len());
        assert forall|i: int| 0 <= i < a.len() implies a[i] == b[i] by {
            assert(path_key(a)[i] == path_key(b)[i]);
            let ka = a[i].key();
            let kb = b[i].key();
            assert(ka == kb);
            assert(ka[0] == a[i].kind());
            assert(kb[0] == b[i].kind());
            assert(ka.len() == 1 + a[i].name().len());
            assert(kb.len() == 1 + b[i].name().len());
            assert forall|j: int| 0 <= j < a[i].name().len() implies a[i].name()[j]
                == b[i].name()[j] by {
                assert(ka[j + 1] == a[i].name()[j]);
                assert(kb[j + 1] == b[i].name()[j]);
            }
            assert(a[i].name() =~= b[i].name());
        }
        assert(a =~= b);
    }
}

/// Two paths rank equal exactly when they are the same path.
pub proof fn lemma_same_path(a: PathView, b: PathView)
    ensures
        a.same(b) <==> order::rank_key(a.key(), b.key()) == Rank::Equal,
{
    order::lemma_rank_key_equal(a.key(), b.key());
    lemma_key_injective(a.parts, b.parts);
}

impl Clone for FilePath {
    fn clone(&self) -> (r: Self)
        ensures
            r@ == self@,
    {
        let mut parts: Vec<PathPart> = Vec::new();
        let mut i: usize = 0;
        while i < self.parts.len()
            invariant
                0 <= i <= self.parts@.len(),
                parts@.len() == i,
                forall|j: int| 0 <= j < i ==> (#[trigger] parts@[j])@ == self.parts@[j]@,
            decreases self.parts@.len() - i,
        {
            parts.push(self.parts[i].clone());
            i = i + 1;
        }
        let r = FilePath { raw: copy_bytes(&self.raw), text: self.text.clone(), parts };
        assert(r@.parts =~= self@.parts);
        r
    }
}

impl SortKey for FilePath {
    open spec fn sort_key(&self) -> Seq<Seq<int>> {
        self@.key()
    }

    fn rank(&self, other: &Self) -> (r: Rank) {
        let ghost ka = self@.key();
        let ghost kb = other@.key();
        let mut i: usize = 0;
        assert(ka.skip(0) =~= ka);
        assert(kb.skip(0) =~= kb);
        while i < self.parts.len() && i < other.parts.len()
            invariant
                0 <= i <= self.parts@.len(),
                i <= other.parts@.len(),
                ka == self@.key(),
                kb == other@.key(),
                ka.len() == self.parts@.len(),
                kb.len() == other.parts@.len(),
                order::rank_key(ka, kb) == order::rank_key(ka.skip(i as int), kb.skip(i as int)),
            decreases self.parts@.len() - i,
        {
            assert(ka.skip(i as int)[0] == self.parts@[i as int]@.key());
            assert(kb.skip(i as int)[0] == other.parts@[i as int]@.key());
            let r = self.parts[i].rank(&other.parts[i]);
            match r {
                Rank::Equal => {},
                _ => {
                    return r;
                },
            }
            assert(ka.skip(i as int).skip(1) =~= ka.skip(i + 1));
            assert(kb.skip(i as int).skip(1) =~= kb.skip(i + 1));
            i = i + 1;
        }
        if i < other.parts.len() {
            Rank::Less
        } else if i < self.parts.len() {
            Rank::Greater
        } else {
            Rank::Equal
        }
    }
}

impl FilePath {
    /// Tells whether two paths are the same path.
    pub fn same(&self, other: &FilePath) -> (r: bool)
        ensures
            r == self@.same(other@),
    {
        proof {
            lemma_same_path(self@, other@);
        }
        match self.rank(other) {
            Rank::Equal => true,
            _ => false,
        }
    }

    /// Tells whether the path comes before another.
    pub fn less(&self, other: &FilePath) -> (r: bool)
        ensures
            r == self@.less(other@),
    {
        match self.rank(other) {
            Rank::Less => true,
            _ => false,
        }
    }

    /// Hashes the path; the same path has the same hash.
    pub fn hash(&self) -> (h: u64)
        ensures
            h == hash_parts(self@.parts),
    {
        let mut h: u64 = HASH_START;
        let mut i: usize = 0;
        let ghost parts = self@.parts;
        while i < self.parts.len()
            invariant
                0 <= i <= self.parts@.len(),
                parts == self@.parts,
                parts.len() == self.parts@.len(),
                h == hash_parts(parts.take(i as int)),
            decreases self.parts@.len() - i,
        {
            let part = &self.parts[i];
            let ghost h0 = h;
            h = mixed(h, part.kind() as u32);
            let ghost h1 = h;
            assert(parts[i as int] == part@);
            match part {
                PathPart::Prefix(b) => {
                    h = hash_more(h, b);
                },
                PathPart::Normal(b) => {
                    h = hash_more(h, b);
                },
                _ => {},
            }
            assert(h == index::hash_bytes(h1, part@.name()));
            i = i + 1;
            assert(parts.take(i as int).drop_last() =~= parts.take(i - 1));
        }
        assert(parts.take(i as int) =~= parts);
        h
    }

    /// The path as text, if it is proper text.
    pub fn exact_text(&self) -> (r: Option<String>)
        ensures
            match r {
                Some(s) => valid_utf8(self@.raw) && s@ == decode_utf8(self@.raw),
                None => !valid_utf8(self@.raw),
            },
    {
        text_of_utf8(copy_bytes(&self.raw))
    }

    /// The name that the path ends with, as text, if it is proper text.
    pub fn file_name(&self) -> (r: Option<String>)
        ensures
            match r {
                Some(s) => bytes_text(self@.file_name()) == Some(s@),
                None => bytes_text(self@.file_name()) is None,
            },
    {
        let n = self.parts.len();
        if n == 0 {
            return None;
        }
        assert(self@.parts.last() == self.parts@[n - 1]@);
        match &self.parts[n - 1] {
            PathPart::Normal(b) => text_of_utf8(copy_bytes(b)),
            _ => None,
        }
    }

    /// The extension of the path's file name, as text, if it is proper text.
    pub fn extension(&self) -> (r: Option<String>)
        ensures
            match r {
                Some(s) => bytes_text(self@.extension()) == Some(s@),
                None => bytes_text(self@.extension()) is None,
            },
    {
        let n = self.parts.len();
        if n == 0 {
            return None;
        }
        assert(self@.parts.last() == self.parts@[n - 1]@);
        match &self.parts[n - 1] {
            PathPart::Normal(name) => {
                let mut i: usize = name.len();
                while i > 0 && name[i - 1] != 46
                    invariant
                        0 <= i <= name@.len(),
                        forall|j: int| i <= j < name@.len() ==> name@[j] != 46,
                    decreases i,
                {
                    i = i - 1;
                }
                if i <= 1 {
                    assert(!exists|k: int| last_dot(name@, k) && k > 0);
                    return None;
                }
                assert(last_dot(name@, i - 1));
                let ghost d = choose|k: int| last_dot(name@, k) && k > 0;
                assert(d == i - 1);
                let mut ext: Vec<u8> = Vec::new();
                let mut k: usize = i;
                assert(ext@ =~= name@.subrange(i as int, i as int));
                while k < name.len()
                    invariant
                        i <= k <= name@.len(),
                        ext@ == name@.subrange(i as int, k as int),
                    decreases name@.len() - k,
                {
                    ext.push(name[k]);
                    k = k + 1;
                    assert(name@.subrange(i as int, k as int) =~= name@.subrange(
                        i as int,
                        k - 1,
                    ).push(name@[k - 1]));
                }
                assert(ext@ =~= name@.skip(i as int));
                text_of_utf8(ext)
            },
            _ => None,
        }
    }
}

/// The component that a name between two slashes is, if it is one: an empty
/// name is none, nor is a dot; two dots stand for the parent directory.
pub open spec fn name_parts(name: Seq<u8>) -> Seq<PartView> {
    if name.len() == 0 || name == seq![46u8] {
        Seq::empty()
    } else if name == seq![46u8, 46u8] {
        seq![PartView::ParentDir]
    } else {
        seq![PartView::Normal(name)]
    }
}

/// The components up to the last slash of a path, and the name behind it.
pub open spec fn slash_split(raw: Seq<u8>) -> (Seq<PartView>, Seq<u8>)
    decreases raw.len(),
{
    if raw.len() == 0 {
        (Seq::empty(), Seq::empty())
    } else {
        let (parts, name) = slash_split(raw.drop_last());
        if raw.last() == 47 {
            (parts + name_parts(name), Seq::empty())
        } else {
            (parts, name.push(raw.last()))
        }
    }
}

/// What a path begins with: the root, where its first character is a slash, or
/// the current directory, where its first name is a dot.
pub open spec fn slash_head(raw: Seq<u8>) -> Seq<PartView> {
    if raw.len() > 0 && raw[0] == 47 {
        seq![PartView::RootDir]
    } else if raw.len() > 0 && raw[0] == 46 && (raw.len() == 1 || raw[1] == 47) {
        seq![PartView::CurDir]
    } else {
        Seq::empty()
    }
}

/// The components of a path whose names are separated by slashes.
pub open spec fn slash_parts(raw: Seq<u8>) -> Seq<PartView> {
    slash_head(raw) + slash_split(raw).0 + name_parts(slash_split(raw).1)
}

/// The path that a text stands for, with slashes between the names.
pub open spec fn text_path(text: Seq<char>) -> PathView {
    PathView { raw: encode_utf8(text), text, parts: slash_parts(encode_utf8(text)) }
}

impl PathView {
    /// The components of the path are those that slashes separate.
    pub open spec fn by_slashes(self) -> bool {
        self.parts == slash_parts(self.raw)
    }
}

/// Components as they are.
pub open spec fn part_views(parts: Seq<PathPart>) -> Seq<PartView> {
    parts.map_values(|p: PathPart| p@)
}

/// Appends the component that a name is, if it is one.
fn push_name(parts: &mut Vec<PathPart>, name: Vec<u8>)
    ensures
        part_views(final(parts)@) == part_views(old(parts)@) + name_parts(name@),
{
    let ghost before = part_views(parts@);
    let dot: bool = name.len() == 1 && name[0] == 46;
    let dots: bool = name.len() == 2 && name[0] == 46 && name[1] == 46;
    assert(dot <==> name@ =~= seq![46u8]);
    assert(dots <==> name@ =~= seq![46u8, 46u8]);
    if name.len() == 0 || dot {
        assert(part_views(parts@) =~= before + name_parts(name@));
    } else if dots {
        parts.push(PathPart::ParentDir);
        assert(part_views(parts@) =~= before + name_parts(name@));
    } else {
        parts.push(PathPart::Normal(name));
        assert(part_views(parts@) =~= before + name_parts(name@));
    }
}

impl FilePath {
    /// The path that some bytes stand for, with slashes between the names, and
    /// the text by which it is shown.
    pub fn from_bytes(raw: Vec<u8>, text: String) -> (r: Self)
        ensures
            r@ == (PathView { raw: raw@, text: text@, parts: slash_parts(raw@) }),
    {
        let ghost bytes = raw@;
        let mut parts: Vec<PathPart> = Vec::new();
        if raw.len() > 0 && raw[0] == 47 {
            parts.push(PathPart::RootDir);
        } else if raw.len() > 0 && raw[0] == 46 && (raw.len() == 1 || raw[1] == 47) {
            parts.push(PathPart::CurDir);
        }
        assert(part_views(parts@) =~= slash_head(bytes));
        let mut name: Vec<u8> = Vec::new();
        let mut i: usize = 0;
        assert(bytes.take(0) =~= Seq::empty());
        assert(part_views(parts@) =~= slash_head(bytes) + slash_split(bytes.take(0)).0);
        while i < raw.len()
            invariant
                0 <= i <= raw@.len(),
                bytes == raw@,
                part_views(parts@) == slash_head(bytes) + slash_split(bytes.take(i as int)).0,
                name@ == slash_split(bytes.take(i as int)).1,
            decreases raw@.len() - i,
        {
            let ghost was = slash_split(bytes.take(i as int));
            let ghost next = bytes.take(i + 1);
            assert(next.drop_last() =~= bytes.take(i as int));
            assert(next.last() == raw@[i as int]);
            if raw[i] == 47 {
                push_name(&mut parts, name);
                name = Vec::new();
                assert(part_views(parts@) =~= slash_head(bytes) + slash_split(next).0);
            } else {
                name.push(raw[i]);
            }
            i = i + 1;
        }
        assert(bytes.take(i as int) =~= bytes);
        push_name(&mut parts, name);
        assert(part_views(parts@) =~= slash_parts(bytes));
        FilePath { raw, text, parts }
    }

    /// The path that a text stands for, with slashes between the names.
    pub fn from_text(text: String) -> (r: Self)
        ensures
            r@ == text_path(text@),
    {
        let raw = text.as_str().as_bytes_vec();
        FilePath::from_bytes(raw, text)
    }
}

/// The extension of a path whose last name is a stem, a dot and something
/// without a dot is what follows that dot. A name without a dot has none, nor
/// has a name that begins with its only dot.
pub proof fn lemma_extension(p: PathView, stem: Seq<u8>, ext: Seq<u8>)
    requires
        p.parts.len() > 0,
        forall|i: int| 0 <= i < ext.len() ==> #[trigger] ext[i] != 46,
    ensures
        p.parts.last() == PartView::Normal(stem + seq![46u8] + ext) && stem.len() > 0
            ==> p.extension() == Some(ext),
        p.parts.last() == PartView::Normal(seq![46u8] + ext) ==> p.extension() is None,
        p.parts.last() == PartView::Normal(ext) ==> p.extension() is None,
{
    if p.parts.last() == PartView::Normal(stem + seq![46u8] + ext) && stem.len() > 0 {
        let name = stem + seq![46u8] + ext;
        let at = stem.len() as int;
        assert(last_dot(name, at)) by {
            assert forall|j: int| at < j < name.len() implies name[j] != 46 by {
                assert(name[j] == ext[j - at - 1]);
            }
        }
        let i = choose|i: int| last_dot(name, i) && i > 0;
        assert(i == at);
        assert(name.skip(at + 1) =~= ext);
    }
    if p.parts.last() == PartView::Normal(seq![46u8] + ext) {
        let name = seq![46u8] + ext;
        assert forall|i: int| !(last_dot(name, i) && i > 0) by {
            if last_dot(name, i) && i > 0 {
                assert(name[i] == ext[i - 1]);
            }
        }
    }
    if p.parts.last() == PartView::Normal(ext) {
        assert forall|i: int| !(last_dot(ext, i) && i > 0) by {}
    }
}

/// The name of a path is its last component, if that is a name.
pub proof fn lemma_file_name(p: PathView, front: Seq<PartView>, name: Seq<u8>)
    ensures
        p.parts == front.push(PartView::Normal(name)) ==> p.file_name() == Some(name),
        p.parts == front.push(PartView::ParentDir) ==> p.file_name() is None,
        p.parts == front.push(PartView::CurDir) ==> p.file_name() is None,
        p.parts == front.push(PartView::RootDir) ==> p.file_name() is None,
        p.parts.len() == 0 ==> p.file_name() is None,
{
}

/// Paths in one directory are ordered by their names, byte by byte: the first
/// byte that differs decides, whatever follows.
pub proof fn lemma_path_order(
    p: PathView,
    q: PathView,
    dir: Seq<PartView>,
    common: Seq<u8>,
    x: u8,
    y: u8,
    r: Seq<u8>,
    s: Seq<u8>,
    below_p: Seq<PartView>,
    below_q: Seq<PartView>,
)
    requires
        p.parts == dir + seq![PartView::Normal(common + seq![x] + r)] + below_p,
        q.parts == dir + seq![PartView::Normal(common + seq![y] + s)] + below_q,
        x < y,
    ensures
        p.less(q),
        !q.less(p),
{
    let pa = PartView::Normal(common + seq![x] + r);
    let pb = PartView::Normal(common + seq![y] + s);
    let f = |b: u8| b as int;
    let head = seq![4int] + common.map_values(f);
    let ra = r.map_values(f);
    let rb = s.map_values(f);
    assert(pa.key() =~= head + seq![x as int] + ra);
    assert(pb.key() =~= head + seq![y as int] + rb);
    order::lemma_word_order(head, x as int, y as int, ra, rb);
    order::lemma_rank_word_equal(pa.key(), pb.key());
    assert(p.key() =~= path_key(dir) + seq![pa.key()] + path_key(below_p));
    assert(q.key() =~= path_key(dir) + seq![pb.key()] + path_key(below_q));
    order::lemma_key_order(
        path_key(dir),
        pa.key(),
        pb.key(),
        path_key(below_p),
        path_key(below_q),
    );
    order::lemma_rank_key_flip(p.key(), q.key());
}

/// A directory comes before what is in it.
pub proof fn lemma_dir_first(p: PathView, q: PathView, below: Seq<PartView>)
    requires
        q.parts == p.parts + below,
        below.len() > 0,
    ensures
        p.less(q),
{
    let none = Seq::<int>::empty();
    assert(q.key() =~= p.key() + path_key(below));
    order::lemma_key_order(p.key(), none, none, Seq::empty(), path_key(below));
}

/// Of two paths that are not the same one comes before the other, and no path
/// comes before itself.
pub proof fn lemma_path_total(p: PathView, q: PathView)
    ensures
        !p.same(q) ==> (p.less(q) <==> !q.less(p)),
        p.same(q) ==> !p.less(q),
{
    order::lemma_rank_key_flip(p.key(), q.key());
    order::lemma_rank_key_equal(p.key(), q.key());
    if p.key() == q.key() {
        lemma_key_injective(p.parts, q.parts);
    }
}

/// A slash and a name without slashes add one component to a path: a name, or
/// the parent directory where the name is two dots. Where it is empty or a
/// single dot, they add none.
pub proof fn lemma_slash_name(dir: Seq<u8>, name: Seq<u8>)
    requires
        dir.len() > 0,
        forall|i: int| 0 <= i < name.len() ==> #[trigger] name[i] != 47,
    ensures
        name.len() == 0 || name == seq![46u8] ==> slash_parts(dir + seq![47u8] + name)
            == slash_parts(dir),
        name == seq![46u8, 46u8] ==> slash_parts(dir + seq![47u8] + name) == slash_parts(dir).push(
            PartView::ParentDir,
        ),
        name.len() > 0 && name != seq![46u8] && name != seq![46u8, 46u8] ==> slash_parts(
            dir + seq![47u8] + name,
        ) == slash_parts(dir).push(PartView::Normal(name)),
{
    let raw = dir + seq![47u8] + name;
    let one = seq![46u8];
    let two = seq![46u8, 46u8];
    assert(one.len() == 1 && two.len() == 2);
    lemma_slash_tail(dir + seq![47u8], name);
    let mid = dir + seq![47u8];
    assert(mid.drop_last() =~= dir);
    assert(mid.last() == 47);
    let none = Seq::<u8>::empty();
    assert(none + name =~= name);
    assert(slash_head(raw) == slash_head(dir)) by {
        assert(raw[0] == dir[0]);
        if dir.len() > 1 {
            assert(raw[1] == dir[1]);
        } else {
            assert(raw[1] == 47);
        }
    }
    assert(slash_parts(raw) =~= slash_parts(dir) + name_parts(name));
    assert(slash_parts(dir) + Seq::<PartView>::empty() =~= slash_parts(dir));
}

/// What follows the last slash is a name.
proof fn lemma_slash_tail(front: Seq<u8>, name: Seq<u8>)
    requires
        forall|i: int| 0 <= i < name.len() ==> #[trigger] name[i] != 47,
    ensures
        slash_split(front + name) == (slash_split(front).0, slash_split(front).1 + name),
    decreases name.len(),
{
    let raw = front + name;
    if name.len() == 0 {
        assert(raw =~= front);
        assert(slash_split(front).1 + name =~= slash_split(front).1);
    } else {
        assert(raw.drop_last() =~= front + name.drop_last());
        assert(raw.last() == name[name.len() - 1]);
        assert forall|i: int| 0 <= i < name.drop_last().len() implies #[trigger] name.drop_last()[i]
            != 47 by {
            assert(name.drop_last()[i] == name[i]);
        }
        lemma_slash_tail(front, name.drop_last());
        assert(slash_split(front).1 + name =~= (slash_split(front).1 + name.drop_last()).push(
            name.last(),
        ));
    }
}

/// A name alone is one component, and behind a slash it stands in the root; a
/// dot alone is the current directory.
pub proof fn lemma_first_name(name: Seq<u8>)
    requires
        forall|i: int| 0 <= i < name.len() ==> #[trigger] name[i] != 47,
    ensures
        name.len() > 0 && name[0] != 46 ==> slash_parts(name) == seq![PartView::Normal(name)],
        name.len() > 0 && name[0] != 46 ==> slash_parts(seq![47u8] + name) == seq![
            PartView::RootDir,
            PartView::Normal(name),
        ],
        slash_parts(seq![47u8]) == seq![PartView::RootDir],
        slash_parts(seq![46u8]) == seq![PartView::CurDir],
        slash_parts(Seq::<u8>::empty()).len() == 0,
{
    let none = Seq::<u8>::empty();
    let root = seq![47u8];
    let dot = seq![46u8];
    let dots = seq![46u8, 46u8];
    assert(dot[0] == 46 && dots[0] == 46);
    lemma_slash_tail(none, name);
    assert(none + name =~= name);
    assert(slash_split(none) == (Seq::<PartView>::empty(), none));
    lemma_slash_tail(root, name);
    assert(root.drop_last() =~= none);
    assert(slash_split(root).0 =~= Seq::<PartView>::empty());
    assert(slash_split(root).1 =~= none);
    assert((root + name)[0] == 47);
    assert(slash_parts(root) =~= seq![PartView::RootDir]);
    assert(dot.drop_last() =~= none);
    assert(slash_split(dot).1 =~= dot);
    assert(slash_split(dot).0 =~= Seq::<PartView>::empty());
    assert(slash_parts(dot) =~= seq![PartView::CurDir]);
    assert(slash_parts(none) =~= Seq::<PartView>::empty());
    if name.len() > 0 && name[0] != 46 {
        assert(slash_parts(name) =~= seq![PartView::Normal(name)]);
        assert(slash_parts(root + name) =~= seq![PartView::RootDir, PartView::Normal(name)]);
    }
}

/// A name that encodes a text is read as that text, and bytes that encode none
/// are read as none.
pub proof fn lemma_bytes_text(t: Seq<char>, bytes: Seq<u8>)
    ensures
        bytes_text(Some(encode_utf8(t))) == Some(t),
        !valid_utf8(bytes) ==> bytes_text(Some(bytes)) is None,
        bytes_text(None) is None,
{
    vstd::utf8::encode_utf8_valid_utf8(t);
    vstd::utf8::encode_utf8_decode_utf8(t);
}

} // verus!
