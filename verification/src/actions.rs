//! Deleting duplicates: what is asked, checked and removed, in which order.
//!
//! Every file is re-hashed immediately before deletion and skipped if it no
//! longer matches the hash it is known by, so a file that changed between the
//! scan and the delete is never removed. Unless all prompts are answered
//! beforehand, the user is asked for each group: y = delete this group, a =
//! delete this and all remaining, q = quit.

use crate::matching;
use crate::matching::{Group, GroupView, MemberView};
use crate::paint;
use crate::paint::{number, put, put_str, Paint, Span, SpanView};
use crate::report;
use crate::report::percent;
use crate::text;
use crate::text::{same_text, to_lower, trim};
use crate::util;
use crate::util::human_bytes;
use vstd::prelude::*;
use vstd::string::*;

verus! {

/// What a deletion has done so far.
#[derive(Clone, Copy, Debug, PartialEq, Eq, Structural)]
pub struct DeletionStats {
    pub files_deleted: u64,
    pub bytes_freed: u64,
    pub files_skipped: u64,
}

impl Default for DeletionStats {
    fn default() -> (r: Self)
        ensures
            r == (DeletionStats { files_deleted: 0, bytes_freed: 0, files_skipped: 0 }),
    {
        DeletionStats { files_deleted: 0, bytes_freed: 0, files_skipped: 0 }
    }
}

/// What is to be done next.
#[derive(Clone, Copy, Debug, PartialEq, Eq, Structural)]
pub enum DeletionStep {
    /// Ask whether the files of a group shall be deleted.
    Ask { group: usize },
    /// Hash a file again.
    Check { group: usize, member: usize },
    /// Remove a file.
    Remove { group: usize, member: usize },
    /// Nothing.
    Done,
}

/// An answer to the question whether to delete.
#[derive(Clone, Copy, Debug, PartialEq, Eq, Structural)]
pub enum Reply {
    Yes,
    All,
    Quit,
    No,
}

/// What an answer means, whatever its case and the white space around it.
pub open spec fn reply_of(answer: Seq<char>) -> Reply {
    let word = text::lower(text::trimmed(answer));
    if word == "y"@ || word == "yes"@ {
        Reply::Yes
    } else if word == "a"@ || word == "all"@ {
        Reply::All
    } else if word == "q"@ || word == "quit"@ {
        Reply::Quit
    } else {
        Reply::No
    }
}

/// Reads an answer.
pub fn parse_reply(answer: &str) -> (r: Reply)
    ensures
        r == reply_of(answer@),
{
    let word = to_lower(trim(answer).as_str());
    let w = word.as_str();
    if same_text(w, "y") || same_text(w, "yes") {
        Reply::Yes
    } else if same_text(w, "a") || same_text(w, "all") {
        Reply::All
    } else if same_text(w, "q") || same_text(w, "quit") {
        Reply::Quit
    } else {
        Reply::No
    }
}

/// The first file, from position `from` on, that is not kept.
pub open spec fn next_spare(members: Seq<MemberView>, from: nat) -> Option<nat>
    decreases members.len() - from,
{
    if from >= members.len() {
        None
    } else if !members[from as int].keep {
        Some(from)
    } else {
        next_spare(members, from + 1)
    }
}

/// What comes next, from group `from` on: groups of which all files are kept
/// are passed over.
pub open spec fn begin(groups: Seq<GroupView>, from: nat, assume_yes: bool) -> DeletionStep
    decreases groups.len() - from,
{
    if from >= groups.len() {
        DeletionStep::Done
    } else {
        match next_spare(groups[from as int].members, 0) {
            None => begin(groups, from + 1, assume_yes),
            Some(m) => if assume_yes {
                DeletionStep::Check { group: from as usize, member: m as usize }
            } else {
                DeletionStep::Ask { group: from as usize }
            },
        }
    }
}

/// What comes next in group `g`, from position `from` on.
pub open spec fn advance(
    groups: Seq<GroupView>,
    g: usize,
    from: nat,
    assume_yes: bool,
) -> DeletionStep {
    match next_spare(groups[g as int].members, from) {
        Some(m) => DeletionStep::Check { group: g, member: m as usize },
        None => begin(groups, (g + 1) as nat, assume_yes),
    }
}

/// The state of a deletion.
pub struct DeletionView {
    pub next: DeletionStep,
    pub assume_yes: bool,
    pub stats: DeletionStats,
}

/// The state after the user has answered.
pub open spec fn after_answer(
    groups: Seq<GroupView>,
    s: DeletionView,
    answer: Seq<char>,
) -> DeletionView {
    match s.next {
        DeletionStep::Ask { group } => match reply_of(answer) {
            Reply::Yes => DeletionView { next: advance(groups, group, 0, s.assume_yes), ..s },
            Reply::All => DeletionView {
                next: advance(groups, group, 0, true),
                assume_yes: true,
                ..s
            },
            Reply::Quit => DeletionView { next: DeletionStep::Done, ..s },
            Reply::No => DeletionView {
                next: begin(groups, (group + 1) as nat, s.assume_yes),
                ..s
            },
        },
        _ => s,
    }
}

/// The hash that a file is known by: its own, or that of its group.
pub open spec fn known_hash(g: GroupView, m: int) -> Seq<char> {
    match g.members[m].content_hash {
        Some(h) => h,
        None => g.hash,
    }
}

/// The state after a file was hashed again; `None` stands for a file that could
/// not be read.
pub open spec fn after_check(
    groups: Seq<GroupView>,
    s: DeletionView,
    hash: Option<Seq<char>>,
) -> DeletionView {
    match s.next {
        DeletionStep::Check { group, member } => if hash == Some(
            known_hash(groups[group as int], member as int),
        ) {
            DeletionView { next: DeletionStep::Remove { group, member }, ..s }
        } else {
            DeletionView {
                next: advance(groups, group, (member + 1) as nat, s.assume_yes),
                stats: DeletionStats {
                    files_skipped: (s.stats.files_skipped + 1) as u64,
                    ..s.stats
                },
                ..s
            }
        },
        _ => s,
    }
}

/// The state after a file was to be removed, which succeeded or not.
pub open spec fn after_removal(
    groups: Seq<GroupView>,
    s: DeletionView,
    succeeded: bool,
) -> DeletionView {
    match s.next {
        DeletionStep::Remove { group, member } => {
            let next = advance(groups, group, (member + 1) as nat, s.assume_yes);
            let size = groups[group as int].members[member as int].size;
            if succeeded {
                DeletionView {
                    next,
                    stats: DeletionStats {
                        files_deleted: (s.stats.files_deleted + 1) as u64,
                        bytes_freed: (s.stats.bytes_freed + size) as u64,
                        ..s.stats
                    },
                    ..s
                }
            } else {
                DeletionView {
                    next,
                    stats: DeletionStats {
                        files_skipped: (s.stats.files_skipped + 1) as u64,
                        ..s.stats
                    },
                    ..s
                }
            }
        },
        _ => s,
    }
}

/// How many files of a group are not kept.
pub open spec fn spare_count(members: Seq<MemberView>) -> nat {
    (members.len() - matching::kept(members)) as nat
}

/// How many files that are not kept come before a step.
pub open spec fn files_before(groups: Seq<GroupView>, step: DeletionStep) -> nat {
    match step {
        DeletionStep::Ask { group } => report::spare_files(groups.take(group as int)),
        DeletionStep::Check { group, member } | DeletionStep::Remove {
            group,
            member,
        } => report::spare_files(groups.take(group as int)) + spare_count(
            groups[group as int].members.take(member as int),
        ),
        DeletionStep::Done => report::spare_files(groups),
    }
}

/// How many bytes those files have.
pub open spec fn bytes_before(groups: Seq<GroupView>, step: DeletionStep) -> nat {
    match step {
        DeletionStep::Ask { group } => report::spare_total(groups.take(group as int)),
        DeletionStep::Check { group, member } | DeletionStep::Remove {
            group,
            member,
        } => report::spare_total(groups.take(group as int)) + matching::spare_bytes(
            groups[group as int].members.take(member as int),
        ),
        DeletionStep::Done => report::spare_total(groups),
    }
}

/// The step is about a group with something to delete, or a file that is not
/// kept.
pub open spec fn is_step(groups: Seq<GroupView>, step: DeletionStep) -> bool {
    match step {
        DeletionStep::Ask { group } => group < groups.len() && next_spare(
            groups[group as int].members,
            0,
        ) is Some,
        DeletionStep::Check { group, member } | DeletionStep::Remove { group, member } => {
            &&& group < groups.len()
            &&& member < groups[group as int].members.len()
            &&& !groups[group as int].members[member as int].keep
        },
        DeletionStep::Done => true,
    }
}

/// The groups are few enough to be listed and their files to be counted.
pub open spec fn countable(groups: Seq<GroupView>) -> bool {
    &&& groups.len() <= usize::MAX
    &&& forall|g: int| 0 <= g < groups.len() ==> (#[trigger] groups[g]).members.len() <= usize::MAX
    &&& report::spare_files(groups) <= u64::MAX
    &&& report::spare_total(groups) <= u64::MAX
}

/// The state is one that a deletion can be in: the next step is a proper one,
/// and no more was counted than came before it.
pub open spec fn is_state(groups: Seq<GroupView>, s: DeletionView) -> bool {
    &&& is_step(groups, s.next)
    &&& s.stats.files_deleted + s.stats.files_skipped <= files_before(groups, s.next)
    &&& s.stats.bytes_freed <= bytes_before(groups, s.next)
}

/// The next spare file is one that is not kept, and those before it are.
proof fn lemma_next_spare(members: Seq<MemberView>, from: nat)
    ensures
        match next_spare(members, from) {
            Some(m) => {
                &&& from <= m < members.len()
                &&& !members[m as int].keep
                &&& forall|j: int| from <= j < m ==> (#[trigger] members[j]).keep
            },
            None => forall|j: int| from <= j < members.len() ==> (#[trigger] members[j]).keep,
        },
    decreases members.len() - from,
{
    if from < members.len() && members[from as int].keep {
        lemma_next_spare(members, from + 1);
    }
}

/// One file more: what there is to spare grows where it is not kept.
proof fn lemma_spare_step(members: Seq<MemberView>, m: int)
    requires
        0 <= m < members.len(),
    ensures
        spare_count(members.take(m + 1)) == spare_count(members.take(m)) + if members[m].keep {
            0nat
        } else {
            1nat
        },
        matching::spare_bytes(members.take(m + 1)) == matching::spare_bytes(members.take(m))
            + if members[m].keep {
            0nat
        } else {
            members[m].size as nat
        },
{
    assert(members.take(m + 1).drop_last() =~= members.take(m));
    matching::lemma_kept_bound(members.take(m));
    matching::lemma_kept_bound(members.take(m + 1));
}

/// Later positions have no fewer files before them.
proof fn lemma_spare_monotone(members: Seq<MemberView>, i: int, j: int)
    requires
        0 <= i <= j <= members.len(),
    ensures
        spare_count(members.take(i)) <= spare_count(members.take(j)),
        matching::spare_bytes(members.take(i)) <= matching::spare_bytes(members.take(j)),
    decreases j - i,
{
    if i < j {
        lemma_spare_monotone(members, i, j - 1);
        lemma_spare_step(members, j - 1);
    }
}

/// Files that are kept do not count.
proof fn lemma_kept_run(members: Seq<MemberView>, i: int, j: int)
    requires
        0 <= i <= j <= members.len(),
        forall|k: int| i <= k < j ==> (#[trigger] members[k]).keep,
    ensures
        spare_count(members.take(i)) == spare_count(members.take(j)),
        matching::spare_bytes(members.take(i)) == matching::spare_bytes(members.take(j)),
    decreases j - i,
{
    if i < j {
        lemma_kept_run(members, i, j - 1);
        lemma_spare_step(members, j - 1);
    }
}

/// What comes before a group, and the group itself, is what comes before the
/// next.
proof fn lemma_group_step(groups: Seq<GroupView>, g: int)
    requires
        0 <= g < groups.len(),
    ensures
        report::spare_files(groups.take(g + 1)) == report::spare_files(groups.take(g))
            + spare_count(groups[g].members),
        report::spare_total(groups.take(g + 1)) == report::spare_total(groups.take(g))
            + matching::spare_bytes(groups[g].members),
{
    assert(groups.take(g + 1).drop_last() =~= groups.take(g));
    matching::lemma_kept_bound(groups[g].members);
}

/// What `begin` finds is a proper step, and no file that is not kept is passed
/// over.
proof fn lemma_begin(groups: Seq<GroupView>, from: nat, assume_yes: bool)
    requires
        from <= groups.len(),
        countable(groups),
    ensures
        is_step(groups, begin(groups, from, assume_yes)),
        report::spare_files(groups.take(from as int)) == files_before(
            groups,
            begin(groups, from, assume_yes),
        ),
        report::spare_total(groups.take(from as int)) == bytes_before(
            groups,
            begin(groups, from, assume_yes),
        ),
    decreases groups.len() - from,
{
    if from >= groups.len() {
        assert(groups.take(from as int) =~= groups);
    } else {
        let members = groups[from as int].members;
        let n = members.len() as int;
        lemma_next_spare(members, 0);
        assert(members.take(0) =~= Seq::empty());
        assert(members.take(n) =~= members);
        match next_spare(members, 0) {
            None => {
                lemma_begin(groups, from + 1, assume_yes);
                lemma_group_step(groups, from as int);
                lemma_kept_run(members, 0, n);
            },
            Some(m) => {
                lemma_kept_run(members, 0, m as int);
            },
        }
    }
}

/// What `advance` finds is a proper step, and no file that is not kept is passed
/// over.
proof fn lemma_advance(groups: Seq<GroupView>, g: usize, from: nat, assume_yes: bool)
    requires
        g < groups.len(),
        from <= groups[g as int].members.len(),
        countable(groups),
    ensures
        is_step(groups, advance(groups, g, from, assume_yes)),
        report::spare_files(groups.take(g as int)) + spare_count(
            groups[g as int].members.take(from as int),
        ) == files_before(groups, advance(groups, g, from, assume_yes)),
        report::spare_total(groups.take(g as int)) + matching::spare_bytes(
            groups[g as int].members.take(from as int),
        ) == bytes_before(groups, advance(groups, g, from, assume_yes)),
{
    let members = groups[g as int].members;
    let n = members.len() as int;
    lemma_next_spare(members, from);
    match next_spare(members, from) {
        Some(m) => {
            lemma_kept_run(members, from as int, m as int);
        },
        None => {
            lemma_begin(groups, (g + 1) as nat, assume_yes);
            lemma_group_step(groups, g as int);
            lemma_kept_run(members, from as int, n);
            assert(members.take(n) =~= members);
        },
    }
}

/// What is before a step is no more than there is.
proof fn lemma_before_bound(groups: Seq<GroupView>, step: DeletionStep)
    requires
        is_step(groups, step),
        countable(groups),
    ensures
        files_before(groups, step) <= u64::MAX,
        bytes_before(groups, step) <= u64::MAX,
        match step {
            DeletionStep::Check { group, member } | DeletionStep::Remove { group, member } => {
                &&& files_before(groups, step) + 1 <= u64::MAX
                &&& bytes_before(groups, step)
                    + groups[group as int].members[member as int].size <= u64::MAX
            },
            _ => true,
        },
{
    match step {
        DeletionStep::Ask { group } => {
            report::lemma_spare_grows(groups, group as int);
        },
        DeletionStep::Check { group, member } | DeletionStep::Remove { group, member } => {
            let members = groups[group as int].members;
            let n = members.len() as int;
            lemma_spare_step(members, member as int);
            lemma_spare_monotone(members, member + 1, n);
            assert(members.take(n) =~= members);
            lemma_group_step(groups, group as int);
            report::lemma_spare_grows(groups, group + 1);
        },
        DeletionStep::Done => {},
    }
}

/// A deletion under way.
pub struct Deletion {
    next: DeletionStep,
    assume_yes: bool,
    stats: DeletionStats,
}

impl View for Deletion {
    type V = DeletionView;

    closed spec fn view(&self) -> DeletionView {
        DeletionView { next: self.next, assume_yes: self.assume_yes, stats: self.stats }
    }
}

fn find_spare(group: &Group, from: usize) -> (r: Option<usize>)
    requires
        from <= group.members@.len(),
    ensures
        match r {
            Some(m) => next_spare(group@.members, from as nat) == Some(m as nat),
            None => next_spare(group@.members, from as nat) is None,
        },
{
    let mut m: usize = from;
    while m < group.members.len()
        invariant
            from <= m <= group.members@.len(),
            next_spare(group@.members, from as nat) == next_spare(group@.members, m as nat),
        decreases group.members@.len() - m,
    {
        if !group.members[m].keep {
            return Some(m);
        }
        m = m + 1;
    }
    None
}

fn find_begin(groups: &Vec<Group>, from: usize, assume_yes: bool) -> (r: DeletionStep)
    requires
        from <= groups@.len(),
    ensures
        r == begin(matching::group_views(groups@), from as nat, assume_yes),
{
    let ghost views = matching::group_views(groups@);
    let mut g: usize = from;
    while g < groups.len()
        invariant
            from <= g <= groups@.len(),
            views == matching::group_views(groups@),
            begin(views, from as nat, assume_yes) == begin(views, g as nat, assume_yes),
        decreases groups@.len() - g,
    {
        assert(views[g as int] == groups@[g as int]@);
        match find_spare(&groups[g], 0) {
            Some(member) => {
                return if assume_yes {
                    DeletionStep::Check { group: g, member }
                } else {
                    DeletionStep::Ask { group: g }
                };
            },
            None => {},
        }
        g = g + 1;
    }
    DeletionStep::Done
}

fn find_next(groups: &Vec<Group>, g: usize, from: usize, assume_yes: bool) -> (r: DeletionStep)
    requires
        g < groups@.len(),
        from <= groups@[g as int].members@.len(),
    ensures
        r == advance(matching::group_views(groups@), g, from as nat, assume_yes),
{
    assert(groups.len() == groups@.len());
    assert(matching::group_views(groups@)[g as int] == groups@[g as int]@);
    match find_spare(&groups[g], from) {
        Some(member) => DeletionStep::Check { group: g, member },
        None => find_begin(groups, g + 1, assume_yes),
    }
}

impl Deletion {
    /// Begins to delete every file of some groups that is not kept; `yes`
    /// answers all questions beforehand.
    pub fn new(groups: &Vec<Group>, yes: bool) -> (r: Self)
        requires
            countable(matching::group_views(groups@)),
        ensures
            r@ == (DeletionView {
                next: begin(matching::group_views(groups@), 0, yes),
                assume_yes: yes,
                stats: DeletionStats { files_deleted: 0, bytes_freed: 0, files_skipped: 0 },
            }),
            is_state(matching::group_views(groups@), r@),
    {
        proof {
            lemma_begin(matching::group_views(groups@), 0, yes);
        }
        Deletion {
            next: find_begin(groups, 0, yes),
            assume_yes: yes,
            stats: DeletionStats::default(),
        }
    }

    /// What is to be done next.
    pub fn next(&self) -> (r: DeletionStep)
        ensures
            r == self@.next,
    {
        self.next
    }

    /// What was done so far.
    pub fn stats(&self) -> (r: DeletionStats)
        ensures
            r == self@.stats,
    {
        self.stats
    }

    /// Takes the user's answer.
    pub fn answered(&mut self, groups: &Vec<Group>, answer: &str)
        requires
            countable(matching::group_views(groups@)),
            is_state(matching::group_views(groups@), old(self)@),
        ensures
            final(self)@ == after_answer(matching::group_views(groups@), old(self)@, answer@),
            is_state(matching::group_views(groups@), final(self)@),
    {
        let ghost views = matching::group_views(groups@);
        match self.next {
            DeletionStep::Ask { group } => {
                assert(views[group as int] == groups@[group as int]@);
                proof {
                    let none = views[group as int].members.take(0);
                    assert(none =~= Seq::empty());
                    lemma_advance(views, group, 0, self.assume_yes);
                    lemma_advance(views, group, 0, true);
                    lemma_begin(views, (group + 1) as nat, self.assume_yes);
                    lemma_group_step(views, group as int);
                    report::lemma_spare_grows(views, group as int);
                }
                match parse_reply(answer) {
                    Reply::Yes => {
                        self.next = find_next(groups, group, 0, self.assume_yes);
                    },
                    Reply::All => {
                        self.assume_yes = true;
                        self.next = find_next(groups, group, 0, true);
                    },
                    Reply::Quit => {
                        self.next = DeletionStep::Done;
                    },
                    Reply::No => {
                        self.next = find_begin(groups, group + 1, self.assume_yes);
                    },
                }
            },
            _ => {},
        }
    }

    /// Takes the new hash of a file, or that it could not be read. Tells
    /// whether the file is as it was, so that it can be removed.
    pub fn checked(&mut self, groups: &Vec<Group>, hash: Option<&str>) -> (unchanged: bool)
        requires
            countable(matching::group_views(groups@)),
            is_state(matching::group_views(groups@), old(self)@),
            old(self)@.next is Check,
        ensures
            final(self)@ == after_check(
                matching::group_views(groups@),
                old(self)@,
                match hash {
                    Some(h) => Some(h@),
                    None => None,
                },
            ),
            is_state(matching::group_views(groups@), final(self)@),
            unchanged == (final(self)@.next is Remove),
            unchanged == (hash matches Some(h) && h@ == known_hash(
                matching::group_views(groups@)[old(self)@.next->Check_group as int],
                old(self)@.next->Check_member as int,
            )),
    {
        let ghost views = matching::group_views(groups@);
        match self.next {
            DeletionStep::Check { group, member } => {
                assert(views[group as int] == groups@[group as int]@);
                assert(views[group as int].members[member as int]
                    == groups@[group as int].members@[member as int]@);
                proof {
                    lemma_before_bound(views, self.next);
                    lemma_spare_step(views[group as int].members, member as int);
                    lemma_advance(views, group, (member + 1) as nat, self.assume_yes);
                }
                let same = match hash {
                    Some(h) => match &groups[group].members[member].content_hash {
                        Some(own) => same_text(h, own.as_str()),
                        None => same_text(h, groups[group].hash.as_str()),
                    },
                    None => false,
                };
                if same {
                    self.next = DeletionStep::Remove { group, member };
                    true
                } else {
                    self.stats.files_skipped = self.stats.files_skipped + 1;
                    self.next = find_next(groups, group, member + 1, self.assume_yes);
                    proof {
                        lemma_never_remove(views, group, (member + 1) as nat, self.assume_yes);
                    }
                    false
                }
            },
            _ => false,
        }
    }

    /// Takes whether a file could be removed.
    pub fn removed(&mut self, groups: &Vec<Group>, succeeded: bool)
        requires
            countable(matching::group_views(groups@)),
            is_state(matching::group_views(groups@), old(self)@),
        ensures
            final(self)@ == after_removal(matching::group_views(groups@), old(self)@, succeeded),
            is_state(matching::group_views(groups@), final(self)@),
    {
        let ghost views = matching::group_views(groups@);
        match self.next {
            DeletionStep::Remove { group, member } => {
                assert(views[group as int] == groups@[group as int]@);
                assert(views[group as int].members[member as int]
                    == groups@[group as int].members@[member as int]@);
                proof {
                    lemma_before_bound(views, self.next);
                    lemma_spare_step(views[group as int].members, member as int);
                    lemma_advance(views, group, (member + 1) as nat, self.assume_yes);
                }
                if succeeded {
                    self.stats.files_deleted = self.stats.files_deleted + 1;
                    self.stats.bytes_freed = self.stats.bytes_freed
                        + groups[group].members[member].size;
                } else {
                    self.stats.files_skipped = self.stats.files_skipped + 1;
                }
                self.next = find_next(groups, group, member + 1, self.assume_yes);
            },
            _ => {},
        }
    }
}

proof fn lemma_never_remove_begin(groups: Seq<GroupView>, from: nat, assume_yes: bool)
    ensures
        !(begin(groups, from, assume_yes) is Remove),
        assume_yes ==> !(begin(groups, from, assume_yes) is Ask),
    decreases groups.len() - from,
{
    if from < groups.len() && next_spare(groups[from as int].members, 0) is None {
        lemma_never_remove_begin(groups, from + 1, assume_yes);
    }
}

/// Moving on asks or checks; it never removes. Once all questions are answered
/// it does not ask.
pub proof fn lemma_never_remove(groups: Seq<GroupView>, g: usize, from: nat, assume_yes: bool)
    ensures
        !(advance(groups, g, from, assume_yes) is Remove),
        assume_yes ==> !(advance(groups, g, from, assume_yes) is Ask),
{
    lemma_never_remove_begin(groups, (g + 1) as nat, assume_yes);
}

/// A file that is kept is never checked or removed.
pub proof fn lemma_keepers_stay(groups: Seq<GroupView>, s: DeletionView, g: usize, m: usize)
    requires
        is_state(groups, s),
        groups[g as int].members[m as int].keep,
    ensures
        s.next != (DeletionStep::Remove { group: g, member: m }),
        s.next != (DeletionStep::Check { group: g, member: m }),
{
}

/// A file is removed only right after it was hashed again and found to have the
/// hash that it is known by.
pub proof fn lemma_removed_only_unchanged(
    groups: Seq<GroupView>,
    s: DeletionView,
    answer: Seq<char>,
    hash: Option<Seq<char>>,
    succeeded: bool,
    g: usize,
    m: usize,
)
    requires
        s.next != (DeletionStep::Remove { group: g, member: m }),
    ensures
        after_check(groups, s, hash).next == (DeletionStep::Remove { group: g, member: m }) <==> (
        s.next == (DeletionStep::Check { group: g, member: m }) && hash == Some(
            known_hash(groups[g as int], m as int),
        )),
        after_answer(groups, s, answer).next != (DeletionStep::Remove { group: g, member: m }),
        after_removal(groups, s, succeeded).next != (DeletionStep::Remove { group: g, member: m }),
{
    match s.next {
        DeletionStep::Ask { group } => {
            lemma_never_remove(groups, group, 0, s.assume_yes);
            lemma_never_remove(groups, group, 0, true);
            lemma_never_remove_begin(groups, (group + 1) as nat, s.assume_yes);
        },
        DeletionStep::Check { group, member } | DeletionStep::Remove { group, member } => {
            lemma_never_remove(groups, group, (member + 1) as nat, s.assume_yes);
        },
        DeletionStep::Done => {},
    }
}

/// The group that a step is about; behind all groups where it is about none.
pub open spec fn step_group(groups: Seq<GroupView>, step: DeletionStep) -> nat {
    match step {
        DeletionStep::Ask { group } => group as nat,
        DeletionStep::Check { group, member } => group as nat,
        DeletionStep::Remove { group, member } => group as nat,
        DeletionStep::Done => groups.len(),
    }
}

proof fn lemma_begin_group(groups: Seq<GroupView>, from: nat, assume_yes: bool)
    requires
        from <= groups.len() <= usize::MAX,
    ensures
        step_group(groups, begin(groups, from, assume_yes)) >= from,
    decreases groups.len() - from,
{
    if from < groups.len() && next_spare(groups[from as int].members, 0) is None {
        lemma_begin_group(groups, from + 1, assume_yes);
    }
}

/// Where the user neither agrees nor agrees to all, no file of the group is
/// touched: what comes next is about a later group. After quitting nothing
/// comes next.
pub proof fn lemma_refused_group_stays(
    groups: Seq<GroupView>,
    s: DeletionView,
    answer: Seq<char>,
    g: usize,
)
    requires
        countable(groups),
        is_state(groups, s),
        s.next == (DeletionStep::Ask { group: g }),
        reply_of(answer) is No || reply_of(answer) is Quit,
    ensures
        step_group(groups, after_answer(groups, s, answer).next) > g,
        reply_of(answer) is Quit ==> after_answer(groups, s, answer).next is Done,
        after_answer(groups, s, answer).stats == s.stats,
{
    lemma_begin_group(groups, (g + 1) as nat, s.assume_yes);
}

/// Once the user agreed to all, there are no more questions.
pub proof fn lemma_no_more_questions(
    groups: Seq<GroupView>,
    s: DeletionView,
    answer: Seq<char>,
    hash: Option<Seq<char>>,
    succeeded: bool,
)
    requires
        s.assume_yes,
    ensures
        s.next is Ask || !(after_answer(groups, s, answer).next is Ask),
        s.next is Ask || !(after_check(groups, s, hash).next is Ask),
        s.next is Ask || !(after_removal(groups, s, succeeded).next is Ask),
        !(begin(groups, 0, true) is Ask),
{
    lemma_never_remove_begin(groups, 0, true);
    match s.next {
        DeletionStep::Check { group, member } | DeletionStep::Remove { group, member } => {
            lemma_never_remove(groups, group, (member + 1) as nat, true);
        },
        _ => {},
    }
}

/// Each file is handled once: after a check that failed, or a removal, what
/// comes next has at least one more file behind it.
pub proof fn lemma_files_pass(
    groups: Seq<GroupView>,
    s: DeletionView,
    hash: Option<Seq<char>>,
    succeeded: bool,
)
    requires
        countable(groups),
        is_state(groups, s),
    ensures
        s.next is Check && !(after_check(groups, s, hash).next is Remove) ==> files_before(
            groups,
            after_check(groups, s, hash).next,
        ) > files_before(groups, s.next),
        s.next is Remove ==> files_before(groups, after_removal(groups, s, succeeded).next)
            > files_before(groups, s.next),
{
    match s.next {
        DeletionStep::Check { group, member } | DeletionStep::Remove { group, member } => {
            lemma_spare_step(groups[group as int].members, member as int);
            lemma_advance(groups, group, (member + 1) as nat, s.assume_yes);
        },
        _ => {},
    }
}

/// Every file that is not kept and came before the next step was deleted or
/// skipped.
pub open spec fn all_handled(groups: Seq<GroupView>, s: DeletionView) -> bool {
    s.stats.files_deleted + s.stats.files_skipped == files_before(groups, s.next)
}

/// A deletion passes over no file, unless a group is refused or the user quits:
/// when it is done, every file that is not kept was deleted or skipped.
pub proof fn lemma_nothing_is_passed_over(
    groups: Seq<GroupView>,
    s: DeletionView,
    yes: bool,
    answer: Seq<char>,
    hash: Option<Seq<char>>,
    succeeded: bool,
)
    requires
        countable(groups),
        is_state(groups, s),
    ensures
        files_before(groups, begin(groups, 0, yes)) == 0,
        all_handled(groups, s) && (reply_of(answer) is Yes || reply_of(answer) is All)
            ==> all_handled(groups, after_answer(groups, s, answer)),
        all_handled(groups, s) ==> all_handled(groups, after_check(groups, s, hash)),
        all_handled(groups, s) ==> all_handled(groups, after_removal(groups, s, succeeded)),
        all_handled(groups, s) && s.next is Done ==> s.stats.files_deleted
            + s.stats.files_skipped == report::spare_files(groups),
{
    assert(groups.take(0) =~= Seq::empty());
    lemma_begin(groups, 0, yes);
    lemma_before_bound(groups, s.next);
    match s.next {
        DeletionStep::Ask { group } => {
            let members = groups[group as int].members;
            assert(members.take(0) =~= Seq::empty());
            lemma_advance(groups, group, 0, s.assume_yes);
            lemma_advance(groups, group, 0, true);
        },
        DeletionStep::Check { group, member } | DeletionStep::Remove { group, member } => {
            lemma_spare_step(groups[group as int].members, member as int);
            lemma_advance(groups, group, (member + 1) as nat, s.assume_yes);
        },
        DeletionStep::Done => {},
    }
}

/// What the question says of a group's similarity.
pub open spec fn similarity_note(g: GroupView) -> Seq<char> {
    match g.similarity {
        Some(s) => " ("@ + report::percent_text(s) + ")"@,
        None => Seq::empty(),
    }
}

/// The question whether to delete the files of a group.
pub open spec fn question_line(g: GroupView) -> Seq<SpanView> {
    seq![
        paint::painted(Paint::YellowBold, "?"@),
        paint::painted(
            Paint::Plain,
            " Delete "@ + text::decimal(spare_count(g.members)) + " file(s) ("@
                + util::human_bytes_text(matching::spare_bytes(g.members) as u64) + " reclaimable"@
                + similarity_note(g) + ") from group #"@ + text::decimal(g.index) + "? "@,
        ),
        paint::painted(Paint::Dim, "[y/n/a/q]"@),
        paint::painted(Paint::Plain, " "@),
    ]
}

/// Writes the question whether to delete the files of a group.
pub fn question(g: &Group) -> (line: Vec<Span>)
    requires
        matching::spare_bytes(g@.members) <= u64::MAX,
        report::printable(g.similarity),
    ensures
        paint::line_view(line@) == question_line(g@),
{
    proof {
        matching::lemma_kept_bound(g@.members);
    }
    let count = g.members.len() - g.keep_count();
    let mut what = String::new();
    what.append(" Delete ");
    what.append(number(count as u64).as_str());
    what.append(" file(s) (");
    what.append(human_bytes(g.dup_bytes()).as_str());
    what.append(" reclaimable");
    let ghost before = what@;
    match g.similarity {
        Some(s) => {
            what.append(" (");
            what.append(percent(s).as_str());
            what.append(")");
        },
        None => {},
    }
    assert(what@ =~= before + similarity_note(g@));
    what.append(") from group #");
    what.append(number(g.index as u64).as_str());
    what.append("? ");
    assert(what@ =~= " Delete "@ + text::decimal(spare_count(g@.members)) + " file(s) ("@
        + util::human_bytes_text(matching::spare_bytes(g@.members) as u64) + " reclaimable"@
        + similarity_note(g@) + ") from group #"@ + text::decimal(g@.index) + "? "@);
    let mut line: Vec<Span> = Vec::new();
    put_str(&mut line, Paint::YellowBold, "?");
    put(&mut line, Paint::Plain, what);
    put_str(&mut line, Paint::Dim, "[y/n/a/q]");
    put_str(&mut line, Paint::Plain, " ");
    assert(paint::line_view(line@) =~= question_line(g@));
    line
}

/// What is said when a deletion is done.
pub open spec fn outcome_line(s: DeletionStats) -> Seq<SpanView> {
    seq![
        paint::painted(Paint::GreenBold, "✔"@),
        paint::painted(Paint::Plain, " Deleted "@),
        paint::painted(Paint::GreenBold, text::decimal(s.files_deleted as nat)),
        paint::painted(Paint::Plain, " file(s) ("@),
        paint::painted(Paint::GreenBold, util::human_bytes_text(s.bytes_freed)),
        paint::painted(
            Paint::Plain,
            " freed); "@ + text::decimal(s.files_skipped as nat) + " skipped."@,
        ),
    ]
}

/// Writes what was deleted.
pub fn outcome(s: &DeletionStats) -> (line: Vec<Span>)
    ensures
        paint::line_view(line@) == outcome_line(*s),
{
    let mut line: Vec<Span> = Vec::new();
    put_str(&mut line, Paint::GreenBold, "✔");
    put_str(&mut line, Paint::Plain, " Deleted ");
    put(&mut line, Paint::GreenBold, number(s.files_deleted));
    put_str(&mut line, Paint::Plain, " file(s) (");
    put(&mut line, Paint::GreenBold, human_bytes(s.bytes_freed));
    let mut rest = String::new();
    rest.append(" freed); ");
    rest.append(number(s.files_skipped).as_str());
    rest.append(" skipped.");
    assert(rest@ =~= " freed); "@ + text::decimal(s.files_skipped as nat) + " skipped."@);
    put(&mut line, Paint::Plain, rest);
    assert(paint::line_view(line@) =~= outcome_line(*s));
    line
}

/// An answer is told by its word, whatever the case of its letters and the white
/// space around it: y or yes agrees, a or all agrees to everything, q or quit
/// ends, and anything else refuses.
pub proof fn lemma_replies(a: Seq<char>, word: Seq<char>, b: Seq<char>)
    requires
        forall|i: int| 0 <= i < a.len() ==> text::is_space(#[trigger] a[i]),
        forall|i: int| 0 <= i < b.len() ==> text::is_space(#[trigger] b[i]),
        word.len() > 0 ==> !text::is_space(word[0]) && !text::is_space(word.last()),
    ensures
        reply_of(a + word + b) is Yes <==> text::lower(word) == "y"@ || text::lower(word)
            == "yes"@,
        reply_of(a + word + b) is All <==> text::lower(word) == "a"@ || text::lower(word)
            == "all"@,
        reply_of(a + word + b) is Quit <==> text::lower(word) == "q"@ || text::lower(word)
            == "quit"@,
{
    text::lemma_trimmed(a, word, b);
    reveal_strlit("y");
    reveal_strlit("yes");
    reveal_strlit("a");
    reveal_strlit("all");
    reveal_strlit("q");
    reveal_strlit("quit");
    assert("y"@[0] == 'y' && "yes"@[0] == 'y' && "a"@[0] == 'a' && "all"@[0] == 'a' && "q"@[0]
        == 'q' && "quit"@[0] == 'q');
}

/// The next file to handle is the first, from a position on, that is not kept;
/// there is none exactly where all files from there on are kept.
pub proof fn lemma_first_spare(members: Seq<MemberView>, from: nat, m: nat)
    ensures
        from <= m < members.len() && !members[m as int].keep && (forall|i: int|
            from <= i < m ==> (#[trigger] members[i]).keep) ==> next_spare(members, from) == Some(
            m,
        ),
        (forall|i: int| from <= i < members.len() ==> (#[trigger] members[i]).keep)
            ==> next_spare(members, from) is None,
{
    lemma_next_spare(members, from);
    match next_spare(members, from) {
        Some(k) => {
            if from <= m < members.len() && !members[m as int].keep && (forall|i: int|
                from <= i < m ==> (#[trigger] members[i]).keep) {
                if k < m {
                    assert(members[k as int].keep);
                }
                if m < k {
                    assert(members[m as int].keep);
                }
            }
        },
        None => {},
    }
}

/// What an answer leads to. Agreement leads to a check of the group's first file
/// that is not kept; agreement to everything besides ends all questions, and no
/// other answer does.
pub proof fn lemma_answer_leads(
    groups: Seq<GroupView>,
    s: DeletionView,
    answer: Seq<char>,
    g: usize,
    m: usize,
)
    requires
        s.next == (DeletionStep::Ask { group: g }),
        m < groups[g as int].members.len(),
        !groups[g as int].members[m as int].keep,
        forall|i: int| 0 <= i < m ==> (#[trigger] groups[g as int].members[i]).keep,
    ensures
        reply_of(answer) is Yes || reply_of(answer) is All ==> after_answer(groups, s, answer).next
            == (DeletionStep::Check { group: g, member: m }),
        reply_of(answer) is All ==> after_answer(groups, s, answer).assume_yes,
        !(reply_of(answer) is All) ==> after_answer(groups, s, answer).assume_yes == s.assume_yes,
        after_answer(groups, s, answer).stats == s.stats,
{
    lemma_first_spare(groups[g as int].members, 0, m as nat);
}

/// After a file was handled, the next file of its group that is not kept is
/// checked, if there is one.
pub proof fn lemma_next_in_group(
    groups: Seq<GroupView>,
    s: DeletionView,
    succeeded: bool,
    g: usize,
    m: usize,
    n: usize,
)
    requires
        s.next == (DeletionStep::Remove { group: g, member: m }),
        m < n < groups[g as int].members.len(),
        !groups[g as int].members[n as int].keep,
        forall|i: int| m < i < n ==> (#[trigger] groups[g as int].members[i]).keep,
    ensures
        after_removal(groups, s, succeeded).next == (DeletionStep::Check { group: g, member: n }),
{
    lemma_first_spare(groups[g as int].members, (m + 1) as nat, n as nat);
}

/// After the last file of a group the next group that has something to delete
/// comes up: with a question, or, once all are answered, with a check.
pub proof fn lemma_next_group(
    groups: Seq<GroupView>,
    from: nat,
    g: nat,
    m: nat,
    assume_yes: bool,
)
    requires
        from <= g < groups.len() <= usize::MAX,
        forall|f: int, i: int|
            from <= f < g && 0 <= i < groups[f].members.len() ==> (
            #[trigger] groups[f].members[i]).keep,
        m < groups[g as int].members.len() <= usize::MAX,
        !groups[g as int].members[m as int].keep,
        forall|i: int| 0 <= i < m ==> (#[trigger] groups[g as int].members[i]).keep,
    ensures
        begin(groups, from, assume_yes) == if assume_yes {
            DeletionStep::Check { group: g as usize, member: m as usize }
        } else {
            DeletionStep::Ask { group: g as usize }
        },
    decreases g - from,
{
    if from == g {
        lemma_first_spare(groups[g as int].members, 0, m);
    } else {
        let members = groups[from as int].members;
        assert forall|i: int| 0 <= i < members.len() implies (#[trigger] members[i]).keep by {
            assert(groups[from as int].members[i].keep);
        }
        lemma_first_spare(members, 0, 0);
        lemma_next_group(groups, from + 1, g, m, assume_yes);
    }
}

/// A file that is checked goes on to be removed exactly where its hash is still
/// the one that it is known by: its own, where it has one, and else that of its
/// group. Otherwise it is skipped, and nothing is deleted.
pub proof fn lemma_check_counts(
    groups: Seq<GroupView>,
    s: DeletionView,
    hash: Option<Seq<char>>,
    g: usize,
    m: usize,
)
    requires
        s.next == (DeletionStep::Check { group: g, member: m }),
        s.stats.files_skipped < u64::MAX,
    ensures
        ({
            let known = groups[g as int].members[m as int].content_hash;
            let after = after_check(groups, s, hash);
            &&& known is Some && hash == known ==> after.next == (DeletionStep::Remove {
                group: g,
                member: m,
            }) && after.stats == s.stats
            &&& known is None && hash == Some(groups[g as int].hash) ==> after.next == (
            DeletionStep::Remove { group: g, member: m }) && after.stats == s.stats
            &&& hash is None || (known is Some && hash != known) || (known is None && hash != Some(
                groups[g as int].hash,
            )) ==> {
                &&& after.stats.files_skipped == s.stats.files_skipped + 1
                &&& after.stats.files_deleted == s.stats.files_deleted
                &&& after.stats.bytes_freed == s.stats.bytes_freed
            }
        }),
{
}

/// A removal that succeeds counts one file and its bytes; one that fails counts
/// one file as skipped.
pub proof fn lemma_removal_counts(
    groups: Seq<GroupView>,
    s: DeletionView,
    succeeded: bool,
    g: usize,
    m: usize,
)
    requires
        s.next == (DeletionStep::Remove { group: g, member: m }),
        s.stats.files_skipped < u64::MAX,
        s.stats.files_deleted < u64::MAX,
        s.stats.bytes_freed + groups[g as int].members[m as int].size <= u64::MAX,
    ensures
        ({
            let after = after_removal(groups, s, succeeded).stats;
            &&& succeeded ==> {
                &&& after.files_deleted == s.stats.files_deleted + 1
                &&& after.bytes_freed == s.stats.bytes_freed
                    + groups[g as int].members[m as int].size
                &&& after.files_skipped == s.stats.files_skipped
            }
            &&& !succeeded ==> {
                &&& after.files_deleted == s.stats.files_deleted
                &&& after.bytes_freed == s.stats.bytes_freed
                &&& after.files_skipped == s.stats.files_skipped + 1
            }
        }),
{
}

/// Pieces of a text occur in it.
proof fn lemma_piece(before: Seq<char>, part: Seq<char>, after: Seq<char>)
    ensures
        text::contains_text(before + part + after, part),
{
    text::lemma_contains(before + part + after, part);
}

proof fn lemma_question_words(
    head: Seq<char>,
    count: Seq<char>,
    files: Seq<char>,
    bytes: Seq<char>,
    rec: Seq<char>,
    open: Seq<char>,
    pct: Seq<char>,
    close: Seq<char>,
    from: Seq<char>,
    mark: Seq<char>,
    index: Seq<char>,
    asked: Seq<char>,
    end: Seq<char>,
)
    ensures
        ({
            let told = head + count + files + bytes + rec + (open + pct + close) + (from + mark)
                + index + (asked + end);
            &&& text::contains_text(told, count)
            &&& text::contains_text(told, bytes)
            &&& text::contains_text(told, pct)
            &&& text::contains_text(told, mark + index + asked)
        }),
{
    let note = open + pct + close;
    let x = head + count + files;
    let y = x + bytes + rec;
    let z = y + note;
    let told = z + (from + mark) + index + (asked + end);
    let t1 = (from + mark) + index + (asked + end);
    let t2 = note + t1;
    let t3 = bytes + rec + t2;
    assert(z + t1 =~= told);
    assert(y + t2 =~= z + t1);
    assert(x + t3 =~= y + t2);
    lemma_piece(head, count, files + t3);
    assert(head + count + (files + t3) =~= x + t3);
    lemma_piece(x, bytes, rec + t2);
    assert(x + bytes + (rec + t2) =~= x + t3);
    lemma_piece(y + open, pct, close + t1);
    assert(y + open + pct + (close + t1) =~= y + t2);
    lemma_piece(z + from, mark + index + asked, end);
    assert(z + from + (mark + index + asked) + end =~= told);
}

/// The question tells how many files and how many bytes would go, from which
/// group, and how similar its files are at least, where that is known.
pub proof fn lemma_question(g: GroupView)
    ensures
        ({
            let told = question_line(g)[1].text;
            let count = text::decimal((g.members.len() - matching::kept(g.members)) as nat);
            let bytes = util::human_bytes_text(matching::spare_bytes(g.members) as u64);
            &&& text::contains_text(told, count)
            &&& text::contains_text(told, bytes)
            &&& text::contains_text(told, "#"@ + text::decimal(g.index) + "?"@)
            &&& g.similarity is Some ==> text::contains_text(
                told,
                report::percent_text(g.similarity->0),
            )
        }),
{
    reveal_strlit(") from group #");
    reveal_strlit("#");
    reveal_strlit("? ");
    reveal_strlit("?");
    let from = ") from group #"@;
    assert(from =~= from.drop_last() + "#"@);
    assert("? "@ =~= "?"@ + seq![' ']);
    let pct = match g.similarity {
        Some(s) => report::percent_text(s),
        None => Seq::empty(),
    };
    let open = match g.similarity {
        Some(s) => " ("@,
        None => Seq::empty(),
    };
    let close = match g.similarity {
        Some(s) => ")"@,
        None => Seq::empty(),
    };
    assert(similarity_note(g) =~= open + pct + close);
    lemma_question_words(
        " Delete "@,
        text::decimal(spare_count(g.members)),
        " file(s) ("@,
        util::human_bytes_text(matching::spare_bytes(g.members) as u64),
        " reclaimable"@,
        open,
        pct,
        close,
        from.drop_last(),
        "#"@,
        text::decimal(g.index),
        "?"@,
        seq![' '],
    );
}

/// What is said at the end are the counts: how many files were deleted, how many
/// bytes that freed, and how many files were skipped.
pub proof fn lemma_outcome_told(s: DeletionStats)
    ensures
        outcome_line(s).len() == 6,
        outcome_line(s)[2].text == text::decimal(s.files_deleted as nat),
        outcome_line(s)[4].text == util::human_bytes_text(s.bytes_freed),
        text::contains_text(
            outcome_line(s)[5].text,
            text::decimal(s.files_skipped as nat) + " skipped"@,
        ),
{
    let count = text::decimal(s.files_skipped as nat);
    let end = " skipped."@;
    reveal_strlit(" skipped.");
    reveal_strlit(" skipped");
    assert(end =~= " skipped"@ + seq!['.']);
    let told = " freed); "@ + count + end;
    lemma_piece(" freed); "@, count + " skipped"@, seq!['.']);
    assert(told =~= " freed); "@ + (count + " skipped"@) + seq!['.']);
}

} // verus!
