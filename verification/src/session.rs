//! The resolution session: one duplicate group at a time is shown, a command
//! is taken, files are deleted, and the counts are kept. The session decides;
//! whoever drives it touches the disk and the console and reports back.

use crate::command::{
    affirmative, command_of, command_word, is_affirmative, parse_command, Command,
};
use crate::text::{decimal, push_decimal, texts, word_at};
use vstd::string::StringExecFns;
use vstd::prelude::*;

verus! {

/// What a session has done so far.
#[derive(Clone, Copy, Debug, PartialEq, Eq, Structural)]
pub struct SessionStats {
    /// Groups that were shown and then resolved.
    pub groups_processed: usize,
    /// Files that were deleted.
    pub total_deleted: usize,
    /// Bytes that the deleted files held.
    pub bytes_reclaimed: u64,
}

/// The account of a group that has been resolved: how many members it had
/// when it was first shown, how many of them were deleted, how many are left.
#[derive(Clone, Copy, Debug, PartialEq, Eq, Structural)]
pub struct Resolution {
    pub presented: usize,
    pub deleted: usize,
    pub remaining: usize,
}

/// Where a session stands, which is also what it waits for.
#[derive(Clone, Copy, Debug, PartialEq, Eq, Structural)]
pub enum Phase {
    /// There was no group to begin with.
    NothingFound,
    /// Waits to hear which members of the next group still exist.
    Checking,
    /// The group is shown; waits for a command.
    Presenting,
    /// Waits for the answer to "delete all but this member?".
    Confirming(usize),
    /// Waits for the members' timestamps, to keep the newest (`true`) or the
    /// oldest (`false`).
    Timing(bool),
    /// Waits to hear which deletions succeeded; the member kept is given.
    Deleting(usize),
    /// Waits for the viewer to close on the given member.
    Previewing(usize),
    /// The session is over.
    Finished,
}

/// A duplicate group as the session sees it: the length that its files share
/// and their paths.
pub struct GroupView {
    pub size: u64,
    pub members: Seq<Seq<char>>,
}

/// What comes back from the outside.
pub enum EventView {
    Exists(Seq<bool>),
    Line(Option<Seq<char>>),
    Times(Seq<i128>),
    Deleted(Seq<bool>),
    Previewed(bool),
}

/// What the session asks of the outside.
pub enum ActionView {
    NothingFound,
    CheckExists(Seq<Seq<char>>),
    Prompt { number: usize, size: u64, members: Seq<Seq<char>> },
    Confirm { others: usize, keep: Seq<char> },
    ReadTimes(Seq<Seq<char>>),
    Delete(Seq<Seq<char>>),
    Preview(Seq<char>),
    Summary(SessionStats),
}

/// What the user is told after a step.
pub enum NoticeView {
    Quiet,
    KeepUsage,
    PreviewUsage,
    Unknown(Seq<char>),
    ReadFailed,
    QuitEarly,
}

/// The state of a session.
pub struct SessionView {
    pub groups: Seq<GroupView>,
    pub cursor: usize,
    pub members: Seq<Seq<char>>,
    pub phase: Phase,
    pub stats: SessionStats,
    pub presented: usize,
    pub removed: usize,
    pub last: Option<Resolution>,
}

/// The members whose flag is set, in their order.
pub open spec fn kept(members: Seq<Seq<char>>, flags: Seq<bool>) -> Seq<Seq<char>>
    decreases members.len(),
{
    if members.len() == 0 || flags.len() != members.len() {
        Seq::empty()
    } else {
        let rest = kept(members.drop_last(), flags.drop_last());
        if flags.last() {
            rest.push(members.last())
        } else {
            rest
        }
    }
}

/// How many flags are set.
pub open spec fn count_true(flags: Seq<bool>) -> nat
    decreases flags.len(),
{
    if flags.len() == 0 {
        0
    } else {
        count_true(flags.drop_last()) + if flags.last() {
            1nat
        } else {
            0nat
        }
    }
}

/// The member at `k` is the newest: none is newer, and of those as new it
/// comes first.
pub open spec fn is_newest(times: Seq<i128>, k: int) -> bool {
    &&& 0 <= k < times.len()
    &&& forall|j: int| 0 <= j < times.len() ==> times[j] <= times[k]
    &&& forall|j: int| 0 <= j < k ==> times[j] < times[k]
}

/// The member at `k` is the oldest: none is older, and of those as old it
/// comes first.
pub open spec fn is_oldest(times: Seq<i128>, k: int) -> bool {
    &&& 0 <= k < times.len()
    &&& forall|j: int| 0 <= j < times.len() ==> times[j] >= times[k]
    &&& forall|j: int| 0 <= j < k ==> times[j] > times[k]
}

/// The position of the newest member.
pub open spec fn newest_of(times: Seq<i128>) -> int {
    choose|k: int| is_newest(times, k)
}

/// The position of the oldest member.
pub open spec fn oldest_of(times: Seq<i128>) -> int {
    choose|k: int| is_oldest(times, k)
}

/// A number typed at the prompt names a member of a group of `len`.
pub open spec fn names_member(n: Option<usize>, len: nat) -> bool {
    n is Some && 1 <= n->0 <= len
}

impl SessionView {
    /// The session before anything has happened.
    pub open spec fn initial(groups: Seq<GroupView>) -> SessionView {
        SessionView {
            groups,
            cursor: 0,
            members: Seq::empty(),
            phase: if groups.len() == 0 {
                Phase::NothingFound
            } else {
                Phase::Checking
            },
            stats: SessionStats { groups_processed: 0, total_deleted: 0, bytes_reclaimed: 0 },
            presented: 0,
            removed: 0,
            last: None,
        }
    }

    /// A group is on the table.
    pub open spec fn active(self) -> bool {
        self.phase is Presenting || self.phase is Confirming || self.phase is Timing
            || self.phase is Deleting || self.phase is Previewing
    }

    /// The length that the files of the current group share.
    pub open spec fn size(self) -> u64 {
        self.groups[self.cursor as int].size
    }

    /// What holds of every state that a session reaches.
    pub open spec fn wf(self) -> bool {
        &&& self.groups.len() <= usize::MAX
        &&& forall|g: int|
            0 <= g < self.groups.len() ==> (#[trigger] self.groups[g]).members.len() <= usize::MAX
        &&& self.cursor <= self.groups.len()
        &&& self.stats.groups_processed <= self.cursor
        &&& (self.phase is Checking || self.active()) ==> self.cursor < self.groups.len()
        &&& self.phase is NothingFound ==> self.groups.len() == 0 && self.stats == SessionStats {
            groups_processed: 0,
            total_deleted: 0,
            bytes_reclaimed: 0,
        }
        &&& self.active() ==> {
            &&& self.members.len() >= 2
            &&& self.removed + self.members.len() == self.presented
        }
        &&& self.phase matches Phase::Confirming(k) ==> k < self.members.len()
        &&& self.phase matches Phase::Deleting(k) ==> k < self.members.len()
        &&& self.phase matches Phase::Previewing(k) ==> k < self.members.len()
        &&& self.last matches Some(r) ==> r.deleted + r.remaining == r.presented
    }

    /// What the session waits for.
    pub open spec fn pending(self) -> ActionView {
        match self.phase {
            Phase::NothingFound => ActionView::NothingFound,
            Phase::Checking => ActionView::CheckExists(self.groups[self.cursor as int].members),
            Phase::Presenting => ActionView::Prompt {
                number: (self.cursor + 1) as usize,
                size: self.size(),
                members: self.members,
            },
            Phase::Confirming(k) => ActionView::Confirm {
                others: (self.members.len() - 1) as usize,
                keep: self.members[k as int],
            },
            Phase::Timing(_) => ActionView::ReadTimes(self.members),
            Phase::Deleting(k) => ActionView::Delete(self.members.remove(k as int)),
            Phase::Previewing(k) => ActionView::Preview(self.members[k as int]),
            Phase::Finished => ActionView::Summary(self.stats),
        }
    }

    /// The event answers what the session waits for.
    pub open spec fn accepts(self, event: EventView) -> bool {
        match (self.phase, event) {
            (Phase::Checking, EventView::Exists(flags)) => flags.len()
                == self.groups[self.cursor as int].members.len(),
            (Phase::Presenting, EventView::Line(_)) => true,
            (Phase::Confirming(_), EventView::Line(_)) => true,
            (Phase::Timing(_), EventView::Times(times)) => times.len() == self.members.len(),
            (Phase::Deleting(_), EventView::Deleted(done)) => done.len() + 1 == self.members.len(),
            (Phase::Previewing(_), EventView::Previewed(_)) => true,
            _ => false,
        }
    }

    /// The counters can take what the event adds to them.
    pub open spec fn room_for(self, event: EventView) -> bool {
        match (self.phase, event) {
            (Phase::Deleting(_), EventView::Deleted(done)) => {
                &&& self.stats.total_deleted + count_true(done) <= usize::MAX
                &&& self.stats.bytes_reclaimed + count_true(done) * self.size() <= u64::MAX
            },
            (Phase::Previewing(_), EventView::Previewed(true)) => {
                &&& self.stats.total_deleted + 1 <= usize::MAX
                &&& self.stats.bytes_reclaimed + self.size() <= u64::MAX
            },
            _ => true,
        }
    }

    /// The counts after `n` files of the current group were deleted.
    pub open spec fn credited(self, n: nat) -> SessionStats {
        SessionStats {
            groups_processed: self.stats.groups_processed,
            total_deleted: (self.stats.total_deleted + n) as usize,
            bytes_reclaimed: (self.stats.bytes_reclaimed + n * self.size()) as u64,
        }
    }

    /// The session turns to the group after the current one, or ends.
    pub open spec fn next_group(self) -> SessionView {
        SessionView {
            cursor: (self.cursor + 1) as usize,
            members: Seq::empty(),
            phase: if self.cursor + 1 < self.groups.len() {
                Phase::Checking
            } else {
                Phase::Finished
            },
            presented: 0,
            removed: 0,
            ..self
        }
    }

    /// The current group is resolved with `n` more of its members deleted:
    /// the deletions are credited and the group is counted as processed.
    pub open spec fn resolve(self, n: nat) -> SessionView {
        SessionView {
            stats: SessionStats {
                groups_processed: (self.stats.groups_processed + 1) as usize,
                ..self.credited(n)
            },
            last: Some(
                Resolution {
                    presented: self.presented,
                    deleted: (self.removed + n) as usize,
                    remaining: (self.members.len() - n) as usize,
                },
            ),
            ..self
        }.next_group()
    }

    /// The state after a command was typed at the prompt.
    pub open spec fn after_command(self, command: Command) -> SessionView {
        match command {
            Command::Keep(n) => if names_member(n, self.members.len()) {
                SessionView { phase: Phase::Confirming((n->0 - 1) as usize), ..self }
            } else {
                self
            },
            Command::KeepNewest => SessionView { phase: Phase::Timing(true), ..self },
            Command::KeepOldest => SessionView { phase: Phase::Timing(false), ..self },
            Command::Preview(n) => if names_member(n, self.members.len()) {
                SessionView { phase: Phase::Previewing((n->0 - 1) as usize), ..self }
            } else {
                self
            },
            Command::Skip => self.resolve(0),
            Command::Quit => SessionView { phase: Phase::Finished, ..self },
            Command::Blank => self,
            Command::Unknown => self,
        }
    }

    /// The state after the viewer closed on member `k` and reports it deleted.
    pub open spec fn after_preview_deletion(self, k: int) -> SessionView {
        let shrunk = SessionView {
            members: self.members.remove(k),
            removed: (self.removed + 1) as usize,
            stats: self.credited(1),
            phase: Phase::Presenting,
            ..self
        };
        if shrunk.members.len() < 2 {
            shrunk.resolve(0)
        } else {
            shrunk
        }
    }

    /// The state after an event. One that does not answer what the session
    /// waits for changes nothing.
    pub open spec fn next_state(self, event: EventView) -> SessionView {
        if !self.accepts(event) {
            self
        } else {
            match (self.phase, event) {
                (Phase::Checking, EventView::Exists(flags)) => {
                    let live = kept(self.groups[self.cursor as int].members, flags);
                    if live.len() < 2 {
                        self.next_group()
                    } else {
                        SessionView {
                            members: live,
                            presented: live.len() as usize,
                            removed: 0,
                            phase: Phase::Presenting,
                            ..self
                        }
                    }
                },
                (Phase::Presenting, EventView::Line(None)) => self.resolve(0),
                (Phase::Presenting, EventView::Line(Some(text))) => self.after_command(
                    command_of(text),
                ),
                (Phase::Confirming(k), EventView::Line(answer)) => if answer is Some
                    && affirmative(answer->0) {
                    SessionView { phase: Phase::Deleting(k), ..self }
                } else {
                    SessionView { phase: Phase::Presenting, ..self }
                },
                (Phase::Timing(newest), EventView::Times(times)) => SessionView {
                    phase: Phase::Deleting(
                        if newest {
                            newest_of(times) as usize
                        } else {
                            oldest_of(times) as usize
                        },
                    ),
                    ..self
                },
                (Phase::Deleting(_), EventView::Deleted(done)) => self.resolve(count_true(done)),
                (Phase::Previewing(k), EventView::Previewed(deleted)) => if deleted {
                    self.after_preview_deletion(k as int)
                } else {
                    SessionView { phase: Phase::Presenting, ..self }
                },
                _ => self,
            }
        }
    }

    /// What the user is told after an event.
    pub open spec fn notice_of(self, event: EventView) -> NoticeView {
        match (self.phase, event) {
            (Phase::Presenting, EventView::Line(None)) => NoticeView::ReadFailed,
            (Phase::Presenting, EventView::Line(Some(text))) => match command_of(text) {
                Command::Keep(n) => if names_member(n, self.members.len()) {
                    NoticeView::Quiet
                } else {
                    NoticeView::KeepUsage
                },
                Command::Preview(n) => if names_member(n, self.members.len()) {
                    NoticeView::Quiet
                } else {
                    NoticeView::PreviewUsage
                },
                Command::Quit => NoticeView::QuitEarly,
                Command::Unknown => NoticeView::Unknown(word_at(text, 0)),
                _ => NoticeView::Quiet,
            },
            _ => NoticeView::Quiet,
        }
    }
}

/// No more flags are set than there are flags.
pub proof fn lemma_count_true_bound(flags: Seq<bool>)
    ensures
        count_true(flags) <= flags.len(),
    decreases flags.len(),
{
    if flags.len() > 0 {
        lemma_count_true_bound(flags.drop_last());
    }
}

/// As many members are kept as flags are set.
pub proof fn lemma_kept_len(members: Seq<Seq<char>>, flags: Seq<bool>)
    requires
        flags.len() == members.len(),
    ensures
        kept(members, flags).len() == count_true(flags),
        kept(members, flags).len() <= members.len(),
    decreases members.len(),
{
    if members.len() > 0 {
        lemma_kept_len(members.drop_last(), flags.drop_last());
    }
}

/// Among one or more timestamps one is the newest.
pub proof fn lemma_newest_exists(times: Seq<i128>)
    requires
        times.len() > 0,
    ensures
        is_newest(times, newest_of(times)),
    decreases times.len(),
{
    if times.len() == 1 {
        assert(is_newest(times, 0));
    } else {
        let front = times.drop_last();
        lemma_newest_exists(front);
        let b = newest_of(front);
        let k = if times.last() > front[b] {
            times.len() - 1
        } else {
            b
        };
        assert forall|j: int| 0 <= j < times.len() implies times[j] <= times[k] by {
            if j < front.len() {
                assert(front[j] <= front[b]);
            }
        }
        assert forall|j: int| 0 <= j < k implies times[j] < times[k] by {
            assert(front[j] <= front[b]);
            if k == b {
                assert(front[j] < front[b]);
            }
        }
        assert(is_newest(times, k));
    }
}

/// Among one or more timestamps one is the oldest.
pub proof fn lemma_oldest_exists(times: Seq<i128>)
    requires
        times.len() > 0,
    ensures
        is_oldest(times, oldest_of(times)),
    decreases times.len(),
{
    if times.len() == 1 {
        assert(is_oldest(times, 0));
    } else {
        let front = times.drop_last();
        lemma_oldest_exists(front);
        let b = oldest_of(front);
        let k = if times.last() < front[b] {
            times.len() - 1
        } else {
            b
        };
        assert forall|j: int| 0 <= j < times.len() implies times[j] >= times[k] by {
            if j < front.len() {
                assert(front[j] >= front[b]);
            }
        }
        assert forall|j: int| 0 <= j < k implies times[j] > times[k] by {
            assert(front[j] >= front[b]);
            if k == b {
                assert(front[j] > front[b]);
            }
        }
        assert(is_oldest(times, k));
    }
}

/// Only one member is the newest, and only one the oldest.
pub proof fn lemma_newest_oldest_unique(times: Seq<i128>, a: int, b: int)
    ensures
        is_newest(times, a) && is_newest(times, b) ==> a == b,
        is_oldest(times, a) && is_oldest(times, b) ==> a == b,
{
    if is_newest(times, a) && is_newest(times, b) {
        if a < b {
            assert(times[a] < times[b]);
            assert(times[b] <= times[a]);
        } else if b < a {
            assert(times[b] < times[a]);
            assert(times[a] <= times[b]);
        }
    }
    if is_oldest(times, a) && is_oldest(times, b) {
        if a < b {
            assert(times[a] > times[b]);
            assert(times[b] >= times[a]);
        } else if b < a {
            assert(times[b] > times[a]);
            assert(times[a] >= times[b]);
        }
    }
}

/// Every step leads from a reachable state to a reachable state.
pub proof fn lemma_step_keeps_wf(s: SessionView, event: EventView)
    requires
        s.wf(),
        s.room_for(event),
    ensures
        s.next_state(event).wf(),
{
    if s.accepts(event) {
        match (s.phase, event) {
            (Phase::Checking, EventView::Exists(flags)) => {
                lemma_kept_len(s.groups[s.cursor as int].members, flags);
            },
            (Phase::Timing(_), EventView::Times(times)) => {
                lemma_newest_exists(times);
                lemma_oldest_exists(times);
            },
            (Phase::Deleting(_), EventView::Deleted(done)) => {
                lemma_count_true_bound(done);
            },
            (Phase::Previewing(k), EventView::Previewed(_)) => {
                s.members.remove_ensures(k as int);
            },
            _ => {},
        }
    }
}

/// Conservation: of the members that a group had when it was first shown,
/// each is either deleted or still there. This holds while the group is on
/// the table and of the account that is drawn up when it is resolved.
pub proof fn lemma_conservation(s: SessionView, event: EventView)
    requires
        s.wf(),
        s.room_for(event),
    ensures
        ({
            let t = s.next_state(event);
            &&& t.active() ==> t.removed + t.members.len() == t.presented
            &&& t.last matches Some(r) ==> r.deleted + r.remaining == r.presented
        }),
{
    lemma_step_keeps_wf(s, event);
}

/// The counts never fall, and a group is counted as processed exactly when
/// it is resolved: when the session leaves a group that was on the table for
/// the next one. A group that is passed over unseen is not counted, nor is
/// the group on the table when the session is quit.
pub proof fn lemma_stats_never_fall(s: SessionView, event: EventView)
    requires
        s.wf(),
        s.room_for(event),
    ensures
        ({
            let t = s.next_state(event);
            &&& t.stats.total_deleted >= s.stats.total_deleted
            &&& t.stats.bytes_reclaimed >= s.stats.bytes_reclaimed
            &&& t.stats.groups_processed == if s.active() && t.cursor != s.cursor {
                s.stats.groups_processed + 1
            } else {
                s.stats.groups_processed as int
            }
        }),
{
    lemma_step_keeps_wf(s, event);
    if s.accepts(event) {
        match (s.phase, event) {
            (Phase::Checking, EventView::Exists(flags)) => {
                lemma_kept_len(s.groups[s.cursor as int].members, flags);
            },
            (Phase::Deleting(_), EventView::Deleted(done)) => {
                lemma_count_true_bound(done);
            },
            (Phase::Previewing(k), EventView::Previewed(deleted)) => {
                s.members.remove_ensures(k as int);
            },
            _ => {},
        }
    }
}

/// Quitting ends the session at once: the counts stay as they are, so that
/// neither the group on the table nor any group after it is counted as
/// processed, and nothing that happens later changes the state.
pub proof fn lemma_quit_is_final(s: SessionView, line: Seq<char>, later: EventView)
    requires
        s.wf(),
        s.phase is Presenting,
        command_of(line) == Command::Quit,
    ensures
        ({
            let t = s.next_state(EventView::Line(Some(line)));
            &&& t.phase is Finished
            &&& t.stats == s.stats
            &&& t.stats.groups_processed <= s.cursor
            &&& t.pending() == ActionView::Summary(s.stats)
            &&& t.next_state(later) == t
        }),
{
}

/// A duplicate group handed to a session: the length that its files share
/// and their paths.
#[derive(Debug)]
pub struct Group {
    pub size: u64,
    pub members: Vec<String>,
}

impl View for Group {
    type V = GroupView;

    open spec fn view(&self) -> GroupView {
        GroupView { size: self.size, members: texts(self.members@) }
    }
}

/// The views of a list of groups.
pub open spec fn group_views(v: Seq<Group>) -> Seq<GroupView> {
    Seq::new(v.len(), |i: int| v[i]@)
}

/// What comes back from the outside.
#[derive(Debug)]
pub enum Event {
    /// For each member of the group, whether its file still exists.
    Exists(Vec<bool>),
    /// A line from the console, or none when reading failed.
    Line(Option<String>),
    /// For each member of the group, when its file was last modified.
    Times(Vec<i128>),
    /// For each deletion asked for, whether it succeeded.
    Deleted(Vec<bool>),
    /// Whether the viewer reports that the file was deleted from within it.
    Previewed(bool),
}

impl View for Event {
    type V = EventView;

    open spec fn view(&self) -> EventView {
        match self {
            Event::Exists(flags) => EventView::Exists(flags@),
            Event::Line(line) => EventView::Line(
                match line {
                    Some(text) => Some(text@),
                    None => None,
                },
            ),
            Event::Times(times) => EventView::Times(times@),
            Event::Deleted(done) => EventView::Deleted(done@),
            Event::Previewed(deleted) => EventView::Previewed(*deleted),
        }
    }
}

/// What the session asks of the outside.
#[derive(Debug)]
pub enum Action {
    /// Report that there are no duplicates; the session is over.
    NothingFound,
    /// Find out which of these files still exist.
    CheckExists(Vec<String>),
    /// Show group `number` with its members, and read a command.
    Prompt { number: usize, size: u64, members: Vec<String> },
    /// Ask whether to delete `others` files and keep `keep`.
    Confirm { others: usize, keep: String },
    /// Read the timestamps of these files.
    ReadTimes(Vec<String>),
    /// Delete these files.
    Delete(Vec<String>),
    /// Open the viewer on this file.
    Preview(String),
    /// Print the summary; the session is over.
    Summary(SessionStats),
}

impl View for Action {
    type V = ActionView;

    open spec fn view(&self) -> ActionView {
        match self {
            Action::NothingFound => ActionView::NothingFound,
            Action::CheckExists(paths) => ActionView::CheckExists(texts(paths@)),
            Action::Prompt { number, size, members } => ActionView::Prompt {
                number: *number,
                size: *size,
                members: texts(members@),
            },
            Action::Confirm { others, keep } => ActionView::Confirm { others: *others, keep: keep@ },
            Action::ReadTimes(paths) => ActionView::ReadTimes(texts(paths@)),
            Action::Delete(paths) => ActionView::Delete(texts(paths@)),
            Action::Preview(path) => ActionView::Preview(path@),
            Action::Summary(stats) => ActionView::Summary(*stats),
        }
    }
}

/// What the user is told after a step.
#[derive(Debug)]
pub enum Notice {
    Quiet,
    /// `k` was typed without the number of a member.
    KeepUsage,
    /// `p` was typed without the number of a member.
    PreviewUsage,
    /// The word typed is no command.
    Unknown(String),
    /// No line could be read; the group is left as it is.
    ReadFailed,
    /// The session ends before all groups were seen.
    QuitEarly,
}

impl View for Notice {
    type V = NoticeView;

    open spec fn view(&self) -> NoticeView {
        match self {
            Notice::Quiet => NoticeView::Quiet,
            Notice::KeepUsage => NoticeView::KeepUsage,
            Notice::PreviewUsage => NoticeView::PreviewUsage,
            Notice::Unknown(word) => NoticeView::Unknown(word@),
            Notice::ReadFailed => NoticeView::ReadFailed,
            Notice::QuitEarly => NoticeView::QuitEarly,
        }
    }
}

/// The position of the newest member: the first of those with the latest
/// timestamp. None for an empty list.
pub fn newest_index(times: &Vec<i128>) -> (r: Option<usize>)
    ensures
        match r {
            Some(k) => is_newest(times@, k as int) && k == newest_of(times@),
            None => times@.len() == 0,
        },
{
    if times.len() == 0 {
        return None;
    }
    let mut best: usize = 0;
    let mut i: usize = 1;
    while i < times.len()
        invariant
            0 <= best < i <= times.len(),
            forall|j: int| 0 <= j < i ==> times@[j] <= times@[best as int],
            forall|j: int| 0 <= j < best ==> times@[j] < times@[best as int],
        decreases times.len() - i,
    {
        if times[i] > times[best] {
            best = i;
        }
        i += 1;
    }
    proof {
        lemma_newest_exists(times@);
        lemma_newest_oldest_unique(times@, best as int, newest_of(times@));
    }
    Some(best)
}

/// The position of the oldest member: the first of those with the earliest
/// timestamp. None for an empty list.
pub fn oldest_index(times: &Vec<i128>) -> (r: Option<usize>)
    ensures
        match r {
            Some(k) => is_oldest(times@, k as int) && k == oldest_of(times@),
            None => times@.len() == 0,
        },
{
    if times.len() == 0 {
        return None;
    }
    let mut best: usize = 0;
    let mut i: usize = 1;
    while i < times.len()
        invariant
            0 <= best < i <= times.len(),
            forall|j: int| 0 <= j < i ==> times@[j] >= times@[best as int],
            forall|j: int| 0 <= j < best ==> times@[j] > times@[best as int],
        decreases times.len() - i,
    {
        if times[i] < times[best] {
            best = i;
        }
        i += 1;
    }
    proof {
        lemma_oldest_exists(times@);
        lemma_newest_oldest_unique(times@, best as int, oldest_of(times@));
    }
    Some(best)
}

/// How many deletions succeeded.
pub fn count_set(flags: &Vec<bool>) -> (n: usize)
    ensures
        n == count_true(flags@),
{
    let mut n: usize = 0;
    let mut i: usize = 0;
    while i < flags.len()
        invariant
            i <= flags.len(),
            n == count_true(flags@.take(i as int)),
            n <= i,
        decreases flags.len() - i,
    {
        proof {
            assert(flags@.take(i + 1).drop_last() == flags@.take(i as int));
        }
        if flags[i] {
            n += 1;
        }
        i += 1;
    }
    assert(flags@.take(i as int) == flags@);
    n
}

/// Copies of the given paths.
fn copy_paths(paths: &Vec<String>) -> (r: Vec<String>)
    ensures
        texts(r@) == texts(paths@),
{
    let mut r: Vec<String> = Vec::new();
    let mut i: usize = 0;
    while i < paths.len()
        invariant
            i <= paths.len(),
            r@.len() == i,
            forall|j: int| 0 <= j < i ==> r@[j]@ == paths@[j]@,
        decreases paths.len() - i,
    {
        r.push(paths[i].clone());
        i += 1;
    }
    assert(texts(r@) =~= texts(paths@));
    r
}

/// Copies of the given paths but the one at `k`.
fn copy_paths_without(paths: &Vec<String>, k: usize) -> (r: Vec<String>)
    requires
        k < paths.len(),
    ensures
        texts(r@) == texts(paths@).remove(k as int),
{
    let mut r: Vec<String> = Vec::new();
    let mut i: usize = 0;
    while i < paths.len()
        invariant
            i <= paths.len(),
            k < paths.len(),
            r@.len() == if i <= k {
                i as int
            } else {
                i - 1
            },
            forall|j: int| 0 <= j < r@.len() ==> r@[j]@ == if j < k {
                paths@[j]@
            } else {
                paths@[j + 1]@
            },
        decreases paths.len() - i,
    {
        if i != k {
            r.push(paths[i].clone());
        }
        i += 1;
    }
    assert(texts(r@) =~= texts(paths@).remove(k as int));
    r
}

/// Copies of the paths whose flag is set.
fn copy_flagged(paths: &Vec<String>, flags: &Vec<bool>) -> (r: Vec<String>)
    requires
        flags.len() == paths.len(),
    ensures
        texts(r@) == kept(texts(paths@), flags@),
{
    let mut r: Vec<String> = Vec::new();
    let mut i: usize = 0;
    while i < paths.len()
        invariant
            i <= paths.len(),
            flags.len() == paths.len(),
            texts(r@) == kept(texts(paths@).take(i as int), flags@.take(i as int)),
        decreases paths.len() - i,
    {
        let ghost before = texts(r@);
        proof {
            assert(texts(paths@).take(i + 1).drop_last() == texts(paths@).take(i as int));
            assert(flags@.take(i + 1).drop_last() == flags@.take(i as int));
        }
        if flags[i] {
            r.push(paths[i].clone());
            assert(texts(r@) =~= before.push(paths@[i as int]@));
        }
        i += 1;
    }
    assert(texts(paths@).take(i as int) == texts(paths@));
    assert(flags@.take(i as int) == flags@);
    r
}

/// A resolution session.
pub struct Session {
    groups: Vec<Group>,
    cursor: usize,
    members: Vec<String>,
    phase: Phase,
    stats: SessionStats,
    presented: usize,
    removed: usize,
    last: Option<Resolution>,
}

impl View for Session {
    type V = SessionView;

    closed spec fn view(&self) -> SessionView {
        SessionView {
            groups: group_views(self.groups@),
            cursor: self.cursor,
            members: texts(self.members@),
            phase: self.phase,
            stats: self.stats,
            presented: self.presented,
            removed: self.removed,
            last: self.last,
        }
    }
}

impl Session {
    #[verifier::type_invariant]
    spec fn reachable(&self) -> bool {
        self@.wf()
    }

    /// A session over `groups`, in the order given.
    pub fn new(groups: Vec<Group>) -> (s: Session)
        ensures
            s@ == SessionView::initial(group_views(groups@)),
            s@.wf(),
    {
        let phase = if groups.len() == 0 {
            Phase::NothingFound
        } else {
            Phase::Checking
        };
        let members: Vec<String> = Vec::new();
        proof {
            assert(texts(members@) =~= Seq::<Seq<char>>::empty());
            assert forall|g: int| 0 <= g < groups@.len() implies (#[trigger] group_views(
                groups@,
            )[g]).members.len() <= usize::MAX by {
                vstd::std_specs::vec::axiom_spec_len(&groups@[g].members);
            }
        }
        Session {
            groups,
            cursor: 0,
            members,
            phase,
            stats: SessionStats { groups_processed: 0, total_deleted: 0, bytes_reclaimed: 0 },
            presented: 0,
            removed: 0,
            last: None,
        }
    }

    /// The counts so far.
    pub fn stats(&self) -> (r: SessionStats)
        ensures
            r == self@.stats,
    {
        self.stats
    }

    /// Where the session stands.
    pub fn phase(&self) -> (r: Phase)
        ensures
            r == self@.phase,
    {
        self.phase
    }

    /// The account of the group that was resolved last, if any was.
    pub fn last_resolution(&self) -> (r: Option<Resolution>)
        ensures
            r == self@.last,
            r matches Some(a) ==> a.deleted + a.remaining == a.presented,
    {
        proof {
            use_type_invariant(self);
        }
        self.last
    }

    /// Whether the session is over.
    pub fn is_over(&self) -> (r: bool)
        ensures
            r == (self@.phase is Finished || self@.phase is NothingFound),
    {
        match self.phase {
            Phase::Finished => true,
            Phase::NothingFound => true,
            _ => false,
        }
    }

    /// What the session waits for.
    pub fn pending(&self) -> (a: Action)
        ensures
            a@ == self@.pending(),
    {
        proof {
            use_type_invariant(self);
        }
        match self.phase {
            Phase::NothingFound => Action::NothingFound,
            Phase::Checking => Action::CheckExists(copy_paths(&self.groups[self.cursor].members)),
            Phase::Presenting => Action::Prompt {
                number: self.cursor + 1,
                size: self.groups[self.cursor].size,
                members: copy_paths(&self.members),
            },
            Phase::Confirming(k) => Action::Confirm {
                others: self.members.len() - 1,
                keep: self.members[k].clone(),
            },
            Phase::Timing(_) => Action::ReadTimes(copy_paths(&self.members)),
            Phase::Deleting(k) => Action::Delete(copy_paths_without(&self.members, k)),
            Phase::Previewing(k) => Action::Preview(self.members[k].clone()),
            Phase::Finished => Action::Summary(self.stats),
        }
    }

    /// Whether the counters can take what `event` adds to them.
    pub fn has_room(&self, event: &Event) -> (b: bool)
        ensures
            b == self@.room_for(event@),
    {
        proof {
            use_type_invariant(self);
        }
        match (self.phase, event) {
            (Phase::Deleting(_), Event::Deleted(done)) => {
                let n = count_set(done);
                let size = self.groups[self.cursor].size;
                assert(n * size <= 0xffff_ffff_ffff_ffff * 0xffff_ffff_ffff_ffff) by (nonlinear_arith)
                    requires
                        0 <= n <= 0xffff_ffff_ffff_ffff,
                        0 <= size <= 0xffff_ffff_ffff_ffff,
                ;
                let bytes: u128 = (n as u128) * (size as u128) + self.stats.bytes_reclaimed as u128;
                n <= usize::MAX - self.stats.total_deleted && bytes <= u64::MAX as u128
            },
            (Phase::Previewing(_), Event::Previewed(deleted)) => {
                if *deleted {
                    let size = self.groups[self.cursor].size;
                    self.stats.total_deleted < usize::MAX && size <= u64::MAX
                        - self.stats.bytes_reclaimed
                } else {
                    true
                }
            },
            _ => true,
        }
    }

    /// The session turned to the group after the current one.
    fn to_next_group(self, stats: SessionStats, last: Option<Resolution>) -> (r: Session)
        requires
            self@.cursor < self@.groups.len(),
            (SessionView { stats, last, ..self@ }).next_group().wf(),
        ensures
            r@ == (SessionView { stats, last, ..self@ }).next_group(),
    {
        let cursor = self.cursor + 1;
        let phase = if cursor < self.groups.len() {
            Phase::Checking
        } else {
            Phase::Finished
        };
        let members: Vec<String> = Vec::new();
        assert(texts(members@) =~= Seq::<Seq<char>>::empty());
        Session {
            groups: self.groups,
            cursor,
            members,
            phase,
            stats,
            presented: 0,
            removed: 0,
            last,
        }
    }

    /// The current group resolved with `n` more of its members deleted.
    fn resolved(self, n: usize) -> (r: Session)
        requires
            self@.active(),
            n <= self@.members.len(),
            self@.resolve(n as nat).wf(),
            self@.stats.total_deleted + n <= usize::MAX,
            self@.stats.bytes_reclaimed + n * self@.size() <= u64::MAX,
        ensures
            r@ == self@.resolve(n as nat),
    {
        proof {
            use_type_invariant(&self);
        }
        let size = self.groups[self.cursor].size;
        assert(n * size <= u64::MAX);
        let stats = SessionStats {
            groups_processed: self.stats.groups_processed + 1,
            total_deleted: self.stats.total_deleted + n,
            bytes_reclaimed: self.stats.bytes_reclaimed + (n as u64) * size,
        };
        let last = Some(
            Resolution {
                presented: self.presented,
                deleted: self.removed + n,
                remaining: self.members.len() - n,
            },
        );
        self.to_next_group(stats, last)
    }

    /// The same state in another phase.
    fn turned(self, phase: Phase) -> (r: Session)
        requires
            (SessionView { phase, ..self@ }).wf(),
        ensures
            r@ == (SessionView { phase, ..self@ }),
    {
        Session {
            groups: self.groups,
            cursor: self.cursor,
            members: self.members,
            phase,
            stats: self.stats,
            presented: self.presented,
            removed: self.removed,
            last: self.last,
        }
    }

    fn on_exists(self, flags: &Vec<bool>) -> (r: Session)
        requires
            self@.phase is Checking,
            self@.accepts(EventView::Exists(flags@)),
        ensures
            r@ == self@.next_state(EventView::Exists(flags@)),
    {
        proof {
            use_type_invariant(&self);
            lemma_step_keeps_wf(self@, EventView::Exists(flags@));
        }
        let live = copy_flagged(&self.groups[self.cursor].members, flags);
        if live.len() < 2 {
            let stats = self.stats;
            let last = self.last;
            self.to_next_group(stats, last)
        } else {
            let presented = live.len();
            Session {
                groups: self.groups,
                cursor: self.cursor,
                members: live,
                phase: Phase::Presenting,
                stats: self.stats,
                presented,
                removed: 0,
                last: self.last,
            }
        }
    }

    fn on_command(self, text: &String) -> (r: Session)
        requires
            self@.phase is Presenting,
        ensures
            r@ == self@.next_state(EventView::Line(Some(text@))),
    {
        proof {
            use_type_invariant(&self);
            lemma_step_keeps_wf(self@, EventView::Line(Some(text@)));
        }
        match parse_command(text.as_str()) {
            Command::Keep(n) => match n {
                Some(n) => if 1 <= n && n <= self.members.len() {
                    self.turned(Phase::Confirming(n - 1))
                } else {
                    self
                },
                None => self,
            },
            Command::KeepNewest => self.turned(Phase::Timing(true)),
            Command::KeepOldest => self.turned(Phase::Timing(false)),
            Command::Preview(n) => match n {
                Some(n) => if 1 <= n && n <= self.members.len() {
                    self.turned(Phase::Previewing(n - 1))
                } else {
                    self
                },
                None => self,
            },
            Command::Skip => self.resolved(0),
            Command::Quit => self.turned(Phase::Finished),
            Command::Blank => self,
            Command::Unknown => self,
        }
    }

    fn on_times(self, newest: bool, times: &Vec<i128>) -> (r: Session)
        requires
            self@.phase == Phase::Timing(newest),
            self@.accepts(EventView::Times(times@)),
        ensures
            r@ == self@.next_state(EventView::Times(times@)),
    {
        proof {
            use_type_invariant(&self);
            lemma_step_keeps_wf(self@, EventView::Times(times@));
        }
        let pick = if newest {
            newest_index(times)
        } else {
            oldest_index(times)
        };
        match pick {
            Some(k) => self.turned(Phase::Deleting(k)),
            None => self,
        }
    }

    fn on_previewed(self, k: usize) -> (r: Session)
        requires
            self@.phase == Phase::Previewing(k),
            self@.room_for(EventView::Previewed(true)),
        ensures
            r@ == self@.next_state(EventView::Previewed(true)),
    {
        proof {
            use_type_invariant(&self);
            lemma_step_keeps_wf(self@, EventView::Previewed(true));
            self@.members.remove_ensures(k as int);
        }
        let size = self.groups[self.cursor].size;
        let mut members = self.members;
        let ghost before = members@;
        members.remove(k);
        assert(texts(members@) =~= texts(before).remove(k as int));
        let stats = SessionStats {
            groups_processed: self.stats.groups_processed,
            total_deleted: self.stats.total_deleted + 1,
            bytes_reclaimed: self.stats.bytes_reclaimed + size,
        };
        if members.len() < 2 {
            let stats = SessionStats {
                groups_processed: stats.groups_processed + 1,
                total_deleted: stats.total_deleted,
                bytes_reclaimed: stats.bytes_reclaimed,
            };
            let last = Some(
                Resolution {
                    presented: self.presented,
                    deleted: self.removed + 1,
                    remaining: members.len(),
                },
            );
            let cursor = self.cursor + 1;
            let phase = if cursor < self.groups.len() {
                Phase::Checking
            } else {
                Phase::Finished
            };
            let none: Vec<String> = Vec::new();
            assert(texts(none@) =~= Seq::<Seq<char>>::empty());
            Session {
                groups: self.groups,
                cursor,
                members: none,
                phase,
                stats,
                presented: 0,
                removed: 0,
                last,
            }
        } else {
            Session {
                groups: self.groups,
                cursor: self.cursor,
                members,
                phase: Phase::Presenting,
                stats,
                presented: self.presented,
                removed: self.removed + 1,
                last: self.last,
            }
        }
    }

    /// What the user is told after `event`.
    fn notice_for(&self, event: &Event) -> (n: Notice)
        ensures
            n@ == self@.notice_of(event@),
    {
        match (self.phase, event) {
            (Phase::Presenting, Event::Line(line)) => match line {
                None => Notice::ReadFailed,
                Some(text) => match parse_command(text.as_str()) {
                    Command::Keep(n) => match n {
                        Some(n) => if 1 <= n && n <= self.members.len() {
                            Notice::Quiet
                        } else {
                            Notice::KeepUsage
                        },
                        None => Notice::KeepUsage,
                    },
                    Command::Preview(n) => match n {
                        Some(n) => if 1 <= n && n <= self.members.len() {
                            Notice::Quiet
                        } else {
                            Notice::PreviewUsage
                        },
                        None => Notice::PreviewUsage,
                    },
                    Command::Quit => Notice::QuitEarly,
                    Command::Unknown => Notice::Unknown(command_word(text.as_str())),
                    _ => Notice::Quiet,
                },
            },
            _ => Notice::Quiet,
        }
    }

    /// Takes an event and moves on, if the counters can take what the event
    /// adds to them; hands the session back untouched if they cannot.
    pub fn try_step(self, event: Event) -> (r: Result<(Session, Notice), Session>)
        ensures
            match r {
                Ok((next, notice)) => {
                    &&& self@.room_for(event@)
                    &&& next@ == self@.next_state(event@)
                    &&& notice@ == self@.notice_of(event@)
                    &&& next@.wf()
                },
                Err(same) => !self@.room_for(event@) && same@ == self@,
            },
    {
        if self.has_room(&event) {
            Ok(self.step(event))
        } else {
            Err(self)
        }
    }

    /// Takes an event and moves on. An event that does not answer what the
    /// session waits for changes nothing.
    pub fn step(self, event: Event) -> (r: (Session, Notice))
        requires
            self@.room_for(event@),
        ensures
            r.0@ == self@.next_state(event@),
            r.1@ == self@.notice_of(event@),
            r.0@.wf(),
    {
        proof {
            use_type_invariant(&self);
            lemma_step_keeps_wf(self@, event@);
        }
        let notice = self.notice_for(&event);
        let next = match (self.phase, &event) {
            (Phase::Checking, Event::Exists(flags)) => {
                if flags.len() == self.groups[self.cursor].members.len() {
                    self.on_exists(flags)
                } else {
                    self
                }
            },
            (Phase::Presenting, Event::Line(line)) => match line {
                None => self.resolved(0),
                Some(text) => self.on_command(text),
            },
            (Phase::Confirming(k), Event::Line(line)) => {
                let yes = match line {
                    Some(text) => is_affirmative(text.as_str()),
                    None => false,
                };
                if yes {
                    self.turned(Phase::Deleting(k))
                } else {
                    self.turned(Phase::Presenting)
                }
            },
            (Phase::Timing(newest), Event::Times(times)) => {
                if times.len() == self.members.len() {
                    self.on_times(newest, times)
                } else {
                    self
                }
            },
            (Phase::Deleting(_), Event::Deleted(done)) => {
                if self.members.len() >= 1 && done.len() == self.members.len() - 1 {
                    proof {
                        lemma_count_true_bound(done@);
                    }
                    let n = count_set(done);
                    self.resolved(n)
                } else {
                    self
                }
            },
            (Phase::Previewing(k), Event::Previewed(deleted)) => {
                if *deleted {
                    self.on_previewed(k)
                } else {
                    self.turned(Phase::Presenting)
                }
            },
            _ => self,
        };
        (next, notice)
    }
}

/// A time as the prompt shows it: the seconds since the epoch and an `s`.
pub fn chrono_like(secs: u64) -> (t: String)
    ensures
        t@ == decimal(secs as nat) + "s"@,
{
    let mut t = String::new();
    push_decimal(&mut t, secs as u128);
    t.append("s");
    assert(t@ =~= decimal(secs as nat) + "s"@);
    t
}

/// How the prompt shows when a file was last modified; `unknown`
/// where the time could not be read or lies before the epoch.
pub fn read_modified_time(secs: Option<u64>) -> (t: String)
    ensures
        t@ == match secs {
            Some(s) => decimal(s as nat) + "s"@,
            None => "unknown"@,
        },
{
    match secs {
        Some(s) => chrono_like(s),
        None => String::from_str("unknown"),
    }
}

/// The line that shows one member of a group: its number, its path and when
/// it was last modified.
pub fn member_line(number: usize, path: &str, modified: &str) -> (l: String)
    ensures
        l@ == "  ["@ + decimal(number as nat) + "] "@ + path@ + " | modified "@ + modified@,
{
    let mut l = String::from_str("  [");
    push_decimal(&mut l, number as u128);
    l.append("] ");
    l.append(path);
    l.append(" | modified ");
    l.append(modified);
    l
}

/// The question that is asked before all members but one are deleted.
pub fn confirm_prompt(others: usize, keep: &str) -> (q: String)
    ensures
        q@ == "Delete "@ + decimal(others as nat) + " other file(s) and keep '"@ + keep@
            + "' [y/N] "@,
{
    let mut q = String::from_str("Delete ");
    push_decimal(&mut q, others as u128);
    q.append(" other file(s) and keep '");
    q.append(keep);
    q.append("' [y/N] ");
    q
}

impl Notice {
    /// The words of the notice; none for the quiet one.
    pub fn message(&self) -> (m: Option<String>)
        ensures
            match self@ {
                NoticeView::Quiet => m is None,
                NoticeView::KeepUsage => m is Some && m->0@ == "Usage: k <index>"@,
                NoticeView::PreviewUsage => m is Some && m->0@ == "Usage: p <index>"@,
                NoticeView::Unknown(word) => m is Some && m->0@ == "Unknown command: "@ + word,
                NoticeView::ReadFailed => m is Some && m->0@
                    == "Failed to read input. Skipping group."@,
                NoticeView::QuitEarly => m is Some && m->0@ == "Quitting early."@,
            },
    {
        match self {
            Notice::Quiet => None,
            Notice::KeepUsage => Some(String::from_str("Usage: k <index>")),
            Notice::PreviewUsage => Some(String::from_str("Usage: p <index>")),
            Notice::Unknown(word) => {
                let mut m = String::from_str("Unknown command: ");
                m.append(word.as_str());
                Some(m)
            },
            Notice::ReadFailed => Some(String::from_str("Failed to read input. Skipping group.")),
            Notice::QuitEarly => Some(String::from_str("Quitting early.")),
        }
    }
}

} // verus!
