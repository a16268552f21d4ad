//! The scanner: a depth-first walk of a directory tree as a state machine.
//!
//! The scanner decides; its caller acts. Each call of [`Scanner::step`] takes
//! what the last request came to and returns the next request, with at most
//! one notice on what was just settled. Directories and files are named by
//! ids that the caller chooses when it lists a directory.

use crate::config::{ConfigView, ScanConfig};
use crate::extension::{classify, extension_of, media_extension};
use crate::metrics::{has_room, with_file, MetricsTable, TallyView};
use vstd::prelude::*;

verus! {

/// One entry of a directory listing.
#[derive(Debug, PartialEq, Eq)]
pub struct Entry {
    /// The caller's name for the entry; requests hand it back.
    pub id: usize,
    /// The entry's file name.
    pub name: String,
    /// Whether the entry is a directory.
    pub is_dir: bool,
}

/// An entry as a mathematical value.
pub struct EntryView {
    pub id: usize,
    pub name: Seq<char>,
    pub is_dir: bool,
}

impl View for Entry {
    type V = EntryView;

    open spec fn view(&self) -> EntryView {
        EntryView { id: self.id, name: self.name@, is_dir: self.is_dir }
    }
}

/// The entries as mathematical values.
pub open spec fn entry_views(entries: Seq<Entry>) -> Seq<EntryView> {
    Seq::new(entries.len(), |i: int| entries[i]@)
}

/// What the caller reports back.
#[derive(Debug, PartialEq, Eq)]
pub enum Reply {
    /// Nothing yet: the first call.
    Begin,
    /// The target directory was created, or could not be.
    TargetReady(Result<(), String>),
    /// The entries of the directory asked for; `None` when it could not be
    /// listed.
    Listing(Option<Vec<Entry>>),
    /// The size in bytes of the file asked for; `None` when its metadata
    /// could not be read.
    Metadata(Option<u64>),
    /// Whether the subfolder exists now.
    SubfolderReady(bool),
    /// The file was copied, or could not be.
    Copied(Result<(), String>),
}

/// A reply as a mathematical value.
pub enum ReplyView {
    Begin,
    TargetReady(Result<(), Seq<char>>),
    Listing(Option<Seq<EntryView>>),
    Metadata(Option<u64>),
    SubfolderReady(bool),
    Copied(Result<(), Seq<char>>),
}

/// The outcome of an operation with its error, if any, as text.
pub open spec fn outcome_view(outcome: Result<(), String>) -> Result<(), Seq<char>> {
    match outcome {
        Ok(_) => Ok(()),
        Err(error) => Err(error@),
    }
}

impl View for Reply {
    type V = ReplyView;

    open spec fn view(&self) -> ReplyView {
        match self {
            Reply::Begin => ReplyView::Begin,
            Reply::TargetReady(outcome) => ReplyView::TargetReady(outcome_view(*outcome)),
            Reply::Listing(Some(entries)) => ReplyView::Listing(Some(entry_views(entries@))),
            Reply::Listing(None) => ReplyView::Listing(None),
            Reply::Metadata(size) => ReplyView::Metadata(*size),
            Reply::SubfolderReady(ready) => ReplyView::SubfolderReady(*ready),
            Reply::Copied(outcome) => ReplyView::Copied(outcome_view(*outcome)),
        }
    }
}

/// What the caller is asked to do next.
#[derive(Debug, PartialEq, Eq)]
pub enum Request {
    /// Create the target directory with its missing ancestors.
    CreateTarget { target: String },
    /// Announce that the directory is entered, at this depth, and list it.
    List { directory: usize, depth: usize },
    /// Read the size of the file.
    Stat { file: usize },
    /// Create, under the target directory, the subfolder named after the
    /// extension, with its missing ancestors.
    CreateSubfolder { target: String, extension: String },
    /// Copy the file into the subfolder of the target directory, under its
    /// own file name, replacing what is there.
    Copy { file: usize, target: String, subfolder: String, file_name: String },
    /// The scan is over. With `summary` the metrics are reported; without,
    /// the scan never started.
    Finish { summary: bool },
}

/// A request as a mathematical value.
pub enum RequestView {
    CreateTarget { target: Seq<char> },
    List { directory: usize, depth: nat },
    Stat { file: usize },
    CreateSubfolder { target: Seq<char>, extension: Seq<char> },
    Copy { file: usize, target: Seq<char>, subfolder: Seq<char>, file_name: Seq<char> },
    Finish { summary: bool },
}

impl View for Request {
    type V = RequestView;

    open spec fn view(&self) -> RequestView {
        match self {
            Request::CreateTarget { target } => RequestView::CreateTarget { target: target@ },
            Request::List { directory, depth } => RequestView::List {
                directory: *directory,
                depth: *depth as nat,
            },
            Request::Stat { file } => RequestView::Stat { file: *file },
            Request::CreateSubfolder { target, extension } => RequestView::CreateSubfolder {
                target: target@,
                extension: extension@,
            },
            Request::Copy { file, target, subfolder, file_name } => RequestView::Copy {
                file: *file,
                target: target@,
                subfolder: subfolder@,
                file_name: file_name@,
            },
            Request::Finish { summary } => RequestView::Finish { summary: *summary },
        }
    }
}

/// What the caller is told about the reply just handled.
#[derive(Debug, PartialEq, Eq)]
pub enum Notice {
    /// The target directory is there, or none is wanted: the search starts.
    SearchStarted,
    /// The target directory could not be created.
    TargetUnavailable { error: String },
    /// A media file was counted; no target is configured, so it is not
    /// copied.
    Found { file: usize, depth: usize },
    /// A media file was counted and copied.
    Copied { file: usize, depth: usize },
    /// The subfolder of the extension could not be created; the file was
    /// counted and is not copied.
    SubfolderUnavailable { extension: String },
    /// The file was counted and could not be copied.
    CopyFailed { file: usize, error: String },
}

/// A notice as a mathematical value.
pub enum NoticeView {
    SearchStarted,
    TargetUnavailable { error: Seq<char> },
    Found { file: usize, depth: nat },
    Copied { file: usize, depth: nat },
    SubfolderUnavailable { extension: Seq<char> },
    CopyFailed { file: usize, error: Seq<char> },
}

impl View for Notice {
    type V = NoticeView;

    open spec fn view(&self) -> NoticeView {
        match self {
            Notice::SearchStarted => NoticeView::SearchStarted,
            Notice::TargetUnavailable { error } => NoticeView::TargetUnavailable { error: error@ },
            Notice::Found { file, depth } => NoticeView::Found {
                file: *file,
                depth: *depth as nat,
            },
            Notice::Copied { file, depth } => NoticeView::Copied {
                file: *file,
                depth: *depth as nat,
            },
            Notice::SubfolderUnavailable { extension } => NoticeView::SubfolderUnavailable {
                extension: extension@,
            },
            Notice::CopyFailed { file, error } => NoticeView::CopyFailed {
                file: *file,
                error: error@,
            },
        }
    }
}

/// What one call of `step` returns.
#[derive(Debug, PartialEq, Eq)]
pub struct Step {
    pub notice: Option<Notice>,
    pub request: Request,
}

/// A step as a mathematical value.
pub struct StepView {
    pub notice: Option<NoticeView>,
    pub request: RequestView,
}

impl View for Step {
    type V = StepView;

    open spec fn view(&self) -> StepView {
        StepView {
            notice: match self.notice {
                Some(notice) => Some(notice@),
                None => None,
            },
            request: self.request@,
        }
    }
}

/// A media file that is being counted and copied.
struct Candidate {
    file: usize,
    depth: usize,
    name: String,
    extension: String,
}

/// A candidate as a mathematical value.
pub struct CandidateView {
    pub file: usize,
    pub depth: nat,
    pub name: Seq<char>,
    pub extension: Seq<char>,
}

impl View for Candidate {
    type V = CandidateView;

    closed spec fn view(&self) -> CandidateView {
        CandidateView {
            file: self.file,
            depth: self.depth as nat,
            name: self.name@,
            extension: self.extension@,
        }
    }
}

/// Where the scanner stands: which reply it waits for.
enum Phase {
    /// Nothing was asked yet.
    Fresh,
    /// The target directory is being created.
    Preparing,
    /// A directory is being listed.
    Listing,
    /// The size of a media file is being read.
    Sizing(Candidate),
    /// The subfolder for a media file is being created.
    Subfolder(Candidate),
    /// A media file is being copied.
    Copying { file: usize, depth: usize },
    /// The scan is over.
    Finished,
}

/// A phase as a mathematical value.
pub enum PhaseView {
    Fresh,
    Preparing,
    Listing,
    Sizing(CandidateView),
    Subfolder(CandidateView),
    Copying { file: usize, depth: nat },
    Finished,
}

impl View for Phase {
    type V = PhaseView;

    closed spec fn view(&self) -> PhaseView {
        match self {
            Phase::Fresh => PhaseView::Fresh,
            Phase::Preparing => PhaseView::Preparing,
            Phase::Listing => PhaseView::Listing,
            Phase::Sizing(candidate) => PhaseView::Sizing(candidate@),
            Phase::Subfolder(candidate) => PhaseView::Subfolder(candidate@),
            Phase::Copying { file, depth } => PhaseView::Copying {
                file: *file,
                depth: *depth as nat,
            },
            Phase::Finished => PhaseView::Finished,
        }
    }
}

/// The number of entries still to visit plus the number of open directories.
pub open spec fn pending(frames: Seq<Seq<EntryView>>) -> nat
    decreases frames.len(),
{
    if frames.len() == 0 {
        0
    } else {
        pending(frames.drop_last()) + frames.last().len() + 1
    }
}

/// The scanner as a mathematical value.
pub struct State {
    /// What the scan is configured with.
    pub config: ConfigView,
    /// The id of the start directory.
    pub root: usize,
    /// The metrics table.
    pub tallies: Seq<TallyView>,
    /// One frame for each directory that is open, the start directory first.
    /// A frame holds the entries of its directory that are still to visit,
    /// the next one last.
    pub frames: Seq<Seq<EntryView>>,
    /// Which reply is awaited.
    pub phase: PhaseView,
}

impl State {
    /// The state before the first step.
    pub open spec fn initial(config: ConfigView, root: usize) -> State {
        State {
            config,
            root,
            tallies: Seq::empty(),
            frames: Seq::empty(),
            phase: PhaseView::Fresh,
        }
    }

    /// The candidate is a media file, taken under its own extension.
    pub open spec fn counts(self, candidate: CandidateView) -> bool {
        media_extension(candidate.name, self.config.media_extensions) == Some(candidate.extension)
    }

    /// What holds of every state that a scan reaches: a file is sized and
    /// copied only as a media file, nothing is written without a target, and
    /// the depth of a file is that of the innermost open directory.
    pub open spec fn wf(self) -> bool {
        match self.phase {
            PhaseView::Fresh | PhaseView::Listing | PhaseView::Finished => true,
            PhaseView::Preparing => self.config.copies(),
            PhaseView::Sizing(candidate) => {
                &&& self.counts(candidate)
                &&& candidate.depth + 1 == self.frames.len()
            },
            PhaseView::Subfolder(candidate) => {
                &&& self.config.copies()
                &&& self.counts(candidate)
                &&& candidate.depth + 1 == self.frames.len()
            },
            PhaseView::Copying { file, depth } => {
                &&& self.config.copies()
                &&& depth + 1 == self.frames.len()
            },
        }
    }

    /// Whether `reply` answers what this state asked for, and can be taken
    /// in: a size is taken in only while the totals stay within 64 bits.
    pub open spec fn admits(self, reply: ReplyView) -> bool {
        match (self.phase, reply) {
            (PhaseView::Fresh, ReplyView::Begin) => true,
            (PhaseView::Preparing, ReplyView::TargetReady(_)) => true,
            (PhaseView::Listing, ReplyView::Listing(_)) => true,
            (PhaseView::Sizing(_), ReplyView::Metadata(Some(size))) => has_room(self.tallies, size),
            (PhaseView::Sizing(_), ReplyView::Metadata(None)) => true,
            (PhaseView::Subfolder(_), ReplyView::SubfolderReady(_)) => true,
            (PhaseView::Copying { .. }, ReplyView::Copied(_)) => true,
            _ => false,
        }
    }

    /// Moves on to the next entry that needs the caller, in depth-first
    /// order: a directory is listed, a media file is sized. Files that are no
    /// media files are passed over, and a directory whose entries are used up
    /// is closed. With no directory left open the scan is over.
    pub open spec fn advance(self) -> (State, RequestView)
        decreases pending(self.frames),
    {
        if self.frames.len() == 0 {
            (State { phase: PhaseView::Finished, ..self }, RequestView::Finish { summary: true })
        } else {
            let top = self.frames.last();
            let below = self.frames.drop_last();
            if top.len() == 0 {
                State { frames: below, ..self }.advance()
            } else {
                let entry = top.last();
                let frames = below.push(top.drop_last());
                proof {
                    assert(frames.drop_last() == below);
                }
                if entry.is_dir {
                    (
                        State { frames, phase: PhaseView::Listing, ..self },
                        RequestView::List { directory: entry.id, depth: frames.len() },
                    )
                } else {
                    match media_extension(entry.name, self.config.media_extensions) {
                        Some(extension) => (
                            State {
                                frames,
                                phase: PhaseView::Sizing(
                                    CandidateView {
                                        file: entry.id,
                                        depth: (frames.len() - 1) as nat,
                                        name: entry.name,
                                        extension,
                                    },
                                ),
                                ..self
                            },
                            RequestView::Stat { file: entry.id },
                        ),
                        None => State { frames, ..self }.advance(),
                    }
                }
            }
        }
    }

    /// Moves on, and reports `notice` on the way.
    pub open spec fn advance_with(self, notice: Option<NoticeView>) -> (State, StepView) {
        let (next, request) = self.advance();
        (next, StepView { notice, request })
    }

    /// Enters the start directory.
    pub open spec fn enter_root(self) -> (State, StepView) {
        (
            State { phase: PhaseView::Listing, ..self },
            StepView {
                notice: Some(NoticeView::SearchStarted),
                request: RequestView::List { directory: self.root, depth: 0 },
            },
        )
    }

    /// The state after `reply`, and the step that answers it.
    ///
    /// - The target directory, if one is configured, is created before
    ///   anything is listed; if that fails the scan ends at once, without a
    ///   summary.
    /// - A directory that cannot be listed is passed over in silence.
    /// - A media file whose size cannot be read is passed over in silence:
    ///   it is neither counted nor copied.
    /// - A media file whose size was read is counted, whatever becomes of its
    ///   copy. It is copied only if a target is configured, and only once
    ///   its subfolder is there.
    pub open spec fn transition(self, reply: ReplyView) -> (State, StepView)
        recommends
            self.admits(reply),
    {
        match (self.phase, reply) {
            (PhaseView::Fresh, ReplyView::Begin) => match self.config.target_directory {
                Some(target) => (
                    State { phase: PhaseView::Preparing, ..self },
                    StepView { notice: None, request: RequestView::CreateTarget { target } },
                ),
                None => self.enter_root(),
            },
            (PhaseView::Preparing, ReplyView::TargetReady(Ok(_))) => self.enter_root(),
            (PhaseView::Preparing, ReplyView::TargetReady(Err(error))) => (
                State { phase: PhaseView::Finished, ..self },
                StepView {
                    notice: Some(NoticeView::TargetUnavailable { error }),
                    request: RequestView::Finish { summary: false },
                },
            ),
            (PhaseView::Listing, ReplyView::Listing(Some(entries))) => State {
                frames: self.frames.push(entries.reverse()),
                ..self
            }.advance_with(None),
            (PhaseView::Listing, ReplyView::Listing(None)) => self.advance_with(None),
            (PhaseView::Sizing(candidate), ReplyView::Metadata(Some(size))) => {
                let counted = State {
                    tallies: with_file(self.tallies, candidate.extension, size as nat),
                    ..self
                };
                match self.config.target_directory {
                    Some(target) => (
                        State { phase: PhaseView::Subfolder(candidate), ..counted },
                        StepView {
                            notice: None,
                            request: RequestView::CreateSubfolder {
                                target,
                                extension: candidate.extension,
                            },
                        },
                    ),
                    None => counted.advance_with(
                        Some(NoticeView::Found { file: candidate.file, depth: candidate.depth }),
                    ),
                }
            },
            (PhaseView::Sizing(_), ReplyView::Metadata(None)) => self.advance_with(None),
            (PhaseView::Subfolder(candidate), ReplyView::SubfolderReady(true)) => (
                State {
                    phase: PhaseView::Copying { file: candidate.file, depth: candidate.depth },
                    ..self
                },
                StepView {
                    notice: None,
                    request: RequestView::Copy {
                        file: candidate.file,
                        target: self.config.target_directory.unwrap(),
                        subfolder: candidate.extension,
                        file_name: candidate.name,
                    },
                },
            ),
            (PhaseView::Subfolder(candidate), ReplyView::SubfolderReady(false)) => {
                self.advance_with(
                    Some(NoticeView::SubfolderUnavailable { extension: candidate.extension }),
                )
            },
            (PhaseView::Copying { file, depth }, ReplyView::Copied(Ok(_))) => self.advance_with(
                Some(NoticeView::Copied { file, depth }),
            ),
            (PhaseView::Copying { file, depth }, ReplyView::Copied(Err(error))) => {
                self.advance_with(Some(NoticeView::CopyFailed { file, error }))
            },
            // no reply that is admitted comes here
            _ => (self, StepView { notice: None, request: RequestView::Finish { summary: false } }),
        }
    }
}

/// The frames as mathematical values.
spec fn frame_views(frames: Seq<Vec<Entry>>) -> Seq<Seq<EntryView>> {
    Seq::new(frames.len(), |i: int| entry_views(frames[i]@))
}

/// Every state that a scan reaches is well-formed.
pub proof fn lemma_transition_wf(state: State, reply: ReplyView)
    requires
        state.wf(),
        state.admits(reply),
    ensures
        state.transition(reply).0.wf(),
{
    match (state.phase, reply) {
        (PhaseView::Listing, ReplyView::Listing(Some(entries))) => {
            lemma_advance_wf(State { frames: state.frames.push(entries.reverse()), ..state });
        },
        (PhaseView::Sizing(candidate), ReplyView::Metadata(Some(size))) => {
            lemma_advance_wf(
                State {
                    tallies: with_file(state.tallies, candidate.extension, size as nat),
                    ..state
                },
            );
        },
        _ => {
            lemma_advance_wf(state);
        },
    }
}

/// Moving on leads to a well-formed state, with the tallies as they were.
pub proof fn lemma_advance_wf(state: State)
    ensures
        state.advance().0.wf(),
        state.advance().0.tallies == state.tallies,
        state.advance().0.config == state.config,
        state.advance().0.root == state.root,
    decreases pending(state.frames),
{
    if state.frames.len() > 0 {
        let top = state.frames.last();
        let below = state.frames.drop_last();
        if top.len() == 0 {
            lemma_advance_wf(State { frames: below, ..state });
        } else {
            let entry = top.last();
            let frames = below.push(top.drop_last());
            assert(frames.drop_last() == below);
            if !entry.is_dir && media_extension(entry.name, state.config.media_extensions) is None {
                lemma_advance_wf(State { frames, ..state });
            }
        }
    }
}

/// Moving on asks for nothing but a listing or a size, or ends the scan.
pub proof fn lemma_advance_reads_only(state: State)
    ensures
        state.advance().1 is List || state.advance().1 is Stat || state.advance().1 is Finish,
    decreases pending(state.frames),
{
    if state.frames.len() > 0 {
        let top = state.frames.last();
        let below = state.frames.drop_last();
        if top.len() == 0 {
            lemma_advance_reads_only(State { frames: below, ..state });
        } else {
            let entry = top.last();
            let frames = below.push(top.drop_last());
            assert(frames.drop_last() == below);
            if !entry.is_dir && media_extension(entry.name, state.config.media_extensions) is None {
                lemma_advance_reads_only(State { frames, ..state });
            }
        }
    }
}

/// Without a target directory a scan writes nothing: it never asks to create
/// a directory or to copy a file.
pub proof fn lemma_no_target_no_writes(state: State, reply: ReplyView)
    requires
        state.wf(),
        state.admits(reply),
        !state.config.copies(),
    ensures
        !(state.transition(reply).1.request is CreateTarget),
        !(state.transition(reply).1.request is CreateSubfolder),
        !(state.transition(reply).1.request is Copy),
{
    match (state.phase, reply) {
        (PhaseView::Listing, ReplyView::Listing(Some(entries))) => {
            lemma_advance_reads_only(
                State { frames: state.frames.push(entries.reverse()), ..state },
            );
        },
        (PhaseView::Sizing(candidate), ReplyView::Metadata(Some(size))) => {
            lemma_advance_reads_only(
                State {
                    tallies: with_file(state.tallies, candidate.extension, size as nat),
                    ..state
                },
            );
        },
        _ => {
            lemma_advance_reads_only(state);
        },
    }
}

/// The tallies change only when the size of a media file comes in, and then
/// by that one file. Whether a target is configured, and what becomes of a
/// subfolder or of a copy, has no part in them.
pub proof fn lemma_tallies_follow_sizes(state: State, reply: ReplyView)
    requires
        state.admits(reply),
    ensures
        state.transition(reply).0.tallies == match (state.phase, reply) {
            (PhaseView::Sizing(candidate), ReplyView::Metadata(Some(size))) => with_file(
                state.tallies,
                candidate.extension,
                size as nat,
            ),
            _ => state.tallies,
        },
{
    match (state.phase, reply) {
        (PhaseView::Listing, ReplyView::Listing(Some(entries))) => {
            lemma_advance_wf(State { frames: state.frames.push(entries.reverse()), ..state });
        },
        (PhaseView::Sizing(candidate), ReplyView::Metadata(Some(size))) => {
            lemma_advance_wf(
                State {
                    tallies: with_file(state.tallies, candidate.extension, size as nat),
                    ..state
                },
            );
        },
        _ => {
            lemma_advance_wf(state);
        },
    }
}

/// A copy goes where its file belongs: it is asked for only when a target is
/// configured, for the file whose subfolder was just made, into the
/// subfolder named after that file's extension, which is a configured one,
/// and under the file's own name.
pub proof fn lemma_copy_placement(state: State, reply: ReplyView)
    requires
        state.wf(),
        state.admits(reply),
        state.transition(reply).1.request is Copy,
    ensures
        state.config.copies(),
        state.phase matches PhaseView::Subfolder(candidate) && state.transition(reply).1.request
            == (RequestView::Copy {
            file: candidate.file,
            target: state.config.target_directory.unwrap(),
            subfolder: candidate.extension,
            file_name: candidate.name,
        }) && extension_of(candidate.name) == Some(candidate.extension)
            && state.config.media_extensions.contains(candidate.extension),
{
    match (state.phase, reply) {
        (PhaseView::Listing, ReplyView::Listing(Some(entries))) => {
            lemma_advance_reads_only(
                State { frames: state.frames.push(entries.reverse()), ..state },
            );
        },
        (PhaseView::Sizing(candidate), ReplyView::Metadata(Some(size))) => {
            lemma_advance_reads_only(
                State {
                    tallies: with_file(state.tallies, candidate.extension, size as nat),
                    ..state
                },
            );
        },
        _ => {
            lemma_advance_reads_only(state);
        },
    }
}

/// Moving on does not depend on the phase that it starts from.
pub proof fn lemma_advance_ignores_phase(state: State, phase: PhaseView)
    ensures
        (State { phase, ..state }).advance() == state.advance(),
    decreases pending(state.frames),
{
    if state.frames.len() > 0 {
        let top = state.frames.last();
        let below = state.frames.drop_last();
        if top.len() == 0 {
            lemma_advance_ignores_phase(State { frames: below, ..state }, phase);
        } else {
            let entry = top.last();
            let frames = below.push(top.drop_last());
            assert(frames.drop_last() == below);
            if !entry.is_dir && media_extension(entry.name, state.config.media_extensions) is None {
                lemma_advance_ignores_phase(State { frames, ..state }, phase);
            }
        }
    }
}

/// The scanner of one scan.
pub struct Scanner {
    config: ScanConfig,
    root: usize,
    metrics: MetricsTable,
    frames: Vec<Vec<Entry>>,
    phase: Phase,
}

impl View for Scanner {
    type V = State;

    closed spec fn view(&self) -> State {
        State {
            config: self.config@,
            root: self.root,
            tallies: self.metrics@,
            frames: frame_views(self.frames@),
            phase: self.phase@,
        }
    }
}

/// The entries in reverse order.
fn reversed(entries: Vec<Entry>) -> (frame: Vec<Entry>)
    ensures
        entry_views(frame@) == entry_views(entries@).reverse(),
{
    let mut entries = entries;
    let mut frame: Vec<Entry> = Vec::new();
    let ghost all = entries@;
    while entries.len() > 0
        invariant
            entries@ == all.take(entries.len() as int),
            frame.len() + entries.len() == all.len(),
            forall|i: int| 0 <= i < frame.len() ==> frame[i] == all[all.len() - 1 - i],
        decreases entries.len(),
    {
        match entries.pop() {
            Some(entry) => frame.push(entry),
            None => {},
        }
    }
    frame
}

impl Scanner {
    /// The scanner's invariant.
    pub closed spec fn wf(&self) -> bool {
        &&& self.metrics.wf()
        &&& self@.wf()
    }

    /// A well-formed scanner stands in a well-formed state.
    pub proof fn lemma_wf(&self)
        requires
            self.wf(),
        ensures
            self@.wf(),
    {
    }

    /// A scanner that has not started yet. `root` is the caller's id for the
    /// start directory.
    pub fn new(config: ScanConfig, root: usize) -> (scanner: Scanner)
        ensures
            scanner.wf(),
            scanner@ == State::initial(config@, root),
    {
        let scanner = Scanner {
            config,
            root,
            metrics: MetricsTable::new(),
            frames: Vec::new(),
            phase: Phase::Fresh,
        };
        assert(frame_views(scanner.frames@) =~= Seq::empty());
        scanner
    }

    /// The configuration that the scanner was made with.
    pub fn config(&self) -> (config: &ScanConfig)
        ensures
            config@ == self@.config,
    {
        &self.config
    }

    /// The metrics as they stand.
    pub fn metrics(&self) -> (metrics: &MetricsTable)
        requires
            self.wf(),
        ensures
            metrics.wf(),
            metrics@ == self@.tallies,
    {
        &self.metrics
    }

    /// Ends the scanner and hands out its metrics.
    pub fn into_metrics(self) -> (metrics: MetricsTable)
        requires
            self.wf(),
        ensures
            metrics.wf(),
            metrics@ == self@.tallies,
    {
        self.metrics
    }

    /// Whether the scan is over.
    pub fn is_finished(&self) -> (finished: bool)
        ensures
            finished == (self@.phase is Finished),
    {
        match self.phase {
            Phase::Finished => true,
            _ => false,
        }
    }

    /// Decides whether `reply` may be handed to `step`.
    pub fn accepts(&self, reply: &Reply) -> (ok: bool)
        requires
            self.wf(),
        ensures
            ok == self@.admits(reply@),
    {
        match &self.phase {
            Phase::Fresh => match reply {
                Reply::Begin => true,
                _ => false,
            },
            Phase::Preparing => match reply {
                Reply::TargetReady(_) => true,
                _ => false,
            },
            Phase::Listing => match reply {
                Reply::Listing(_) => true,
                _ => false,
            },
            Phase::Sizing(_) => match reply {
                Reply::Metadata(Some(size)) => self.metrics.fits(*size),
                Reply::Metadata(None) => true,
                _ => false,
            },
            Phase::Subfolder(_) => match reply {
                Reply::SubfolderReady(_) => true,
                _ => false,
            },
            Phase::Copying { .. } => match reply {
                Reply::Copied(_) => true,
                _ => false,
            },
            Phase::Finished => false,
        }
    }

    /// Moves on to the next entry that needs the caller.
    fn advance(&mut self) -> (request: Request)
        requires
            old(self).metrics.wf(),
        ensures
            final(self).metrics.wf(),
            (final(self)@, request@) == old(self)@.advance(),
    {
        let ghost start = self@;
        loop
            invariant
                self.metrics.wf(),
                start == old(self)@,
                self@.advance() == start.advance(),
            decreases pending(self@.frames),
        {
            let ghost before = self@;
            match self.frames.pop() {
                None => {
                    self.phase = Phase::Finished;
                    return Request::Finish { summary: true };
                },
                Some(top) => {
                    let mut top = top;
                    let ghost below = before.frames.drop_last();
                    assert(frame_views(self.frames@) =~= below);
                    match top.pop() {
                        None => {},
                        Some(entry) => {
                            assert(entry_views(top@) =~= before.frames.last().drop_last());
                            self.frames.push(top);
                            let ghost frames = below.push(before.frames.last().drop_last());
                            assert(frame_views(self.frames@) =~= frames);
                            assert(frames.drop_last() == below);
                            if entry.is_dir {
                                self.phase = Phase::Listing;
                                return Request::List {
                                    directory: entry.id,
                                    depth: self.frames.len(),
                                };
                            }
                            match classify(entry.name.as_str(), &self.config.media_extensions) {
                                Some(extension) => {
                                    let candidate = Candidate {
                                        file: entry.id,
                                        depth: self.frames.len() - 1,
                                        name: entry.name,
                                        extension,
                                    };
                                    self.phase = Phase::Sizing(candidate);
                                    return Request::Stat { file: entry.id };
                                },
                                None => {},
                            }
                        },
                    }
                },
            }
        }
    }

    /// Moves on, and reports `notice` on the way. The phase that the scanner
    /// was left in does not matter.
    fn advance_with(&mut self, notice: Option<Notice>, Ghost(phase): Ghost<PhaseView>) -> (out:
        Step)
        requires
            old(self).metrics.wf(),
        ensures
            final(self).metrics.wf(),
            (final(self)@, out@) == (State { phase, ..old(self)@ }).advance_with(
                match notice {
                    Some(notice) => Some(notice@),
                    None => None,
                },
            ),
    {
        proof {
            lemma_advance_ignores_phase(State { phase, ..self@ }, self@.phase);
        }
        let request = self.advance();
        Step { notice, request }
    }

    /// Enters the start directory.
    fn enter_root(&mut self) -> (out: Step)
        requires
            old(self).metrics.wf(),
        ensures
            final(self).metrics.wf(),
            (final(self)@, out@) == old(self)@.enter_root(),
    {
        self.phase = Phase::Listing;
        Step {
            notice: Some(Notice::SearchStarted),
            request: Request::List { directory: self.root, depth: 0 },
        }
    }

    /// Takes in what the last request came to and says what to do next.
    ///
    /// The first call takes `Reply::Begin`. After that each call takes the
    /// reply to the request that the call before returned, until the request
    /// is `Request::Finish`.
    pub fn step(&mut self, reply: Reply) -> (out: Step)
        requires
            old(self).wf(),
            old(self)@.admits(reply@),
        ensures
            final(self).wf(),
            (final(self)@, out@) == old(self)@.transition(reply@),
    {
        proof {
            lemma_transition_wf(self@, reply@);
        }
        let ghost awaited = self@.phase;
        let mut phase = Phase::Finished;
        core::mem::swap(&mut self.phase, &mut phase);
        let ghost idle = self@;
        match phase {
            Phase::Fresh => match &self.config.target_directory {
                Some(target) => {
                    let target = target.clone();
                    self.phase = Phase::Preparing;
                    Step { notice: None, request: Request::CreateTarget { target } }
                },
                None => self.enter_root(),
            },
            Phase::Preparing => match reply {
                Reply::TargetReady(Err(error)) => Step {
                    notice: Some(Notice::TargetUnavailable { error }),
                    request: Request::Finish { summary: false },
                },
                _ => self.enter_root(),
            },
            Phase::Listing => match reply {
                Reply::Listing(Some(entries)) => {
                    let ghost listed = entry_views(entries@);
                    let frame = reversed(entries);
                    self.frames.push(frame);
                    assert(frame_views(self.frames@) =~= idle.frames.push(listed.reverse()));
                    self.advance_with(None, Ghost(awaited))
                },
                _ => self.advance_with(None, Ghost(awaited)),
            },
            Phase::Sizing(candidate) => match reply {
                Reply::Metadata(Some(size)) => {
                    self.metrics.record(&candidate.extension, size);
                    match &self.config.target_directory {
                        Some(target) => {
                            let target = target.clone();
                            let extension = candidate.extension.clone();
                            self.phase = Phase::Subfolder(candidate);
                            Step {
                                notice: None,
                                request: Request::CreateSubfolder { target, extension },
                            }
                        },
                        None => self.advance_with(
                            Some(Notice::Found { file: candidate.file, depth: candidate.depth }),
                            Ghost(awaited),
                        ),
                    }
                },
                _ => self.advance_with(None, Ghost(awaited)),
            },
            Phase::Subfolder(candidate) => match reply {
                Reply::SubfolderReady(true) => {
                    let target = match &self.config.target_directory {
                        Some(target) => target.clone(),
                        None => vstd::pervasive::unreached(),
                    };
                    self.phase = Phase::Copying { file: candidate.file, depth: candidate.depth };
                    Step {
                        notice: None,
                        request: Request::Copy {
                            file: candidate.file,
                            target,
                            subfolder: candidate.extension,
                            file_name: candidate.name,
                        },
                    }
                },
                _ => self.advance_with(
                    Some(Notice::SubfolderUnavailable { extension: candidate.extension }),
                    Ghost(awaited),
                ),
            },
            Phase::Copying { file, depth } => match reply {
                Reply::Copied(Err(error)) => self.advance_with(
                    Some(Notice::CopyFailed { file, error }),
                    Ghost(awaited),
                ),
                _ => self.advance_with(Some(Notice::Copied { file, depth }), Ghost(awaited)),
            },
            Phase::Finished => Step { notice: None, request: Request::Finish { summary: false } },
        }
    }
}

} // verus!
