//! A directory tree held in memory, and what a scan of it must find.
//!
//! The tree is the yardstick for the scanner: [`dry_run`] drives a scanner
//! over a tree, answering every request from the tree, and the metrics and
//! copies that come out are proved to be those that the tree defines.

use crate::config::ScanConfig;
use crate::extension::media_extension;
use crate::metrics::{
    distinct_rows, lemma_with_file_distinct, lemma_with_file_recorded, recorded, selects,
    with_file, Measure, MetricsTable, TallyView,
};
use crate::scanner::{
    entry_views, lemma_advance_reads_only, lemma_advance_wf, pending, Entry, EntryView,
    PhaseView, Reply, ReplyView, Request, RequestView, Scanner, State,
};
use vstd::prelude::*;

verus! {

/// A file or a directory of the tree.
#[derive(Debug, PartialEq, Eq)]
pub enum Node {
    /// A file with its size in bytes; `None` when its metadata cannot be
    /// read.
    File { name: String, size: Option<u64> },
    /// A directory with its entries; `None` when it cannot be listed.
    Directory { name: String, entries: Option<Vec<Node>> },
}

/// A media file that a scan counts: its name, the extension that it is
/// counted under, and its size in bytes.
pub struct Hit {
    pub name: Seq<char>,
    pub extension: Seq<char>,
    pub size: nat,
}

impl Node {
    /// The node's file name.
    pub open spec fn name(self) -> Seq<char> {
        match self {
            Node::File { name, .. } => name@,
            Node::Directory { name, .. } => name@,
        }
    }

    /// The listing entry that stands for this node under the id `id`.
    pub open spec fn entry(self, id: usize) -> EntryView {
        EntryView { id, name: self.name(), is_dir: self is Directory }
    }

    /// The entries of a directory that can be listed; nothing for a file or
    /// for a directory that cannot be listed.
    pub open spec fn children(self) -> Seq<Node> {
        match self {
            Node::Directory { entries: Some(nodes), .. } => nodes@,
            _ => Seq::empty(),
        }
    }

    /// The node as a hit: a file whose size can be read and whose extension
    /// is one of `extensions`. Anything else is no hit.
    pub open spec fn hit(self, extensions: Seq<Seq<char>>) -> Option<Hit> {
        match self {
            Node::File { name, size: Some(bytes) } => match media_extension(name@, extensions) {
                Some(extension) => Some(Hit { name: name@, extension, size: bytes as nat }),
                None => None,
            },
            _ => None,
        }
    }
}

/// What `each` gives for `node` and then for all that lies below it, in the
/// order of a depth-first walk: an entry of a directory is followed at once
/// by what lies below that entry. Nothing lies below a file, or below a
/// directory that cannot be listed.
pub open spec fn gather<T>(node: Node, each: spec_fn(Node) -> Seq<T>) -> Seq<T>
    decreases node,
{
    each(node) + match node {
        Node::Directory { entries: Some(nodes), .. } => gather_all(nodes@, each),
        _ => Seq::empty(),
    }
}

/// `gather` over `nodes`, one after the other.
pub open spec fn gather_all<T>(nodes: Seq<Node>, each: spec_fn(Node) -> Seq<T>) -> Seq<T>
    decreases nodes,
{
    if nodes.len() == 0 {
        Seq::empty()
    } else {
        gather_all(nodes.drop_last(), each) + gather(nodes.last(), each)
    }
}

/// Gives the node itself if it is a hit, and nothing otherwise.
pub open spec fn hit_of(extensions: Seq<Seq<char>>) -> spec_fn(Node) -> Seq<Hit> {
    |node: Node|
        match node.hit(extensions) {
            Some(hit) => seq![hit],
            None => Seq::empty(),
        }
}

/// The hits that a scan starting in the directory `root` finds, in the order
/// in which it finds them. A start that is no directory, or cannot be
/// listed, has none.
pub open spec fn found(root: Node, extensions: Seq<Seq<char>>) -> Seq<Hit> {
    gather_all(root.children(), hit_of(extensions))
}

/// The metrics table after the hits were counted one after the other.
pub open spec fn tabulate(hits: Seq<Hit>) -> Seq<TallyView>
    decreases hits.len(),
{
    if hits.len() == 0 {
        Seq::empty()
    } else {
        with_file(tabulate(hits.drop_last()), hits.last().extension, hits.last().size)
    }
}

/// What the selected hits measure together: how many they are, or how many
/// bytes they hold.
pub open spec fn amount(hits: Seq<Hit>, selector: Option<Seq<char>>, measure: Measure) -> nat
    decreases hits.len(),
{
    if hits.len() == 0 {
        0
    } else {
        amount(hits.drop_last(), selector, measure) + if selects(selector, hits.last().extension) {
            measure.of_file(hits.last().size)
        } else {
            0
        }
    }
}

/// Whether the hits can be counted: their number and their bytes must each
/// fit in 64 bits.
pub open spec fn countable(hits: Seq<Hit>) -> bool {
    &&& amount(hits, None, Measure::Files) <= u64::MAX
    &&& amount(hits, None, Measure::Bytes) <= u64::MAX
}

/// The table of some hits records, under each extension and in total,
/// exactly these hits: as many files as there are hits, and as many bytes as
/// the hits hold. No extension has two rows.
pub proof fn lemma_tabulate_amounts(hits: Seq<Hit>, selector: Option<Seq<char>>, measure: Measure)
    ensures
        recorded(tabulate(hits), selector, measure) == amount(hits, selector, measure),
        distinct_rows(tabulate(hits)),
    decreases hits.len(),
{
    if hits.len() > 0 {
        let init = hits.drop_last();
        lemma_tabulate_amounts(init, selector, measure);
        lemma_with_file_recorded(
            tabulate(init),
            hits.last().extension,
            hits.last().size,
            selector,
            measure,
        );
        lemma_with_file_distinct(tabulate(init), hits.last().extension, hits.last().size);
    }
}

/// Two runs of hits measure together what each measures alone.
pub proof fn lemma_amount_concat(
    front: Seq<Hit>,
    back: Seq<Hit>,
    selector: Option<Seq<char>>,
    measure: Measure,
)
    ensures
        amount(front + back, selector, measure) == amount(front, selector, measure) + amount(
            back,
            selector,
            measure,
        ),
    decreases back.len(),
{
    if back.len() > 0 {
        assert((front + back).drop_last() == front + back.drop_last());
        lemma_amount_concat(front, back.drop_last(), selector, measure);
    }
}

/// Gathering over two runs of nodes gives what the first run gives, then
/// what the second gives.
pub proof fn lemma_gather_concat<T>(
    front: Seq<Node>,
    back: Seq<Node>,
    each: spec_fn(Node) -> Seq<T>,
)
    ensures
        gather_all(front + back, each) == gather_all(front, each) + gather_all(back, each),
    decreases back.len(),
{
    if back.len() > 0 {
        assert((front + back).drop_last() == front + back.drop_last());
        lemma_gather_concat(front, back.drop_last(), each);
    }
}

/// A directory that cannot be listed gives no hit, and takes none from what
/// the entries beside it give.
pub proof fn lemma_unreadable_directory(
    before: Seq<Node>,
    unreadable: Node,
    behind: Seq<Node>,
    extensions: Seq<Seq<char>>,
)
    requires
        unreadable matches Node::Directory { entries: None, .. },
    ensures
        gather_all(before.push(unreadable) + behind, hit_of(extensions)) == gather_all(
            before + behind,
            hit_of(extensions),
        ),
{
    let each = hit_of(extensions);
    lemma_gather_concat(before.push(unreadable), behind, each);
    lemma_gather_concat(before, behind, each);
    assert(before.push(unreadable).drop_last() == before);
    assert(gather(unreadable, each) == Seq::<Hit>::empty());
}

/// Where a copy goes: into the subfolder of this name under the target
/// directory, under this file name.
#[derive(Debug, PartialEq, Eq)]
pub struct Placement {
    pub subfolder: String,
    pub file_name: String,
}

/// A placement as a mathematical value.
pub struct PlacementView {
    pub subfolder: Seq<char>,
    pub file_name: Seq<char>,
}

impl View for Placement {
    type V = PlacementView;

    open spec fn view(&self) -> PlacementView {
        PlacementView { subfolder: self.subfolder@, file_name: self.file_name@ }
    }
}

/// The placements as mathematical values.
pub open spec fn placement_views(placements: Seq<Placement>) -> Seq<PlacementView> {
    Seq::new(placements.len(), |i: int| placements[i]@)
}

/// Where the copies of the hits go, hit by hit: each into the subfolder
/// named after its extension, under its own name.
pub open spec fn placements(hits: Seq<Hit>) -> Seq<PlacementView> {
    Seq::new(
        hits.len(),
        |i: int| PlacementView { subfolder: hits[i].extension, file_name: hits[i].name },
    )
}

/// What a dry run comes to.
#[derive(Debug, PartialEq, Eq)]
pub struct DryRun {
    /// The metrics table at the end of the scan.
    pub metrics: MetricsTable,
    /// The copies that were made, in the order in which they were made.
    pub copies: Vec<Placement>,
}

/// How the target directory of a dry run behaves.
#[derive(Debug, Clone, Copy, PartialEq, Eq)]
pub enum TargetModel {
    /// Subfolders can be created and copies succeed.
    Accepting,
    /// No subfolder can be created.
    NoSubfolders,
    /// Subfolders can be created, and every copy fails.
    NoCopies,
}

/// The entries hold ids of `arena`, and each entry describes the node that
/// its id names.
spec fn faithful(entries: Seq<EntryView>, arena: Seq<Node>) -> bool {
    forall|i: int|
        0 <= i < entries.len() ==> (#[trigger] entries[i]).id < arena.len()
            && arena[entries[i].id as int].entry(entries[i].id) == entries[i]
}

spec fn all_faithful(frames: Seq<Seq<EntryView>>, arena: Seq<Node>) -> bool {
    forall|f: int| 0 <= f < frames.len() ==> faithful(#[trigger] frames[f], arena)
}

/// `longer` begins with `arena`.
spec fn extends(longer: Seq<Node>, arena: Seq<Node>) -> bool {
    &&& arena.len() <= longer.len()
    &&& forall|i: int| 0 <= i < arena.len() ==> longer[i] == arena[i]
}

/// What the nodes that the entries stand for still give, the last entry
/// first: that is the order in which a frame is used up.
spec fn owed_entries<T>(
    entries: Seq<EntryView>,
    arena: Seq<Node>,
    each: spec_fn(Node) -> Seq<T>,
) -> Seq<T>
    decreases entries.len(),
{
    if entries.len() == 0 {
        Seq::empty()
    } else {
        gather(arena[entries.last().id as int], each) + owed_entries(
            entries.drop_last(),
            arena,
            each,
        )
    }
}

/// What the open directories still give, the innermost first.
spec fn owed_frames<T>(
    frames: Seq<Seq<EntryView>>,
    arena: Seq<Node>,
    each: spec_fn(Node) -> Seq<T>,
) -> Seq<T>
    decreases frames.len(),
{
    if frames.len() == 0 {
        Seq::empty()
    } else {
        owed_entries(frames.last(), arena, each) + owed_frames(frames.drop_last(), arena, each)
    }
}

/// What the node that the request is about gives, and all below it.
spec fn in_flight<T>(request: RequestView, arena: Seq<Node>, each: spec_fn(Node) -> Seq<T>) -> Seq<
    T,
> {
    match request {
        RequestView::CreateTarget { .. } => gather(arena[0], each),
        RequestView::List { directory, .. } => gather(arena[directory as int], each),
        RequestView::Stat { file } => gather(arena[file as int], each),
        _ => Seq::empty(),
    }
}

/// All that the scan has still to settle.
spec fn carried<T>(
    state: State,
    request: RequestView,
    arena: Seq<Node>,
    each: spec_fn(Node) -> Seq<T>,
) -> Seq<T> {
    in_flight(request, arena, each) + owed_frames(state.frames, arena, each)
}

/// What the node that the request settles gives by itself.
spec fn settled<T>(request: RequestView, arena: Seq<Node>, each: spec_fn(Node) -> Seq<T>) -> Seq<
    T,
> {
    match request {
        RequestView::List { directory, .. } => each(arena[directory as int]),
        RequestView::Stat { file } => each(arena[file as int]),
        _ => Seq::empty(),
    }
}

/// `each` gives nothing for files that are no media files.
spec fn ignores_other_files<T>(each: spec_fn(Node) -> Seq<T>, extensions: Seq<Seq<char>>) -> bool {
    forall|node: Node|
        node is File && media_extension(node.name(), extensions) is None ==> #[trigger] each(node)
            == Seq::<T>::empty()
}

/// The state and the request that it waits on fit each other and the arena.
spec fn consistent(state: State, request: RequestView, arena: Seq<Node>) -> bool {
    &&& state.root == 0
    &&& arena.len() > 0
    &&& arena[0] is Directory
    &&& all_faithful(state.frames, arena)
    &&& match (state.phase, request) {
        (PhaseView::Preparing, RequestView::CreateTarget { .. }) => state.frames.len() == 0,
        (PhaseView::Listing, RequestView::List { directory, .. }) => directory < arena.len()
            && arena[directory as int] is Directory,
        (PhaseView::Sizing(candidate), RequestView::Stat { file }) => {
            &&& file == candidate.file
            &&& file < arena.len()
            &&& arena[file as int] is File
            &&& arena[file as int].name() == candidate.name
        },
        (PhaseView::Subfolder(_), RequestView::CreateSubfolder { .. }) => true,
        (PhaseView::Copying { .. }, RequestView::Copy { .. }) => true,
        (PhaseView::Finished, RequestView::Finish { .. }) => state.frames.len() == 0,
        _ => false,
    }
}

/// The entries that list `nodes`, with ids from `base` on.
spec fn listing(nodes: Seq<Node>, base: nat) -> Seq<EntryView> {
    Seq::new(nodes.len(), |i: int| nodes[i].entry((base + i) as usize))
}

/// `reply` is what the tree answers to `request`; listing a directory puts
/// its entries into the arena.
spec fn answers(
    request: RequestView,
    reply: ReplyView,
    arena: Seq<Node>,
    after: Seq<Node>,
) -> bool {
    match request {
        RequestView::CreateTarget { .. } => reply == ReplyView::TargetReady(Ok(())) && after
            == arena,
        RequestView::List { directory, .. } => match arena[directory as int] {
            Node::Directory { entries: Some(nodes), .. } => {
                &&& reply == ReplyView::Listing(Some(listing(nodes@, arena.len())))
                &&& after == arena + nodes@
                &&& after.len() <= usize::MAX
            },
            _ => reply == ReplyView::Listing(None) && after == arena,
        },
        RequestView::Stat { file } => {
            &&& after == arena
            &&& reply == ReplyView::Metadata(
                match arena[file as int] {
                    Node::File { size, .. } => size,
                    _ => None,
                },
            )
        },
        RequestView::CreateSubfolder { .. } => reply is SubfolderReady && after == arena,
        RequestView::Copy { .. } => reply is Copied && after == arena,
        RequestView::Finish { .. } => false,
    }
}

proof fn lemma_owed_extends<T>(
    entries: Seq<EntryView>,
    arena: Seq<Node>,
    longer: Seq<Node>,
    each: spec_fn(Node) -> Seq<T>,
)
    requires
        faithful(entries, arena),
        extends(longer, arena),
    ensures
        faithful(entries, longer),
        owed_entries(entries, longer, each) == owed_entries(entries, arena, each),
    decreases entries.len(),
{
    if entries.len() > 0 {
        let init = entries.drop_last();
        assert(faithful(init, arena));
        lemma_owed_extends(init, arena, longer, each);
    }
}

proof fn lemma_owed_frames_extends<T>(
    frames: Seq<Seq<EntryView>>,
    arena: Seq<Node>,
    longer: Seq<Node>,
    each: spec_fn(Node) -> Seq<T>,
)
    requires
        all_faithful(frames, arena),
        extends(longer, arena),
    ensures
        all_faithful(frames, longer),
        owed_frames(frames, longer, each) == owed_frames(frames, arena, each),
    decreases frames.len(),
{
    if frames.len() > 0 {
        let init = frames.drop_last();
        assert(all_faithful(init, arena));
        lemma_owed_frames_extends(init, arena, longer, each);
        lemma_owed_extends(frames.last(), arena, longer, each);
        assert forall|f: int| 0 <= f < frames.len() implies faithful(
            #[trigger] frames[f],
            longer,
        ) by {
            if f < init.len() {
                assert(init[f] == frames[f]);
            }
        }
    }
}

/// A listing, turned round for its frame, owes what its nodes give in the
/// order of the listing, once the nodes stand in the arena.
proof fn lemma_owed_listing<T>(
    nodes: Seq<Node>,
    base: nat,
    arena: Seq<Node>,
    each: spec_fn(Node) -> Seq<T>,
)
    requires
        base + nodes.len() <= arena.len() <= usize::MAX,
        forall|i: int| 0 <= i < nodes.len() ==> arena[base + i] == nodes[i],
    ensures
        faithful(listing(nodes, base).reverse(), arena),
        owed_entries(listing(nodes, base).reverse(), arena, each) == gather_all(nodes, each),
    decreases nodes.len(),
{
    let entries = listing(nodes, base);
    let turned = entries.reverse();
    assert(faithful(turned, arena));
    if nodes.len() > 0 {
        let init = nodes.drop_last();
        lemma_owed_listing(init, base, arena, each);
        // Turned round, the last entry comes first and is used up last.
        let first = seq![entries.last()];
        let rest = listing(init, base).reverse();
        assert(turned == first + rest);
        lemma_owed_first(first, rest, arena, each);
        assert(owed_entries(first.drop_last(), arena, each) == Seq::<T>::empty());
    }
}

/// Entries that stand in front are used up last.
proof fn lemma_owed_first<T>(
    front: Seq<EntryView>,
    back: Seq<EntryView>,
    arena: Seq<Node>,
    each: spec_fn(Node) -> Seq<T>,
)
    ensures
        owed_entries(front + back, arena, each) == owed_entries(back, arena, each) + owed_entries(
            front,
            arena,
            each,
        ),
    decreases back.len(),
{
    if back.len() == 0 {
        assert(owed_entries(back, arena, each) + owed_entries(front, arena, each) == owed_entries(
            front,
            arena,
            each,
        ));
    } else {
        assert((front + back).drop_last() == front + back.drop_last());
        lemma_owed_first(front, back.drop_last(), arena, each);
        let head = gather(arena[back.last().id as int], each);
        assert(head + (owed_entries(back.drop_last(), arena, each) + owed_entries(
            front,
            arena,
            each,
        )) == (head + owed_entries(back.drop_last(), arena, each)) + owed_entries(
            front,
            arena,
            each,
        ));
    }
}

/// Moving on passes over nothing that gives anything: what the frames owed
/// is what the next request is about, then what the frames owe now.
proof fn lemma_advance_carried<T>(state: State, arena: Seq<Node>, each: spec_fn(Node) -> Seq<T>)
    requires
        state.root == 0,
        arena.len() > 0,
        arena[0] is Directory,
        all_faithful(state.frames, arena),
        ignores_other_files(each, state.config.media_extensions),
    ensures
        consistent(state.advance().0, state.advance().1, arena),
        carried(state.advance().0, state.advance().1, arena, each) == owed_frames(
            state.frames,
            arena,
            each,
        ),
        state.advance().0.config == state.config,
    decreases pending(state.frames),
{
    if state.frames.len() > 0 {
        let top = state.frames.last();
        let below = state.frames.drop_last();
        assert(all_faithful(below, arena));
        if top.len() == 0 {
            lemma_advance_carried(State { frames: below, ..state }, arena, each);
            assert(owed_entries(top, arena, each) + owed_frames(below, arena, each)
                == owed_frames(below, arena, each));
        } else {
            let entry = top.last();
            let rest = top.drop_last();
            let frames = below.push(rest);
            assert(frames.drop_last() == below);
            assert(faithful(rest, arena));
            assert forall|f: int| 0 <= f < frames.len() implies faithful(
                #[trigger] frames[f],
                arena,
            ) by {
                if f < below.len() {
                    assert(frames[f] == below[f]);
                }
            }
            if !entry.is_dir && media_extension(entry.name, state.config.media_extensions) is None {
                lemma_advance_carried(State { frames, ..state }, arena, each);
            }
        }
    }
}

/// One round of the scan: the reply settles the node that the request was
/// about, and all the rest is carried on in its order.
proof fn lemma_round<T>(
    state: State,
    request: RequestView,
    reply: ReplyView,
    arena: Seq<Node>,
    after: Seq<Node>,
    each: spec_fn(Node) -> Seq<T>,
)
    requires
        consistent(state, request, arena),
        answers(request, reply, arena, after),
        ignores_other_files(each, state.config.media_extensions),
    ensures
        consistent(state.transition(reply).0, state.transition(reply).1.request, after),
        settled(request, arena, each) + carried(
            state.transition(reply).0,
            state.transition(reply).1.request,
            after,
            each,
        ) == carried(state, request, arena, each),
        state.transition(reply).0.config == state.config,
{
    lemma_owed_frames_extends(state.frames, arena, after, each);
    match (state.phase, request) {
        (PhaseView::Preparing, RequestView::CreateTarget { .. }) => {
            assert(carried(state, request, arena, each) == carried(
                state.transition(reply).0,
                state.transition(reply).1.request,
                after,
                each,
            ));
        },
        (PhaseView::Listing, RequestView::List { directory, .. }) => {
            match arena[directory as int] {
                Node::Directory { entries: Some(nodes), .. } => {
                    let turned = listing(nodes@, arena.len()).reverse();
                    let frames = state.frames.push(turned);
                    lemma_owed_listing(nodes@, arena.len(), after, each);
                    assert(frames.drop_last() == state.frames);
                    assert forall|f: int| 0 <= f < frames.len() implies faithful(
                        #[trigger] frames[f],
                        after,
                    ) by {
                        if f < state.frames.len() {
                            assert(frames[f] == state.frames[f]);
                        }
                    }
                    lemma_advance_carried(State { frames, ..state }, after, each);
                },
                _ => {
                    lemma_advance_carried(state, after, each);
                },
            }
        },
        (PhaseView::Sizing(candidate), RequestView::Stat { file }) => {
            match reply {
                ReplyView::Metadata(Some(size)) => {
                    lemma_advance_carried(
                        State {
                            tallies: with_file(state.tallies, candidate.extension, size as nat),
                            ..state
                        },
                        after,
                        each,
                    );
                },
                _ => {
                    lemma_advance_carried(state, after, each);
                },
            }
        },
        _ => {
            lemma_advance_carried(state, after, each);
        },
    }
}

/// One round of the scan keeps the books: if the table held the hits that
/// were settled before, it now holds those and the hit just settled.
proof fn lemma_round_tallies(
    state: State,
    request: RequestView,
    reply: ReplyView,
    arena: Seq<Node>,
    after: Seq<Node>,
    done: Seq<Hit>,
)
    requires
        state.wf(),
        consistent(state, request, arena),
        answers(request, reply, arena, after),
        state.tallies == tabulate(done),
    ensures
        state.transition(reply).0.tallies == tabulate(
            done + settled(request, arena, hit_of(state.config.media_extensions)),
        ),
{
    let each = hit_of(state.config.media_extensions);
    let hits = settled(request, arena, each);
    match (state.phase, reply) {
        (PhaseView::Listing, ReplyView::Listing(Some(entries))) => {
            lemma_advance_wf(State { frames: state.frames.push(entries.reverse()), ..state });
        },
        (PhaseView::Sizing(candidate), ReplyView::Metadata(Some(size))) => {
            lemma_advance_wf(
                State {
                    tallies: with_file(state.tallies, candidate.extension, size as nat),
                    ..state
                },
            );
            assert((done + hits).drop_last() == done);
        },
        _ => {
            lemma_advance_wf(state);
            assert(done + hits == done);
        },
    }
}

/// The copy that is under way: asked for, or waiting for its subfolder.
spec fn copy_under_way(state: State, request: RequestView) -> Seq<PlacementView> {
    match (state.phase, request) {
        (PhaseView::Subfolder(candidate), _) => seq![
            PlacementView { subfolder: candidate.extension, file_name: candidate.name },
        ],
        (PhaseView::Copying { .. }, RequestView::Copy { subfolder, file_name, .. }) => seq![
            PlacementView { subfolder, file_name },
        ],
        _ => Seq::empty(),
    }
}

/// The copy that the reply to `request` reports as made.
spec fn copy_made(request: RequestView, reply: ReplyView) -> Seq<PlacementView> {
    match (request, reply) {
        (RequestView::Copy { subfolder, file_name, .. }, ReplyView::Copied(Ok(_))) => seq![
            PlacementView { subfolder, file_name },
        ],
        _ => Seq::empty(),
    }
}

/// One round of a scan whose target takes every subfolder and every copy:
/// the copies made and the one under way are those of the hits settled so
/// far.
proof fn lemma_round_copies(
    state: State,
    request: RequestView,
    reply: ReplyView,
    arena: Seq<Node>,
    after: Seq<Node>,
    done: Seq<Hit>,
    made: Seq<PlacementView>,
)
    requires
        state.wf(),
        state.config.copies(),
        consistent(state, request, arena),
        answers(request, reply, arena, after),
        reply != ReplyView::SubfolderReady(false),
        !(reply matches ReplyView::Copied(Err(_))),
        made + copy_under_way(state, request) == placements(done),
    ensures
        made + copy_made(request, reply) + copy_under_way(
            state.transition(reply).0,
            state.transition(reply).1.request,
        ) == placements(done + settled(request, arena, hit_of(state.config.media_extensions))),
{
    let next = state.transition(reply).0;
    let asked = state.transition(reply).1.request;
    lemma_round(state, request, reply, arena, after, hit_of(state.config.media_extensions));
    match (state.phase, reply) {
        (PhaseView::Listing, ReplyView::Listing(Some(entries))) => {
            lemma_advance_reads_only(
                State { frames: state.frames.push(entries.reverse()), ..state },
            );
        },
        (PhaseView::Sizing(_), ReplyView::Metadata(Some(_))) => {
            // The file just counted is the copy that is now under way.
        },
        (PhaseView::Subfolder(_), ReplyView::SubfolderReady(_)) => {
            // The copy under way stays the same.
        },
        (PhaseView::Copying { .. }, ReplyView::Copied(_)) => {
            lemma_advance_reads_only(state);
            assert(made + copy_made(request, reply) + copy_under_way(next, asked) == made
                + copy_made(request, reply));
        },
        _ => {
            lemma_advance_reads_only(state);
        },
    }
}

/// The rounds that a node takes at most: one to list a directory, three to
/// size a media file, make its subfolder and copy it.
spec fn effort_of(extensions: Seq<Seq<char>>) -> spec_fn(Node) -> Seq<bool> {
    |node: Node|
        match node {
            Node::File { name, .. } => if media_extension(name@, extensions) is Some {
                seq![true, true, true]
            } else {
                Seq::empty()
            },
            Node::Directory { .. } => seq![true],
        }
}

/// The rounds that a request takes beyond those of the node it settles.
spec fn rank(request: RequestView) -> nat {
    match request {
        RequestView::CreateTarget { .. } => 1,
        RequestView::CreateSubfolder { .. } => 2,
        RequestView::Copy { .. } => 1,
        _ => 0,
    }
}

/// The rounds that are left at most.
spec fn rounds_left(state: State, request: RequestView, arena: Seq<Node>) -> nat {
    carried(state, request, arena, effort_of(state.config.media_extensions)).len() + rank(request)
}

/// Every round brings the scan nearer to its end.
proof fn lemma_round_progress(
    state: State,
    request: RequestView,
    reply: ReplyView,
    arena: Seq<Node>,
    after: Seq<Node>,
)
    requires
        state.wf(),
        consistent(state, request, arena),
        answers(request, reply, arena, after),
    ensures
        rounds_left(state.transition(reply).0, state.transition(reply).1.request, after)
            < rounds_left(state, request, arena),
{
    let each = effort_of(state.config.media_extensions);
    lemma_round(state, request, reply, arena, after, each);
    match (state.phase, reply) {
        (PhaseView::Listing, ReplyView::Listing(Some(entries))) => {
            lemma_advance_reads_only(
                State { frames: state.frames.push(entries.reverse()), ..state },
            );
        },
        (PhaseView::Sizing(candidate), ReplyView::Metadata(Some(size))) => {
            lemma_advance_reads_only(
                State {
                    tallies: with_file(state.tallies, candidate.extension, size as nat),
                    ..state
                },
            );
        },
        _ => {
            lemma_advance_reads_only(state);
        },
    }
}

/// The nodes that the references point at.
spec fn nodes_of(arena: Seq<&Node>) -> Seq<Node> {
    Seq::new(arena.len(), |i: int| *arena[i])
}

/// Lists `nodes` for the scanner: each gets the next free id, and goes into
/// the arena under it.
fn list_into<'a>(nodes: &'a Vec<Node>, arena: &mut Vec<&'a Node>) -> (entries: Vec<Entry>)
    ensures
        nodes_of(final(arena)@) == nodes_of(old(arena)@) + nodes@,
        entry_views(entries@) == listing(nodes@, old(arena)@.len()),
        final(arena)@.len() <= usize::MAX,
{
    let mut entries: Vec<Entry> = Vec::new();
    let ghost base = arena@;
    let mut id: usize = arena.len();
    let mut i: usize = 0;
    while i < nodes.len()
        invariant
            i <= nodes.len(),
            id == arena@.len() == base.len() + i,
            nodes_of(arena@) == nodes_of(base) + nodes@.take(i as int),
            entry_views(entries@) == listing(nodes@.take(i as int), base.len()),
        decreases nodes.len() - i,
    {
        let node = &nodes[i];
        let ghost arena_before = arena@;
        let ghost entries_before = entries@;
        arena.push(node);
        let entry = match node {
            Node::File { name, .. } => Entry { id, name: name.clone(), is_dir: false },
            Node::Directory { name, .. } => Entry { id, name: name.clone(), is_dir: true },
        };
        entries.push(entry);
        proof {
            assert(nodes_of(arena@) =~= nodes_of(arena_before).push(nodes@[i as int]));
            assert(entry_views(entries@) =~= entry_views(entries_before).push(entry@));
        }
        id = arena.len();
        i = i + 1;
    }
    entries
}

/// Scans the tree under `root` without touching any file: every request of
/// the scanner is answered from the tree, and `target` decides what becomes
/// of subfolders and copies. The scan is given up, with `None`, exactly when
/// the hits of the tree cannot be counted in 64 bits.
///
/// The table that comes out is the one that counting the hits of the tree
/// leaves, in the order of a depth-first walk. So the count recorded for an
/// extension is the number of files with that extension whose size could be
/// read, and the size recorded for it is the sum of their sizes. The table is
/// the same whatever `target` is, and whether or not the configuration names
/// a target directory. Copies are made only where a target directory is
/// configured and takes them: then every hit is copied once, in the order of
/// the walk.
pub fn dry_run(root: &Node, config: ScanConfig, target: TargetModel) -> (outcome: Option<DryRun>)
    ensures
        outcome is Some <==> countable(found(*root, config@.media_extensions)),
        outcome matches Some(run) ==> {
            &&& run.metrics.wf()
            &&& run.metrics@ == tabulate(found(*root, config@.media_extensions))
            &&& forall|selector: Option<Seq<char>>, measure: Measure|
                #[trigger] recorded(run.metrics@, selector, measure) == amount(
                    found(*root, config@.media_extensions),
                    selector,
                    measure,
                )
            &&& placement_views(run.copies@) == if config@.copies() && target is Accepting {
                placements(found(*root, config@.media_extensions))
            } else {
                Seq::empty()
            }
        },
{
    let ghost extensions = config@.media_extensions;
    let ghost copying = config@.copies() && target is Accepting;
    let ghost each = hit_of(extensions);
    let mut arena: Vec<&Node> = Vec::new();
    arena.push(root);
    let mut copies: Vec<Placement> = Vec::new();
    let mut scanner = Scanner::new(config, 0);
    let mut step = scanner.step(Reply::Begin);
    if let Node::File { .. } = root {
        // A start that is no directory cannot be listed, and that is all.
        if let Request::CreateTarget { .. } = step.request {
            scanner.step(Reply::TargetReady(Ok(())));
        }
        scanner.step(Reply::Listing(None));
        return Some(DryRun { metrics: scanner.into_metrics(), copies });
    }
    let ghost mut done: Seq<Hit> = Seq::empty();
    proof {
        assert(done + carried(scanner@, step.request@, nodes_of(arena@), each) == found(
            *root,
            extensions,
        ));
        assert(placement_views(copies@) + copy_under_way(scanner@, step.request@) == placements(
            done,
        ));
    }
    loop
        invariant
            scanner.wf(),
            scanner@.config == config@,
            extensions == config@.media_extensions,
            copying == (config@.copies() && target is Accepting),
            each == hit_of(extensions),
            consistent(scanner@, step.request@, nodes_of(arena@)),
            scanner@.tallies == tabulate(done),
            done + carried(scanner@, step.request@, nodes_of(arena@), each) == found(
                *root,
                extensions,
            ),
            copying ==> placement_views(copies@) + copy_under_way(scanner@, step.request@)
                == placements(done),
            !copying ==> copies@.len() == 0,
        decreases rounds_left(scanner@, step.request@, nodes_of(arena@)),
    {
        let ghost state = scanner@;
        let ghost request = step.request@;
        let ghost before = nodes_of(arena@);
        let ghost made = placement_views(copies@);
        let reply = match &step.request {
            Request::Finish { .. } => {
                let metrics = scanner.into_metrics();
                proof {
                    assert forall|selector: Option<Seq<char>>, measure: Measure|
                        #[trigger] recorded(tabulate(done), selector, measure) == amount(
                            done,
                            selector,
                            measure,
                        ) by {
                        lemma_tabulate_amounts(done, selector, measure);
                    }
                    metrics.lemma_bounded(Seq::empty(), Measure::Files);
                    metrics.lemma_bounded(Seq::empty(), Measure::Bytes);
                    assert(recorded(metrics@, None, Measure::Files) <= u64::MAX);
                    assert(recorded(metrics@, None, Measure::Bytes) <= u64::MAX);
                }
                return Some(DryRun { metrics, copies });
            },
            Request::CreateTarget { .. } => Reply::TargetReady(Ok(())),
            Request::List { directory, .. } => match arena[*directory] {
                Node::Directory { entries: Some(nodes), .. } => Reply::Listing(
                    Some(list_into(nodes, &mut arena)),
                ),
                _ => Reply::Listing(None),
            },
            Request::Stat { file } => match arena[*file] {
                Node::File { size, .. } => Reply::Metadata(*size),
                _ => Reply::Metadata(None),
            },
            Request::CreateSubfolder { .. } => match target {
                TargetModel::NoSubfolders => Reply::SubfolderReady(false),
                _ => Reply::SubfolderReady(true),
            },
            Request::Copy { subfolder, file_name, .. } => match target {
                TargetModel::Accepting => {
                    copies.push(
                        Placement { subfolder: subfolder.clone(), file_name: file_name.clone() },
                    );
                    Reply::Copied(Ok(()))
                },
                _ => Reply::Copied(Err(String::new())),
            },
        };
        let ghost after = nodes_of(arena@);
        let ghost hits = settled(request, before, each);
        proof {
            let rest = carried(
                state.transition(reply@).0,
                state.transition(reply@).1.request,
                after,
                each,
            );
            scanner.lemma_wf();
            lemma_round_progress(state, request, reply@, before, after);
            lemma_round(state, request, reply@, before, after, each);
            lemma_round_tallies(state, request, reply@, before, after, done);
            assert((done + hits) + rest == done + (hits + rest));
            if let ReplyView::Metadata(Some(size)) = reply@ {
                // The file in hand is a hit, so it is part of what the tree holds.
                lemma_amount_concat(done + hits, rest, None, Measure::Files);
                lemma_amount_concat(done + hits, rest, None, Measure::Bytes);
                lemma_tabulate_amounts(done, None, Measure::Files);
                lemma_tabulate_amounts(done, None, Measure::Bytes);
                assert((done + hits).drop_last() == done);
            }
            if copying {
                lemma_round_copies(state, request, reply@, before, after, done, made);
            }
        }
        if !scanner.accepts(&reply) {
            return None;
        }
        proof {
            done = done + hits;
        }
        step = scanner.step(reply);
    }
}

} // verus!
