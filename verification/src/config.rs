//! What a scan is configured with: where it starts, where copies go, and
//! which extensions count as media.

use vstd::prelude::*;

verus! {

/// The start directory used when none is given.
pub const DEFAULT_START_DIRECTORY: &'static str = "./";

/// The extension list used when none is given.
pub const DEFAULT_MEDIA_EXTENSIONS: &'static str =
    "mp4,mp3,jpg,png,docx,wma,pdf,psd,jpeg,gif,doc,avi,wmv,flv,mov";

/// The pieces put together again, with a comma between neighbours.
pub open spec fn joined(pieces: Seq<Seq<char>>) -> Seq<char>
    decreases pieces.len(),
{
    if pieces.len() == 0 {
        Seq::empty()
    } else if pieces.len() == 1 {
        pieces[0]
    } else {
        joined(pieces.drop_last()) + seq![','] + pieces.last()
    }
}

/// `pieces` is `list` split at its commas: there is at least one piece, no
/// piece holds a comma, and the pieces joined by commas give `list` back.
/// Pieces are taken as they stand: nothing is trimmed, and an empty piece
/// stays.
pub open spec fn is_split(list: Seq<char>, pieces: Seq<Seq<char>>) -> bool {
    &&& pieces.len() >= 1
    &&& forall|i: int| 0 <= i < pieces.len() ==> !(#[trigger] pieces[i]).contains(',')
    &&& joined(pieces) == list
}

/// Joining after one more piece.
proof fn lemma_joined_push(pieces: Seq<Seq<char>>, piece: Seq<char>)
    ensures
        joined(pieces.push(piece)) == if pieces.len() == 0 {
            piece
        } else {
            joined(pieces) + seq![','] + piece
        },
{
    assert(pieces.push(piece).drop_last() == pieces);
}

/// The last piece of a split is what follows the last comma, and the pieces
/// before it split what precedes that comma.
proof fn lemma_split_last(list: Seq<char>, pieces: Seq<Seq<char>>)
    requires
        is_split(list, pieces),
    ensures
        pieces.last().len() <= list.len(),
        list.skip(list.len() - pieces.last().len()) == pieces.last(),
        pieces.len() > 1 ==> list.len() > pieces.last().len() && list[list.len()
            - pieces.last().len() - 1] == ',' && is_split(
            list.take(list.len() - pieces.last().len() - 1),
            pieces.drop_last(),
        ),
        pieces.len() == 1 ==> list == pieces[0],
{
    if pieces.len() > 1 {
        let init = joined(pieces.drop_last());
        assert(list.take(list.len() - pieces.last().len() - 1) == init);
    }
}

/// A list has one split only.
pub proof fn lemma_split_unique(list: Seq<char>, a: Seq<Seq<char>>, b: Seq<Seq<char>>)
    requires
        is_split(list, a),
        is_split(list, b),
    ensures
        a == b,
    decreases list.len(),
{
    lemma_split_last(list, a);
    lemma_split_last(list, b);
    // Both last pieces are what follows the last comma of the list: were one
    // of them shorter, the comma before it would lie inside the other.
    let last = a.last();
    if last.len() == b.last().len() && a.len() > 1 && b.len() > 1 {
        lemma_split_unique(
            list.take(list.len() - last.len() - 1),
            a.drop_last(),
            b.drop_last(),
        );
        assert(a == a.drop_last().push(last));
    }
}

/// Splits a comma-separated list into its pieces.
pub fn parse_extensions(list: &str) -> (pieces: Vec<String>)
    ensures
        is_split(list@, pieces.deep_view()),
{
    let len = list.unicode_len();
    let mut pieces: Vec<String> = Vec::new();
    let mut start: usize = 0;
    let mut n: usize = 0;
    for c in it: list.chars()
        invariant
            it.seq() == list@,
            list@.len() == len,
            n == it.index(),
            start <= n,
            forall|i: int|
                0 <= i < pieces.len() ==> !(#[trigger] pieces.deep_view()[i]).contains(','),
            !list@.subrange(start as int, n as int).contains(','),
            joined(pieces.deep_view().push(list@.subrange(start as int, n as int))) == list@.take(
                n as int,
            ),
    {
        let ghost done = pieces.deep_view();
        let ghost piece = list@.subrange(start as int, n as int);
        proof {
            lemma_joined_push(done, piece);
        }
        if c == ',' {
            pieces.push(list.substring_char(start, n).to_owned());
            start = n + 1;
            proof {
                assert(pieces.deep_view() == done.push(piece));
                lemma_joined_push(done.push(piece), list@.subrange(n + 1, n + 1));
            }
        } else {
            proof {
                lemma_joined_push(done, list@.subrange(start as int, n + 1));
            }
        }
        n = n + 1;
    }
    let ghost done = pieces.deep_view();
    pieces.push(list.substring_char(start, n).to_owned());
    proof {
        assert(pieces.deep_view() == done.push(list@.subrange(start as int, n as int)));
        assert(list@.take(n as int) == list@);
    }
    pieces
}

/// The configuration of one scan. It does not change while the scan runs.
#[derive(Debug, PartialEq, Eq)]
pub struct ScanConfig {
    /// The directory the scan starts in.
    pub start_directory: String,
    /// The directory under which matched files are copied; `None` to count
    /// without copying.
    pub target_directory: Option<String>,
    /// The extensions that count as media, without a leading dot.
    pub media_extensions: Vec<String>,
}

/// A configuration as a mathematical value.
pub struct ConfigView {
    pub start_directory: Seq<char>,
    pub target_directory: Option<Seq<char>>,
    pub media_extensions: Seq<Seq<char>>,
}

impl ConfigView {
    /// Whether matched files are copied.
    pub open spec fn copies(self) -> bool {
        self.target_directory is Some
    }
}

impl View for ScanConfig {
    type V = ConfigView;

    open spec fn view(&self) -> ConfigView {
        ConfigView {
            start_directory: self.start_directory@,
            target_directory: match self.target_directory {
                Some(target) => Some(target@),
                None => None,
            },
            media_extensions: self.media_extensions.deep_view(),
        }
    }
}

impl ScanConfig {
    /// A configuration whose extensions are the pieces of a comma-separated
    /// list.
    pub fn new(
        start_directory: String,
        target_directory: Option<String>,
        extension_list: &str,
    ) -> (config: ScanConfig)
        ensures
            config.start_directory == start_directory,
            config.target_directory == target_directory,
            is_split(extension_list@, config@.media_extensions),
    {
        ScanConfig {
            start_directory,
            target_directory,
            media_extensions: parse_extensions(extension_list),
        }
    }
}

} // verus!
