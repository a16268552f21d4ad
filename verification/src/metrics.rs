//! The metrics table: for each extension met so far, how many files were
//! counted under it and how many bytes they hold together.

use vstd::prelude::*;

verus! {

/// What a tally measures: a number of files, or a number of bytes.
pub enum Measure {
    Files,
    Bytes,
}

impl Measure {
    /// What one file of `size` bytes adds under this measure.
    pub open spec fn of_file(self, size: nat) -> nat {
        match self {
            Measure::Files => 1,
            Measure::Bytes => size,
        }
    }
}

/// One row of the table.
#[derive(Debug, PartialEq, Eq)]
pub struct Tally {
    pub extension: String,
    pub count: u64,
    pub size: u64,
}

/// A row as a mathematical value.
pub struct TallyView {
    pub extension: Seq<char>,
    pub count: nat,
    pub size: nat,
}

impl TallyView {
    /// What the row records under `measure`.
    pub open spec fn amount(self, measure: Measure) -> nat {
        match measure {
            Measure::Files => self.count,
            Measure::Bytes => self.size,
        }
    }
}

impl View for Tally {
    type V = TallyView;

    open spec fn view(&self) -> TallyView {
        TallyView { extension: self.extension@, count: self.count as nat, size: self.size as nat }
    }
}

/// Index of the row of `ext` in `rows`, or `-1` when there is none.
pub open spec fn row_index(rows: Seq<TallyView>, ext: Seq<char>) -> int
    decreases rows.len(),
{
    if rows.len() == 0 {
        -1
    } else if rows.last().extension == ext {
        rows.len() - 1
    } else {
        row_index(rows.drop_last(), ext)
    }
}

/// No extension has two rows.
pub open spec fn distinct_rows(rows: Seq<TallyView>) -> bool {
    forall|i: int, j: int|
        0 <= i < j < rows.len() ==> (#[trigger] rows[i]).extension != (#[trigger] rows[j]).extension
}

/// What is recorded under `ext`: nothing when it has no row.
pub open spec fn recorded_for(rows: Seq<TallyView>, ext: Seq<char>, measure: Measure) -> nat {
    let i = row_index(rows, ext);
    if i >= 0 {
        rows[i].amount(measure)
    } else {
        0
    }
}

/// What is recorded in all rows together.
pub open spec fn recorded_total(rows: Seq<TallyView>, measure: Measure) -> nat
    decreases rows.len(),
{
    if rows.len() == 0 {
        0
    } else {
        recorded_total(rows.drop_last(), measure) + rows.last().amount(measure)
    }
}

/// The table after one more file of `size` bytes is counted under `ext`: the
/// row of `ext` grows by one file and `size` bytes; an extension met for the
/// first time gets a new last row.
pub open spec fn with_file(rows: Seq<TallyView>, ext: Seq<char>, size: nat) -> Seq<TallyView> {
    let i = row_index(rows, ext);
    if i >= 0 {
        rows.update(
            i,
            TallyView { extension: ext, count: rows[i].count + 1, size: rows[i].size + size },
        )
    } else {
        rows.push(TallyView { extension: ext, count: 1, size: size })
    }
}

/// Whether one more file of `size` bytes can be counted: the totals of files
/// and of bytes must stay within 64 bits.
pub open spec fn has_room(rows: Seq<TallyView>, size: u64) -> bool {
    &&& recorded_total(rows, Measure::Files) + 1 <= u64::MAX
    &&& recorded_total(rows, Measure::Bytes) + size <= u64::MAX
}

/// `row_index` finds a row of `ext` whenever there is one.
pub proof fn lemma_row_index(rows: Seq<TallyView>, ext: Seq<char>)
    ensures
        -1 <= row_index(rows, ext) < rows.len(),
        row_index(rows, ext) >= 0 ==> rows[row_index(rows, ext)].extension == ext,
        row_index(rows, ext) == -1 ==> forall|i: int|
            0 <= i < rows.len() ==> (#[trigger] rows[i]).extension != ext,
    decreases rows.len(),
{
    if rows.len() > 0 && rows.last().extension != ext {
        let init = rows.drop_last();
        lemma_row_index(init, ext);
        if row_index(rows, ext) == -1 {
            assert forall|i: int| 0 <= i < rows.len() implies (#[trigger] rows[i]).extension
                != ext by {
                if i < init.len() {
                    assert(init[i].extension != ext);
                }
            }
        }
    }
}

/// With distinct rows, the row of an extension is the only row that bears it.
pub proof fn lemma_row_index_unique(rows: Seq<TallyView>, i: int)
    requires
        distinct_rows(rows),
        0 <= i < rows.len(),
    ensures
        row_index(rows, rows[i].extension) == i,
{
    lemma_row_index(rows, rows[i].extension);
}

/// Changing the amounts of row `i` moves no row.
proof fn lemma_row_index_update(rows: Seq<TallyView>, i: int, row: TallyView, ext: Seq<char>)
    requires
        0 <= i < rows.len(),
        row.extension == rows[i].extension,
    ensures
        row_index(rows.update(i, row), ext) == row_index(rows, ext),
    decreases rows.len(),
{
    let after = rows.update(i, row);
    if after.last().extension != ext {
        if i < rows.len() - 1 {
            assert(after.drop_last() == rows.drop_last().update(i, row));
            lemma_row_index_update(rows.drop_last(), i, row, ext);
        } else {
            assert(after.drop_last() == rows.drop_last());
        }
    }
}

/// Changing row `i` changes the total by what row `i` gains.
proof fn lemma_total_update(rows: Seq<TallyView>, i: int, row: TallyView, measure: Measure)
    requires
        0 <= i < rows.len(),
    ensures
        recorded_total(rows.update(i, row), measure) + rows[i].amount(measure) == recorded_total(
            rows,
            measure,
        ) + row.amount(measure),
        rows[i].amount(measure) <= recorded_total(rows, measure),
    decreases rows.len(),
{
    let after = rows.update(i, row);
    if i < rows.len() - 1 {
        assert(after.drop_last() == rows.drop_last().update(i, row));
        lemma_total_update(rows.drop_last(), i, row, measure);
    } else {
        assert(after.drop_last() == rows.drop_last());
    }
}

/// Counting a file keeps the rows distinct.
pub proof fn lemma_with_file_distinct(rows: Seq<TallyView>, ext: Seq<char>, size: nat)
    requires
        distinct_rows(rows),
    ensures
        distinct_rows(with_file(rows, ext, size)),
{
    lemma_row_index(rows, ext);
}

/// Counting a file of `size` bytes under `ext` adds one file and `size` bytes
/// to what is recorded under `ext`, the same to the totals, and nothing to
/// any other extension.
pub proof fn lemma_with_file(
    rows: Seq<TallyView>,
    ext: Seq<char>,
    size: nat,
    other: Seq<char>,
    measure: Measure,
)
    ensures
        recorded_for(with_file(rows, ext, size), other, measure) == recorded_for(
            rows,
            other,
            measure,
        ) + if other == ext {
            measure.of_file(size)
        } else {
            0
        },
        recorded_total(with_file(rows, ext, size), measure) == recorded_total(rows, measure)
            + measure.of_file(size),
{
    lemma_row_index(rows, ext);
    lemma_row_index(rows, other);
    let i = row_index(rows, ext);
    let after = with_file(rows, ext, size);
    if i >= 0 {
        lemma_row_index_update(rows, i, after[i], other);
        lemma_total_update(rows, i, after[i], measure);
    } else {
        assert(after.drop_last() == rows);
    }
}

/// Whether tallies selected by `selector` take in the files of `ext`: one
/// extension selects its own files, `None` selects all.
pub open spec fn selects(selector: Option<Seq<char>>, ext: Seq<char>) -> bool {
    match selector {
        Some(chosen) => chosen == ext,
        None => true,
    }
}

/// What is recorded under the selected extension, or under all together.
pub open spec fn recorded(
    rows: Seq<TallyView>,
    selector: Option<Seq<char>>,
    measure: Measure,
) -> nat {
    match selector {
        Some(ext) => recorded_for(rows, ext, measure),
        None => recorded_total(rows, measure),
    }
}

/// Counting a file under `ext` adds it to every selection that takes in
/// `ext`, and to no other.
pub proof fn lemma_with_file_recorded(
    rows: Seq<TallyView>,
    ext: Seq<char>,
    size: nat,
    selector: Option<Seq<char>>,
    measure: Measure,
)
    ensures
        recorded(with_file(rows, ext, size), selector, measure) == recorded(rows, selector, measure)
            + if selects(selector, ext) {
            measure.of_file(size)
        } else {
            0
        },
{
    match selector {
        Some(chosen) => lemma_with_file(rows, ext, size, chosen, measure),
        None => lemma_with_file(rows, ext, size, ext, measure),
    }
}

/// What is recorded under one extension is part of the total.
pub proof fn lemma_recorded_within_total(rows: Seq<TallyView>, ext: Seq<char>, measure: Measure)
    ensures
        recorded_for(rows, ext, measure) <= recorded_total(rows, measure),
{
    lemma_row_index(rows, ext);
    let i = row_index(rows, ext);
    if i >= 0 {
        lemma_total_update(rows, i, rows[i], measure);
    }
}

/// The metrics table of one scan. Rows stand in the order in which their
/// extensions were first met.
#[derive(Debug, PartialEq, Eq)]
pub struct MetricsTable {
    rows: Vec<Tally>,
    files: u64,
    bytes: u64,
}

/// The rows as mathematical values.
pub open spec fn tally_views(rows: Seq<Tally>) -> Seq<TallyView> {
    Seq::new(rows.len(), |i: int| rows[i]@)
}

impl View for MetricsTable {
    type V = Seq<TallyView>;

    closed spec fn view(&self) -> Seq<TallyView> {
        tally_views(self.rows@)
    }
}

impl MetricsTable {
    /// The table's invariant: no extension has two rows, and the running
    /// totals are those of the rows.
    pub closed spec fn wf(&self) -> bool {
        &&& distinct_rows(self@)
        &&& self.files == recorded_total(self@, Measure::Files)
        &&& self.bytes == recorded_total(self@, Measure::Bytes)
    }

    /// In a well-formed table every amount fits in 64 bits.
    pub proof fn lemma_bounded(&self, ext: Seq<char>, measure: Measure)
        requires
            self.wf(),
        ensures
            recorded_for(self@, ext, measure) <= recorded_total(self@, measure) <= u64::MAX,
    {
        lemma_recorded_within_total(self@, ext, measure);
    }

    /// Whether one more file of `size` bytes can be counted.
    pub open spec fn can_record(&self, size: u64) -> bool {
        has_room(self@, size)
    }

    /// An empty table.
    pub fn new() -> (table: MetricsTable)
        ensures
            table.wf(),
            table@ == Seq::<TallyView>::empty(),
    {
        MetricsTable { rows: Vec::new(), files: 0, bytes: 0 }
    }

    /// Decides `can_record`.
    pub fn fits(&self, size: u64) -> (ok: bool)
        requires
            self.wf(),
        ensures
            ok == self.can_record(size),
    {
        self.files < u64::MAX && size <= u64::MAX - self.bytes
    }

    /// Position of the row of `ext`.
    fn find(&self, ext: &String) -> (found: Option<usize>)
        requires
            self.wf(),
        ensures
            match found {
                Some(i) => i < self.rows.len() && i == row_index(self@, ext@),
                None => row_index(self@, ext@) == -1,
            },
    {
        let mut i: usize = 0;
        while i < self.rows.len()
            invariant
                i <= self.rows.len(),
                self.wf(),
                forall|j: int| 0 <= j < i ==> (#[trigger] self@[j]).extension != ext@,
            decreases self.rows.len() - i,
        {
            if self.rows[i].extension == *ext {
                proof {
                    lemma_row_index_unique(self@, i as int);
                }
                return Some(i);
            }
            i = i + 1;
        }
        proof {
            lemma_row_index(self@, ext@);
        }
        None
    }

    /// Counts one file of `size` bytes under `ext`.
    pub fn record(&mut self, ext: &String, size: u64)
        requires
            old(self).wf(),
            old(self).can_record(size),
        ensures
            final(self).wf(),
            final(self)@ == with_file(old(self)@, ext@, size as nat),
    {
        proof {
            lemma_with_file_distinct(self@, ext@, size as nat);
            lemma_with_file(self@, ext@, size as nat, ext@, Measure::Files);
            lemma_with_file(self@, ext@, size as nat, ext@, Measure::Bytes);
            self.lemma_bounded(ext@, Measure::Files);
            self.lemma_bounded(ext@, Measure::Bytes);
        }
        match self.find(ext) {
            Some(i) => {
                let row = &self.rows[i];
                let grown = Tally {
                    extension: ext.clone(),
                    count: row.count + 1,
                    size: row.size + size,
                };
                self.rows.set(i, grown);
            },
            None => {
                self.rows.push(Tally { extension: ext.clone(), count: 1, size: size });
            },
        }
        self.files = self.files + 1;
        self.bytes = self.bytes + size;
        assert(self@ =~= with_file(old(self)@, ext@, size as nat));
    }

    /// The count and the aggregate size recorded under `ext`, if any file was
    /// counted under it.
    pub fn lookup(&self, ext: &String) -> (found: Option<(u64, u64)>)
        requires
            self.wf(),
        ensures
            match found {
                Some((count, size)) => row_index(self@, ext@) >= 0 && count == recorded_for(
                    self@,
                    ext@,
                    Measure::Files,
                ) && size == recorded_for(self@, ext@, Measure::Bytes),
                None => row_index(self@, ext@) == -1,
            },
    {
        match self.find(ext) {
            Some(i) => Some((self.rows[i].count, self.rows[i].size)),
            None => None,
        }
    }

    /// The rows, in the order in which their extensions were first met.
    pub fn rows(&self) -> (rows: &Vec<Tally>)
        ensures
            tally_views(rows@) == self@,
    {
        &self.rows
    }

    /// The number of files counted under all extensions together.
    pub fn total_files(&self) -> (total: u64)
        requires
            self.wf(),
        ensures
            total == recorded_total(self@, Measure::Files),
    {
        self.files
    }

    /// The number of bytes counted under all extensions together.
    pub fn total_size(&self) -> (total: u64)
        requires
            self.wf(),
        ensures
            total == recorded_total(self@, Measure::Bytes),
    {
        self.bytes
    }
}

} // verus!
