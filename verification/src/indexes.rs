use vstd::prelude::*;
use crate::error::Error;
use crate::schema::PrimitiveType;

verus! {

/// A run of rows: `[start, start + length)`.
#[derive(Debug, Clone, Copy, PartialEq, Eq, Structural)]
pub struct Interval {
    pub start: usize,
    pub length: usize,
}

impl Interval {
    /// The `length` rows from `start` on.
    pub fn new(start: usize, length: usize) -> (r: Self)
        ensures
            r.start == start,
            r.length == length,
    {
        Self { start, length }
    }

    /// One past the last row of the interval.
    pub open spec fn end(self) -> int {
        self.start + self.length
    }

    /// `row` is one of the interval's rows.
    pub open spec fn contains_row(self, row: int) -> bool {
        self.start <= row < self.end()
    }

    /// The two intervals share at least one row.
    pub open spec fn overlaps(self, other: Interval) -> bool {
        &&& self.start < other.end()
        &&& other.start < self.end()
        &&& self.length > 0
        &&& other.length > 0
    }

    /// Whether the two intervals share at least one row.
    pub fn intersects(&self, other: &Interval) -> (r: bool)
        ensures
            r == self.overlaps(*other),
    {
        self.length > 0 && other.length > 0
            && (self.start < other.start || self.start - other.start < other.length)
            && (other.start < self.start || other.start - self.start < self.length)
    }
}

/// Where one page of a column chunk lies in the file, and its first row.
#[derive(Debug, Clone, Copy, PartialEq, Eq, Structural)]
pub struct PageLocation {
    /// Absolute byte offset of the page in the file.
    pub offset: i64,
    /// Bytes the page takes in the file, header included.
    pub compressed_page_size: i32,
    /// Ordinal, within the column chunk, of the page's first row.
    pub first_row_index: i64,
}

/// What is known of the values of one page. `None` means not computed.
#[derive(Debug, Clone, PartialEq, Eq)]
pub struct PageIndex<T> {
    /// The smallest value in the page.
    pub min: Option<T>,
    /// The largest value in the page.
    pub max: Option<T>,
    /// How many of the page's values are null.
    pub null_count: Option<i64>,
}

/// How the pages' bounds run along a column chunk, as its writer declared it.
#[derive(Debug, Clone, Copy, PartialEq, Eq, Structural)]
pub enum BoundaryOrder {
    Unordered,
    Ascending,
    Descending,
}

/// The column index of one column chunk: one [`PageIndex`] for each page, in
/// file order.
#[derive(Debug, Clone, PartialEq, Eq)]
pub struct NativeIndex<T> {
    pub primitive_type: PrimitiveType,
    pub indexes: Vec<PageIndex<T>>,
    pub boundary_order: BoundaryOrder,
}

/// A page chosen by [`select_pages`], with all the rows it holds.
#[derive(Debug, Clone, Copy, PartialEq, Eq, Structural)]
pub struct SelectedPage {
    pub location: PageLocation,
    pub rows: Interval,
}

/// The row at which page `i` ends: the next page's first row, or the chunk's end.
pub open spec fn page_end(locations: Seq<PageLocation>, total_rows: int, i: int) -> int {
    if i + 1 < locations.len() {
        locations[i + 1].first_row_index as int
    } else {
        total_rows
    }
}

/// The rows that page `i` covers.
pub open spec fn page_rows(locations: Seq<PageLocation>, total_rows: int, i: int) -> Interval {
    Interval {
        start: locations[i].first_row_index as usize,
        length: (page_end(locations, total_rows, i) - locations[i].first_row_index) as usize,
    }
}

/// The offset index is usable: offsets and sizes are non-negative, offsets and
/// first rows strictly increase, and no page starts after the chunk's last row.
pub open spec fn locations_valid(locations: Seq<PageLocation>, total_rows: int) -> bool {
    &&& forall|i: int|
        0 <= i < locations.len() ==> {
            &&& (#[trigger] locations[i]).offset >= 0
            &&& locations[i].compressed_page_size >= 0
            &&& 0 <= locations[i].first_row_index <= total_rows
        }
    &&& forall|i: int, j: int|
        0 <= i < j < locations.len() ==> {
            &&& (#[trigger] locations[i]).offset < (#[trigger] locations[j]).offset
            &&& locations[i].first_row_index < locations[j].first_row_index
        }
}

/// Every requested interval is non-empty and lies within the chunk's rows.
pub open spec fn requested_valid(requested: Seq<Interval>, total_rows: int) -> bool {
    forall|j: int|
        0 <= j < requested.len() ==> (#[trigger] requested[j]).length > 0 && requested[j].end()
            <= total_rows
}

/// Every page of the chunk, in file order, with the rows it covers.
pub open spec fn all_pages(locations: Seq<PageLocation>, total_rows: int) -> Seq<SelectedPage> {
    Seq::new(
        locations.len(),
        |i: int| SelectedPage { location: locations[i], rows: page_rows(locations, total_rows, i) },
    )
}

/// Some requested interval shares a row with `rows`.
pub open spec fn is_requested(requested: Seq<Interval>, rows: Interval) -> bool {
    exists|j: int| 0 <= j < requested.len() && (#[trigger] requested[j]).overlaps(rows)
}

/// The test that a page holds a requested row.
pub open spec fn wanted(requested: Seq<Interval>) -> spec_fn(SelectedPage) -> bool {
    |p: SelectedPage| is_requested(requested, p.rows)
}

/// The pages of the chunk that hold a requested row, in file order.
pub open spec fn selected_pages(
    requested: Seq<Interval>,
    locations: Seq<PageLocation>,
    total_rows: int,
) -> Seq<SelectedPage> {
    all_pages(locations, total_rows).filter(wanted(requested))
}

/// What [`select_pages`] returns.
pub open spec fn select_pages_spec(
    requested: Seq<Interval>,
    locations: Seq<PageLocation>,
    total_rows: int,
) -> Result<Seq<SelectedPage>, Error> {
    if locations_valid(locations, total_rows) && requested_valid(requested, total_rows) {
        Ok(selected_pages(requested, locations, total_rows))
    } else {
        Err(Error::InvalidParameter)
    }
}

fn check_locations(locations: &[PageLocation], total_rows: usize) -> (ok: bool)
    ensures
        ok == locations_valid(locations@, total_rows as int),
{
    let mut i: usize = 0;
    while i < locations.len()
        invariant
            i <= locations.len(),
            locations_valid(locations@.take(i as int), total_rows as int),
        decreases locations.len() - i,
    {
        let loc = locations[i];
        if loc.offset < 0 || loc.compressed_page_size < 0 || loc.first_row_index < 0
            || loc.first_row_index as u64 > total_rows as u64 {
            proof {
                assert(locations@[i as int] == loc);
            }
            return false;
        }
        if i > 0 {
            let prev = locations[i - 1];
            if prev.offset >= loc.offset || prev.first_row_index >= loc.first_row_index {
                proof {
                    assert(locations@[i as int - 1] == prev);
                    assert(locations@[i as int] == loc);
                }
                return false;
            }
        }
        proof {
            let before = locations@.take(i as int);
            let now = locations@.take(i as int + 1);
            assert forall|a: int, b: int| 0 <= a < b < now.len() implies {
                &&& (#[trigger] now[a]).offset < (#[trigger] now[b]).offset
                &&& now[a].first_row_index < now[b].first_row_index
            } by {
                if b == i {
                    if a < i - 1 {
                        assert(before[a].offset < before[i as int - 1].offset);
                    }
                } else {
                    assert(before[a].offset < before[b].offset);
                }
            }
            assert forall|a: int| 0 <= a < now.len() implies {
                &&& (#[trigger] now[a]).offset >= 0
                &&& now[a].compressed_page_size >= 0
                &&& 0 <= now[a].first_row_index <= total_rows
            } by {
                if a < i {
                    assert(before[a].offset >= 0);
                }
            }
        }
        i += 1;
    }
    proof {
        assert(locations@.take(i as int) =~= locations@);
    }
    true
}

fn check_requested(requested: &[Interval], total_rows: usize) -> (ok: bool)
    ensures
        ok == requested_valid(requested@, total_rows as int),
{
    let mut j: usize = 0;
    while j < requested.len()
        invariant
            j <= requested.len(),
            forall|k: int|
                0 <= k < j ==> (#[trigger] requested@[k]).length > 0 && requested@[k].end()
                    <= total_rows,
        decreases requested.len() - j,
    {
        let iv = requested[j];
        if iv.length == 0 || iv.start > total_rows || iv.length > total_rows - iv.start {
            proof {
                assert(requested@[j as int] == iv);
            }
            return false;
        }
        j += 1;
    }
    true
}

fn any_overlap(requested: &[Interval], rows: &Interval) -> (hit: bool)
    ensures
        hit == is_requested(requested@, *rows),
{
    let mut j: usize = 0;
    while j < requested.len()
        invariant
            j <= requested.len(),
            forall|k: int| 0 <= k < j ==> !(#[trigger] requested@[k]).overlaps(*rows),
        decreases requested.len() - j,
    {
        if requested[j].intersects(rows) {
            return true;
        }
        j += 1;
    }
    false
}

/// The requested intervals are in ascending order and none overlaps another.
pub open spec fn requested_ascending(requested: Seq<Interval>) -> bool {
    forall|a: int, b: int|
        0 <= a < b < requested.len() ==> (#[trigger] requested[a]).end() <= (
        #[trigger] requested[b]).start
}

fn check_ascending(requested: &[Interval], total_rows: usize) -> (ok: bool)
    requires
        requested_valid(requested@, total_rows as int),
    ensures
        ok == requested_ascending(requested@),
{
    let mut j: usize = 0;
    while j < requested.len()
        invariant
            j <= requested.len(),
            requested_valid(requested@, total_rows as int),
            requested_ascending(requested@.take(j as int)),
        decreases requested.len() - j,
    {
        if j > 0 {
            let prev = requested[j - 1];
            if prev.start + prev.length > requested[j].start {
                return false;
            }
        }
        proof {
            let before = requested@.take(j as int);
            let now = requested@.take(j as int + 1);
            assert forall|a: int, b: int| 0 <= a < b < now.len() implies (#[trigger] now[a]).end()
                <= (#[trigger] now[b]).start by {
                if b == j {
                    if a < j - 1 {
                        assert(before[a].end() <= before[j as int - 1].start);
                    }
                } else {
                    assert(before[a].end() <= before[b].start);
                }
            }
        }
        j += 1;
    }
    proof {
        assert(requested@.take(j as int) =~= requested@);
    }
    true
}

/// Moves `from` past the requested intervals that end at or before `row`.
fn skip_finished(requested: &[Interval], total_rows: usize, from: usize, row: usize) -> (j: usize)
    requires
        requested_valid(requested@, total_rows as int),
        from <= requested@.len(),
        forall|k: int| 0 <= k < from ==> (#[trigger] requested@[k]).end() <= row,
    ensures
        from <= j <= requested@.len(),
        forall|k: int| 0 <= k < j ==> (#[trigger] requested@[k]).end() <= row,
        j < requested@.len() ==> requested@[j as int].end() > row,
{
    let mut j: usize = from;
    while j < requested.len() && requested[j].start + requested[j].length <= row
        invariant
            from <= j <= requested@.len(),
            requested_valid(requested@, total_rows as int),
            forall|k: int| 0 <= k < j ==> (#[trigger] requested@[k]).end() <= row,
        decreases requested.len() - j,
    {
        j += 1;
    }
    j
}

/// Chooses, from a column chunk's pages, those that hold a requested row.
///
/// Page `i` covers the rows from its own first row up to the next page's first
/// row, the last page up to `total_rows`. The pages come back in file order,
/// each with all the rows it covers. The request is refused when the offset
/// index is not strictly increasing or reaches past `total_rows`, or when a
/// requested interval is empty or reaches past `total_rows`.
///
/// Requested intervals that ascend without overlap are merged with the pages
/// in one pass. In any other order each page is held against every interval.
pub fn select_pages(requested: &[Interval], locations: &[PageLocation], total_rows: usize) -> (r:
    Result<Vec<SelectedPage>, Error>)
    ensures
        match r {
            Ok(pages) => select_pages_spec(requested@, locations@, total_rows as int) == Ok::<
                Seq<SelectedPage>,
                Error,
            >(pages@),
            Err(e) => select_pages_spec(requested@, locations@, total_rows as int) == Err::<
                Seq<SelectedPage>,
                Error,
            >(e),
        },
{
    if !check_locations(locations, total_rows) || !check_requested(requested, total_rows) {
        return Err(Error::InvalidParameter);
    }
    let ascending = check_ascending(requested, total_rows);
    let ghost pages = all_pages(locations@, total_rows as int);
    let mut out: Vec<SelectedPage> = Vec::new();
    let mut i: usize = 0;
    let mut j: usize = 0;
    proof {
        reveal(Seq::filter);
        assert(pages.take(0).filter(wanted(requested@)) =~= Seq::<SelectedPage>::empty());
    }
    while i < locations.len()
        invariant
            i <= locations.len(),
            j <= requested@.len(),
            locations_valid(locations@, total_rows as int),
            requested_valid(requested@, total_rows as int),
            ascending == requested_ascending(requested@),
            pages == all_pages(locations@, total_rows as int),
            out@ == pages.take(i as int).filter(wanted(requested@)),
            i < locations@.len() ==> forall|k: int|
                0 <= k < j ==> (#[trigger] requested@[k]).end() <= locations@[i as int].first_row_index,
        decreases locations.len() - i,
    {
        let location = locations[i];
        let start = location.first_row_index as usize;
        let end = if i + 1 < locations.len() {
            let next = locations[i + 1];
            proof {
                assert(locations@[i as int].first_row_index < locations@[i as int + 1].first_row_index);
            }
            next.first_row_index as usize
        } else {
            total_rows
        };
        let rows = Interval { start, length: end - start };
        let page = SelectedPage { location, rows };
        let hit = if ascending {
            j = skip_finished(requested, total_rows, j, start);
            let hit = j < requested.len() && start < end && requested[j].start < end;
            proof {
                if hit {
                    assert(requested@[j as int].overlaps(rows));
                } else {
                    assert forall|k: int| 0 <= k < requested@.len() implies !(
                    #[trigger] requested@[k]).overlaps(rows) by {
                        if k > j {
                            assert(requested@[j as int].end() <= requested@[k].start);
                        }
                    }
                }
            }
            hit
        } else {
            any_overlap(requested, &rows)
        };
        proof {
            assert(page == pages[i as int]);
            assert(pages.take(i as int + 1) =~= pages.take(i as int).push(page));
            pages.take(i as int).lemma_filter_push(page, wanted(requested@));
            if i + 1 < locations@.len() {
                assert(locations@[i as int].first_row_index < locations@[i as int + 1].first_row_index);
            }
        }
        if hit {
            out.push(page);
        }
        i += 1;
    }
    proof {
        assert(pages.take(i as int) =~= pages);
    }
    Ok(out)
}

/// Two overlapping intervals have a row in common, and only they do.
pub proof fn lemma_overlap_shares_row(a: Interval, b: Interval)
    ensures
        a.overlaps(b) <==> exists|row: int| a.contains_row(row) && b.contains_row(row),
{
    if a.overlaps(b) {
        let row = if a.start >= b.start {
            a.start as int
        } else {
            b.start as int
        };
        assert(a.contains_row(row) && b.contains_row(row));
    }
}

proof fn lemma_selected_source(
    pages: Seq<SelectedPage>,
    pred: spec_fn(SelectedPage) -> bool,
    n: int,
    k: int,
) -> (i: int)
    requires
        0 <= n <= pages.len(),
        0 <= k < pages.take(n).filter(pred).len(),
    ensures
        k <= i < n,
        pages[i] == pages.take(n).filter(pred)[k],
    decreases n,
{
    if n == 0 {
        reveal(Seq::filter);
        assert(pages.take(n).filter(pred) =~= Seq::<SelectedPage>::empty());
        0
    } else {
        let before = pages.take(n - 1).filter(pred);
        assert(pages.take(n) =~= pages.take(n - 1).push(pages[n - 1]));
        pages.take(n - 1).lemma_filter_push(pages[n - 1], pred);
        pages.take(n - 1).lemma_filter_len(pred);
        if k < before.len() {
            lemma_selected_source(pages, pred, n - 1, k)
        } else {
            n - 1
        }
    }
}

proof fn lemma_selected_sources(
    pages: Seq<SelectedPage>,
    pred: spec_fn(SelectedPage) -> bool,
    n: int,
    a: int,
    b: int,
) -> (r: (int, int))
    requires
        0 <= n <= pages.len(),
        0 <= a < b < pages.take(n).filter(pred).len(),
    ensures
        0 <= r.0 < r.1 < n,
        pages[r.0] == pages.take(n).filter(pred)[a],
        pages[r.1] == pages.take(n).filter(pred)[b],
    decreases n,
{
    if n == 0 {
        reveal(Seq::filter);
        assert(pages.take(n).filter(pred) =~= Seq::<SelectedPage>::empty());
        (0, 0)
    } else {
        let before = pages.take(n - 1).filter(pred);
        assert(pages.take(n) =~= pages.take(n - 1).push(pages[n - 1]));
        pages.take(n - 1).lemma_filter_push(pages[n - 1], pred);
        pages.take(n - 1).lemma_filter_len(pred);
        if b < before.len() {
            lemma_selected_sources(pages, pred, n - 1, a, b)
        } else {
            let i = lemma_selected_source(pages, pred, n - 1, a);
            (i, n - 1)
        }
    }
}

/// A selected page is one of the chunk's pages and shares a row with some
/// requested interval: no page that holds no requested row is selected.
pub proof fn lemma_selection_minimal(
    requested: Seq<Interval>,
    locations: Seq<PageLocation>,
    total_rows: int,
    k: int,
)
    requires
        0 <= k < selected_pages(requested, locations, total_rows).len(),
    ensures
        exists|i: int|
            0 <= i < locations.len() && #[trigger] all_pages(locations, total_rows)[i]
                == selected_pages(requested, locations, total_rows)[k],
        exists|j: int, row: int|
            0 <= j < requested.len() && (#[trigger] requested[j]).contains_row(row)
                && #[trigger] selected_pages(requested, locations, total_rows)[k].rows.contains_row(
                row,
            ),
{
    let pages = all_pages(locations, total_rows);
    let chosen = selected_pages(requested, locations, total_rows);
    assert(pages.take(pages.len() as int) =~= pages);
    let i = lemma_selected_source(pages, wanted(requested), pages.len() as int, k);
    assert(all_pages(locations, total_rows)[i] == chosen[k]);
    pages.lemma_filter_pred(wanted(requested), k);
    assert(is_requested(requested, chosen[k].rows));
    let j = choose|j: int| 0 <= j < requested.len() && (#[trigger] requested[j]).overlaps(chosen[k].rows);
    lemma_overlap_shares_row(requested[j], chosen[k].rows);
    let row = choose|row: int| requested[j].contains_row(row) && chosen[k].rows.contains_row(row);
    assert(requested[j].contains_row(row) && chosen[k].rows.contains_row(row));
}

proof fn lemma_page_of_row(locations: Seq<PageLocation>, total_rows: int, row: int, i: int) -> (k:
    int)
    requires
        locations_valid(locations, total_rows),
        total_rows <= usize::MAX,
        0 <= i < locations.len(),
        locations[i].first_row_index <= row < total_rows,
    ensures
        i <= k < locations.len(),
        page_rows(locations, total_rows, k).contains_row(row),
    decreases locations.len() - i,
{
    if i + 1 < locations.len() && locations[i + 1].first_row_index <= row {
        lemma_page_of_row(locations, total_rows, row, i + 1)
    } else {
        if i + 1 < locations.len() {
            assert(locations[i].first_row_index < locations[i + 1].first_row_index);
        }
        i
    }
}

/// Every requested row that some page of the chunk holds lies in a selected
/// page. The pages hold the rows from the first page's first row on.
pub proof fn lemma_selection_complete(
    requested: Seq<Interval>,
    locations: Seq<PageLocation>,
    total_rows: int,
    j: int,
    row: int,
)
    requires
        total_rows <= usize::MAX,
        locations_valid(locations, total_rows),
        requested_valid(requested, total_rows),
        0 <= j < requested.len(),
        requested[j].contains_row(row),
        locations.len() > 0,
        locations[0].first_row_index <= row,
    ensures
        exists|k: int|
            0 <= k < selected_pages(requested, locations, total_rows).len() && (
            #[trigger] selected_pages(requested, locations, total_rows)[k]).rows.contains_row(row),
{
    let pages = all_pages(locations, total_rows);
    let chosen = selected_pages(requested, locations, total_rows);
    let i = lemma_page_of_row(locations, total_rows, row, 0);
    lemma_overlap_shares_row(requested[j], pages[i].rows);
    assert(requested[j].overlaps(pages[i].rows));
    assert(wanted(requested)(pages[i]));
    pages.lemma_filter_contains(wanted(requested), i);
    let k = choose|k: int| 0 <= k < chosen.len() && chosen[k] == pages[i];
    assert(chosen[k].rows.contains_row(row));
}

/// Selected pages come in file order, whatever the order of the requested
/// intervals: byte offsets and rows strictly increase along the selection.
pub proof fn lemma_selection_in_file_order(
    requested: Seq<Interval>,
    locations: Seq<PageLocation>,
    total_rows: int,
    a: int,
    b: int,
)
    requires
        total_rows <= usize::MAX,
        locations_valid(locations, total_rows),
        0 <= a < b < selected_pages(requested, locations, total_rows).len(),
    ensures
        selected_pages(requested, locations, total_rows)[a].location.offset < selected_pages(
            requested,
            locations,
            total_rows,
        )[b].location.offset,
        selected_pages(requested, locations, total_rows)[a].rows.end() <= selected_pages(
            requested,
            locations,
            total_rows,
        )[b].rows.start,
{
    let pages = all_pages(locations, total_rows);
    let chosen = selected_pages(requested, locations, total_rows);
    assert(pages.take(pages.len() as int) =~= pages);
    let (i, j) = lemma_selected_sources(pages, wanted(requested), pages.len() as int, a, b);
    assert(locations[i].offset < locations[j].offset);
    assert(locations[i].first_row_index < locations[j].first_row_index);
    if i + 1 < j {
        assert(locations[i + 1].first_row_index < locations[j].first_row_index);
    }
}

/// Selection is a function of its inputs: the same request on the same offset
/// index gives the same pages in the same order.
pub proof fn lemma_selection_repeatable(
    requested: Seq<Interval>,
    locations: Seq<PageLocation>,
    total_rows: int,
    first: Result<Seq<SelectedPage>, Error>,
    second: Result<Seq<SelectedPage>, Error>,
)
    requires
        first == select_pages_spec(requested, locations, total_rows),
        second == select_pages_spec(requested, locations, total_rows),
    ensures
        first == second,
{
}

} // verus!
