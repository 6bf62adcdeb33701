use std::sync::Arc;
use std::time::Duration;

use vstd::prelude::*;

use crate::cell::{GraphemeId, HyperlinkId};
use crate::geometry::{CursorState, Point, Size};
use crate::style::Style;

verus! {

/// Resolved content in a terminal-independent frame patch.
///
/// Renderer-generated grapheme IDs remain associated with the same text within
/// that renderer's patch stream. Manually constructed patch streams must
/// preserve the same identity-to-text mapping across patches.
#[derive(Clone, Debug, Eq, PartialEq)]
pub enum PatchCellContent {
    /// A visually empty cell.
    Empty,
    /// A complete grapheme at its leading cell.
    Grapheme {
        /// Stable identity used for diagnostics and caching.
        id: GraphemeId,
        /// Shared UTF-8 grapheme text.
        text: Arc<str>,
        /// Number of occupied terminal cells.
        width: u16,
    },
    /// A continuation cell for a wide grapheme.
    ///
    /// Within a [`CellRun`], this is always covered by the preceding matching
    /// [`PatchCellContent::Grapheme`].
    Continuation {
        /// Stable grapheme identity.
        id: GraphemeId,
        /// Cell offset from the leading cell.
        offset: u16,
    },
}

/// One resolved cell in a frame patch.
#[derive(Clone, Debug, Eq, PartialEq)]
pub struct PatchCell {
    /// Resolved cell content.
    pub content: PatchCellContent,
    /// Cell style.
    pub style: Style,
    /// Optional hyperlink identity.
    pub hyperlink: Option<HyperlinkId>,
}

/// A contiguous run of changed cells on one row.
///
/// Wide grapheme spans are atomic: a `Grapheme` with width `n` is immediately
/// followed by its `n - 1` matching `Continuation` cells in this same run.
#[derive(Clone, Debug, Eq, PartialEq)]
pub struct CellRun {
    /// Position of the first cell.
    pub position: Point,
    /// Changed cells in left-to-right order.
    pub cells: Vec<PatchCell>,
}

/// Terminal-independent changes between two logical frames.
///
/// Runs are row-major and non-overlapping. A full repaint of a nonempty frame
/// contains exactly one complete run per row.
#[derive(Clone, Debug, Eq, PartialEq)]
pub struct FramePatch {
    /// Target frame size.
    pub size: Size,
    /// Contiguous changed cell runs.
    pub runs: Vec<CellRun>,
    /// Desired cursor state after applying the patch.
    pub cursor: CursorState,
    /// Whether the cursor differs from the committed state.
    pub cursor_changed: bool,
    /// Whether this patch describes a complete repaint.
    pub full_repaint: bool,
}

/// A violation of the public [`FramePatch`] cell-run contract.
#[derive(Clone, Copy, Debug, Eq, PartialEq, Structural)]
pub enum FramePatchValidationError {
    /// A run contains no cells.
    EmptyRun {
        /// Index of the invalid run.
        run: usize,
    },
    /// A run starts outside the target frame.
    RunOutOfBounds {
        /// Index of the invalid run.
        run: usize,
        /// Invalid run origin.
        position: Point,
    },
    /// A run extends beyond the target row.
    RunDoesNotFit {
        /// Index of the invalid run.
        run: usize,
        /// Number of cells in the run.
        cells: usize,
    },
    /// A run overlaps the preceding run on the same row.
    OverlappingRuns {
        /// Index of the preceding run.
        previous_run: usize,
        /// Index of the overlapping run.
        run: usize,
    },
    /// A run appears before the preceding run in row-major order.
    RunsOutOfOrder {
        /// Index of the preceding run.
        previous_run: usize,
        /// Index of the out-of-order run.
        run: usize,
    },
    /// A nonempty full repaint does not cover every cell exactly once.
    IncompleteFullRepaint,
    /// A leading grapheme has zero width.
    ZeroWidthGrapheme {
        /// Index of the invalid run.
        run: usize,
        /// Index of the invalid cell within the run.
        cell: usize,
    },
    /// A leading grapheme is not followed by its complete continuation span.
    IncompleteGrapheme {
        /// Index of the invalid run.
        run: usize,
        /// Index of the leading cell within the run.
        cell: usize,
        /// Declared grapheme width.
        width: u16,
    },
    /// A continuation is isolated or does not match its leading grapheme.
    InvalidContinuation {
        /// Index of the invalid run.
        run: usize,
        /// Index of the continuation within the run.
        cell: usize,
    },
}

// ---------------------------------------------------------------------------
// Specification of the cell-run contract.
// ---------------------------------------------------------------------------

/// Whether a run's origin lies inside the target frame.
pub open spec fn run_in_bounds(run: CellRun, size: Size) -> bool {
    0 <= run.position.x < size.width && 0 <= run.position.y < size.height
}

/// Whether a run's cells fit between its origin and the end of its row.
pub open spec fn run_fits(run: CellRun, size: Size) -> bool {
    run.cells@.len() <= size.width - run.position.x
}

/// Column one past the last cell of a run.
pub open spec fn run_end(run: CellRun) -> int {
    run.position.x + run.cells@.len()
}

/// Whether `run` shares a cell with `previous` on the same row.
pub open spec fn runs_overlap(previous: CellRun, run: CellRun) -> bool {
    &&& run.position.y == previous.position.y
    &&& run.position.x < run_end(previous)
    &&& run_end(run) > previous.position.x
}

/// Whether `run` does not come strictly after `previous` in row-major order.
pub open spec fn run_out_of_order(previous: CellRun, run: CellRun) -> bool {
    ||| run.position.y < previous.position.y
    ||| (run.position.y == previous.position.y && run.position.x < run_end(previous))
}

/// Whether `cell` is the continuation at `offset` of a grapheme `id` led by `lead`.
pub open spec fn continues(lead: PatchCell, cell: PatchCell, id: GraphemeId, offset: int) -> bool {
    &&& cell.content matches PatchCellContent::Continuation { id: cid, offset: coff }
        && cid == id && coff == offset
    &&& cell.style == lead.style
    &&& cell.hyperlink == lead.hyperlink
}

/// The first offset in `from..width` whose cell does not continue the grapheme
/// led by `cells[lead]`.
pub open spec fn first_broken_continuation(
    cells: Seq<PatchCell>,
    lead: int,
    id: GraphemeId,
    from: int,
    width: int,
) -> Option<int>
    decreases width - from,
{
    if from >= width {
        None
    } else if !continues(cells[lead], cells[lead + from], id, from) {
        Some(from)
    } else {
        first_broken_continuation(cells, lead, id, from + 1, width)
    }
}

/// The first violation of the atomic-span contract among the cells at and
/// after the leading cell `from` of run `run`.
pub open spec fn span_error(cells: Seq<PatchCell>, from: int, run: int) -> Option<
    FramePatchValidationError,
>
    decreases cells.len() - from,
{
    if from < 0 || from >= cells.len() {
        None
    } else {
        match cells[from].content {
            PatchCellContent::Empty => span_error(cells, from + 1, run),
            PatchCellContent::Continuation { .. } => Some(
                FramePatchValidationError::InvalidContinuation {
                    run: run as usize,
                    cell: from as usize,
                },
            ),
            PatchCellContent::Grapheme { id, width, .. } => if width == 0 {
                Some(
                    FramePatchValidationError::ZeroWidthGrapheme {
                        run: run as usize,
                        cell: from as usize,
                    },
                )
            } else if from + width > cells.len() {
                Some(
                    FramePatchValidationError::IncompleteGrapheme {
                        run: run as usize,
                        cell: from as usize,
                        width,
                    },
                )
            } else {
                match first_broken_continuation(cells, from, id, 1, width as int) {
                    Some(offset) => Some(
                        FramePatchValidationError::InvalidContinuation {
                            run: run as usize,
                            cell: (from + offset) as usize,
                        },
                    ),
                    None => span_error(cells, from + width, run),
                }
            },
        }
    }
}

/// The violation reported for run `r` given its predecessor, if any.
pub open spec fn run_error(patch: FramePatch, r: int) -> Option<FramePatchValidationError> {
    let run = patch.runs@[r];
    if run.cells@.len() == 0 {
        Some(FramePatchValidationError::EmptyRun { run: r as usize })
    } else if !run_in_bounds(run, patch.size) {
        Some(FramePatchValidationError::RunOutOfBounds { run: r as usize, position: run.position })
    } else if !run_fits(run, patch.size) {
        Some(
            FramePatchValidationError::RunDoesNotFit {
                run: r as usize,
                cells: run.cells@.len() as usize,
            },
        )
    } else if r > 0 && runs_overlap(patch.runs@[r - 1], run) {
        Some(
            FramePatchValidationError::OverlappingRuns {
                previous_run: (r - 1) as usize,
                run: r as usize,
            },
        )
    } else if r > 0 && run_out_of_order(patch.runs@[r - 1], run) {
        Some(
            FramePatchValidationError::RunsOutOfOrder {
                previous_run: (r - 1) as usize,
                run: r as usize,
            },
        )
    } else {
        span_error(run.cells@, 0, r)
    }
}

/// Whether the patch repaints a nonempty frame.
pub open spec fn repaints_nonempty_frame(patch: FramePatch) -> bool {
    patch.full_repaint && patch.size.width != 0 && patch.size.height != 0
}

/// Whether the runs are exactly one complete run per row, in row order.
pub open spec fn covers_every_row(patch: FramePatch) -> bool {
    &&& patch.runs@.len() == patch.size.height
    &&& forall|y: int|
        0 <= y < patch.runs@.len() ==> {
            &&& (#[trigger] patch.runs@[y]).position == Point { x: 0, y: y as i32 }
            &&& patch.runs@[y].cells@.len() == patch.size.width
        }
}

/// The first violation among runs `r..`, then the full-repaint requirement.
pub open spec fn error_from(patch: FramePatch, r: int) -> Option<FramePatchValidationError>
    decreases patch.runs@.len() - r,
{
    if r < 0 {
        None
    } else if r >= patch.runs@.len() {
        if repaints_nonempty_frame(patch) && !covers_every_row(patch) {
            Some(FramePatchValidationError::IncompleteFullRepaint)
        } else {
            None
        }
    } else {
        match run_error(patch, r) {
            Some(error) => Some(error),
            None => error_from(patch, r + 1),
        }
    }
}

/// The violation that validation reports for `patch`, if any.
pub open spec fn patch_error(patch: FramePatch) -> Option<FramePatchValidationError> {
    error_from(patch, 0)
}

/// Whether applying the patch requires no terminal output.
pub open spec fn patch_is_empty(patch: FramePatch) -> bool {
    patch.runs@.len() == 0 && !patch.cursor_changed && !repaints_nonempty_frame(patch)
}

proof fn lemma_broken_continuation_range(
    cells: Seq<PatchCell>,
    lead: int,
    id: GraphemeId,
    from: int,
    width: int,
)
    ensures
        first_broken_continuation(cells, lead, id, from, width) matches Some(offset) ==> from
            <= offset < width,
    decreases width - from,
{
    if from < width {
        lemma_broken_continuation_range(cells, lead, id, from + 1, width);
    }
}

proof fn lemma_error_from_skips_valid_runs(patch: FramePatch, k: int)
    requires
        0 <= k <= patch.runs@.len(),
        forall|r: int| 0 <= r < k ==> #[trigger] run_error(patch, r) is None,
    ensures
        error_from(patch, 0) == error_from(patch, k),
    decreases k,
{
    if k > 0 {
        lemma_error_from_skips_valid_runs(patch, k - 1);
        assert(run_error(patch, k - 1) is None);
    }
}

impl FramePatch {
    /// Returns whether applying the patch requires no terminal output.
    pub fn is_empty(&self) -> (empty: bool)
        ensures
            empty == patch_is_empty(*self),
    {
        let nonempty_full_repaint = self.full_repaint && self.size.width != 0
            && self.size.height != 0;
        self.runs.len() == 0 && !self.cursor_changed && !nonempty_full_repaint
    }

    /// Validates run geometry and the atomic wide-grapheme contract.
    ///
    /// Runs are checked in order; the first violation found is reported.
    pub fn validate(&self) -> (result: Result<(), FramePatchValidationError>)
        ensures
            result == match patch_error(*self) {
                Some(error) => Err(error),
                None => Ok(()),
            },
    {
        let mut run_index: usize = 0;
        while run_index < self.runs.len()
            invariant
                0 <= run_index <= self.runs@.len(),
                forall|r: int| 0 <= r < run_index ==> #[trigger] run_error(*self, r) is None,
            decreases self.runs@.len() - run_index,
        {
            if let Some(error) = self.check_run(run_index) {
                proof {
                    lemma_error_from_skips_valid_runs(*self, run_index as int);
                }
                return Err(error);
            }
            run_index += 1;
        }
        proof {
            lemma_error_from_skips_valid_runs(*self, self.runs@.len() as int);
        }
        if self.full_repaint && self.size.width != 0 && self.size.height != 0 {
            if !self.covers_every_row() {
                return Err(FramePatchValidationError::IncompleteFullRepaint);
            }
        }
        Ok(())
    }

    fn covers_every_row(&self) -> (complete: bool)
        ensures
            complete == covers_every_row(*self),
    {
        if self.runs.len() != self.size.height as usize {
            return false;
        }
        let mut y: usize = 0;
        while y < self.runs.len()
            invariant
                self.runs@.len() == self.size.height,
                0 <= y <= self.runs@.len(),
                forall|row: int|
                    0 <= row < y ==> {
                        &&& (#[trigger] self.runs@[row]).position == Point { x: 0, y: row as i32 }
                        &&& self.runs@[row].cells@.len() == self.size.width
                    },
            decreases self.runs@.len() - y,
        {
            let run = &self.runs[y];
            if run.position.x != 0 || run.position.y != y as i32
                || run.cells.len() != self.size.width as usize {
                return false;
            }
            y += 1;
        }
        true
    }

    fn check_run(&self, run_index: usize) -> (error: Option<FramePatchValidationError>)
        requires
            run_index < self.runs@.len(),
            run_index > 0 ==> run_error(*self, run_index - 1) is None,
        ensures
            error == run_error(*self, run_index as int),
    {
        let run = &self.runs[run_index];
        if run.cells.len() == 0 {
            return Some(FramePatchValidationError::EmptyRun { run: run_index });
        }
        if run.position.x < 0 || run.position.y < 0 || run.position.x >= self.size.width as i32
            || run.position.y >= self.size.height as i32 {
            return Some(
                FramePatchValidationError::RunOutOfBounds { run: run_index, position: run.position },
            );
        }
        let x = run.position.x as u16;
        if run.cells.len() > (self.size.width - x) as usize {
            return Some(
                FramePatchValidationError::RunDoesNotFit { run: run_index, cells: run.cells.len() },
            );
        }
        if run_index > 0 {
            let previous = &self.runs[run_index - 1];
            let start: i64 = run.position.x as i64;
            let end: i64 = start + run.cells.len() as i64;
            let previous_start: i64 = previous.position.x as i64;
            let previous_end: i64 = previous_start + previous.cells.len() as i64;
            if run.position.y == previous.position.y && start < previous_end && end
                > previous_start {
                return Some(
                    FramePatchValidationError::OverlappingRuns {
                        previous_run: run_index - 1,
                        run: run_index,
                    },
                );
            }
            if run.position.y < previous.position.y || (run.position.y == previous.position.y
                && start < previous_end) {
                return Some(
                    FramePatchValidationError::RunsOutOfOrder {
                        previous_run: run_index - 1,
                        run: run_index,
                    },
                );
            }
        }
        check_spans(&run.cells, run_index)
    }
}

fn check_spans(cells: &Vec<PatchCell>, run_index: usize) -> (error: Option<
    FramePatchValidationError,
>)
    ensures
        error == span_error(cells@, 0, run_index as int),
{
    let mut cell_index: usize = 0;
    while cell_index < cells.len()
        invariant
            0 <= cell_index <= cells@.len(),
            span_error(cells@, 0, run_index as int) == span_error(
                cells@,
                cell_index as int,
                run_index as int,
            ),
        decreases cells@.len() - cell_index,
    {
        let leading = &cells[cell_index];
        match &leading.content {
            PatchCellContent::Empty => {
                cell_index += 1;
            },
            PatchCellContent::Continuation { .. } => {
                return Some(
                    FramePatchValidationError::InvalidContinuation {
                        run: run_index,
                        cell: cell_index,
                    },
                );
            },
            PatchCellContent::Grapheme { id, width, .. } => {
                let width = *width;
                if width == 0 {
                    return Some(
                        FramePatchValidationError::ZeroWidthGrapheme {
                            run: run_index,
                            cell: cell_index,
                        },
                    );
                }
                if width as usize > cells.len() - cell_index {
                    return Some(
                        FramePatchValidationError::IncompleteGrapheme {
                            run: run_index,
                            cell: cell_index,
                            width,
                        },
                    );
                }
                proof {
                    lemma_broken_continuation_range(
                        cells@,
                        cell_index as int,
                        *id,
                        1,
                        width as int,
                    );
                }
                match first_broken_offset(cells, cell_index, *id, width) {
                    Some(offset) => {
                        return Some(
                            FramePatchValidationError::InvalidContinuation {
                                run: run_index,
                                cell: cell_index + offset as usize,
                            },
                        );
                    },
                    None => {},
                }
                cell_index += width as usize;
            },
        }
    }
    None
}

fn first_broken_offset(cells: &Vec<PatchCell>, lead: usize, id: GraphemeId, width: u16) -> (offset:
    Option<u16>)
    requires
        lead + width <= cells@.len(),
        width >= 1,
    ensures
        offset == match first_broken_continuation(cells@, lead as int, id, 1, width as int) {
            Some(o) => Some(o as u16),
            None => None::<u16>,
        },
        offset matches Some(o) ==> 1 <= o < width,
{
    proof {
        lemma_broken_continuation_range(cells@, lead as int, id, 1, width as int);
    }
    let leading = &cells[lead];
    let length = cells.len();
    let mut offset: u16 = 1;
    while offset < width
        invariant
            1 <= offset <= width,
            lead + width <= cells@.len(),
            length == cells@.len(),
            leading == cells@[lead as int],
            first_broken_continuation(cells@, lead as int, id, 1, width as int)
                == first_broken_continuation(cells@, lead as int, id, offset as int, width as int),
        decreases width - offset,
    {
        let index: usize = lead + offset as usize;
        let continuation = &cells[index];
        let matches = match &continuation.content {
            PatchCellContent::Continuation { id: continuation_id, offset: continuation_offset } => {
                *continuation_id == id && *continuation_offset == offset
            },
            _ => false,
        } && continuation.style == leading.style && continuation.hyperlink == leading.hyperlink;
        if !matches {
            return Some(offset);
        }
        offset += 1;
    }
    None
}

/// Failure to commit a prepared UI and renderer transaction.
#[derive(Clone, Copy, Debug, Eq, PartialEq, Structural)]
pub enum UiCommitError {
    /// Retained interaction state changed after frame preparation.
    StaleTree,
    /// Renderer state changed or the frame belongs to another renderer.
    Renderer(CommitError),
}

/// Time spent in the opt-in phases of renderer frame preparation.
#[derive(Clone, Copy, Debug, Eq, PartialEq)]
pub struct FramePreparationTimings {
    /// Time spent allocating frame storage and painting.
    pub paint: Duration,
    /// Time spent diffing the painted frame and constructing the prepared frame.
    pub diff: Duration,
}

/// Opaque identity for one committed renderer state.
#[derive(Clone, Copy, Debug, Eq, Hash, PartialEq, Structural)]
pub struct RendererStateId {
    renderer_id: u64,
    generation: u64,
}

/// Failure to commit a frame against the renderer state that prepared it.
#[derive(Clone, Copy, Debug, Eq, PartialEq, Structural)]
pub enum CommitError {
    /// The frame was prepared by another renderer instance.
    WrongRenderer,
    /// Renderer state advanced after this frame was prepared.
    StaleFrame,
}

impl RendererStateId {
    /// Identity of the renderer.
    pub closed spec fn renderer(self) -> u64 {
        self.renderer_id
    }

    /// Number of state changes the renderer had made.
    pub closed spec fn spec_generation(self) -> u64 {
        self.generation
    }

    /// The state of renderer `renderer_id` after `generation` changes.
    pub fn new(renderer_id: u64, generation: u64) -> (id: Self)
        ensures
            id.renderer() == renderer_id,
            id.spec_generation() == generation,
    {
        RendererStateId { renderer_id, generation }
    }

    /// The state after one more commit or invalidation.
    pub fn advanced(self) -> (id: Self)
        ensures
            id.renderer() == self.renderer(),
            id.spec_generation() == if self.spec_generation() == u64::MAX {
                0
            } else {
                self.spec_generation() + 1
            },
    {
        RendererStateId { renderer_id: self.renderer_id, generation: self.generation.wrapping_add(1) }
    }

    /// Decides whether a frame prepared at state `prepared` may commit on top
    /// of the current state `self`.
    pub fn check_commit(self, prepared: RendererStateId) -> (result: Result<(), CommitError>)
        ensures
            prepared.renderer() != self.renderer() ==> result == Err::<(), _>(
                CommitError::WrongRenderer,
            ),
            prepared.renderer() == self.renderer() && prepared.spec_generation()
                != self.spec_generation() ==> result == Err::<(), _>(CommitError::StaleFrame),
            prepared == self ==> result is Ok,
    {
        if prepared.renderer_id != self.renderer_id {
            return Err(CommitError::WrongRenderer);
        }
        if prepared.generation != self.generation {
            return Err(CommitError::StaleFrame);
        }
        Ok(())
    }
}


/// Whether `cells`, from `from` on, are a sequence of empty cells and whole
/// graphemes: a grapheme of width `k > 0` followed by its `k - 1` matching
/// continuations, each with the grapheme's style and hyperlink.
pub open spec fn grapheme_spans(cells: Seq<PatchCell>, from: int) -> bool
    decreases cells.len() - from,
{
    if from < 0 || from >= cells.len() {
        true
    } else {
        match cells[from].content {
            PatchCellContent::Empty => grapheme_spans(cells, from + 1),
            PatchCellContent::Continuation { .. } => false,
            PatchCellContent::Grapheme { id, width, .. } => {
                &&& width > 0
                &&& from + width <= cells.len()
                &&& forall|offset: int|
                    1 <= offset < width ==> #[trigger] continues(
                        cells[from],
                        cells[from + offset],
                        id,
                        offset,
                    )
                &&& grapheme_spans(cells, from + width)
            },
        }
    }
}

/// Whether `run` comes after `previous` in row-major order without sharing a cell.
pub open spec fn follows(previous: CellRun, run: CellRun) -> bool {
    ||| previous.position.y < run.position.y
    ||| (previous.position.y == run.position.y && run.position.x >= run_end(previous))
}

/// The conditions of a valid patch: every run nonempty, starting inside the
/// frame and fitting its row, made of whole graphemes, and after its
/// predecessor; a full repaint of a nonempty frame is one complete run per row.
pub open spec fn patch_valid(patch: FramePatch) -> bool {
    &&& forall|i: int|
        0 <= i < patch.runs@.len() ==> {
            &&& (#[trigger] patch.runs@[i]).cells@.len() > 0
            &&& run_in_bounds(patch.runs@[i], patch.size)
            &&& run_fits(patch.runs@[i], patch.size)
            &&& grapheme_spans(patch.runs@[i].cells@, 0)
        }
    &&& forall|i: int| 0 < i < patch.runs@.len() ==> follows(patch.runs@[i - 1], #[trigger] patch.runs@[i])
    &&& repaints_nonempty_frame(patch) ==> covers_every_row(patch)
}

/// No continuation is broken exactly when every offset continues.
proof fn lemma_no_broken_continuation(
    cells: Seq<PatchCell>,
    lead: int,
    id: GraphemeId,
    from: int,
    width: int,
)
    ensures
        first_broken_continuation(cells, lead, id, from, width) is None <==> forall|offset: int|
            from <= offset < width ==> #[trigger] continues(cells[lead], cells[lead + offset], id, offset),
    decreases width - from,
{
    if from < width {
        lemma_no_broken_continuation(cells, lead, id, from + 1, width);
    }
}

/// A run's cells pass the span check exactly when they are whole graphemes.
proof fn lemma_span_error_none(cells: Seq<PatchCell>, from: int, run: int)
    ensures
        span_error(cells, from, run) is None <==> grapheme_spans(cells, from),
    decreases cells.len() - from,
{
    if 0 <= from < cells.len() {
        match cells[from].content {
            PatchCellContent::Empty => {
                lemma_span_error_none(cells, from + 1, run);
            },
            PatchCellContent::Continuation { .. } => {},
            PatchCellContent::Grapheme { id, width, .. } => {
                if width > 0 && from + width <= cells.len() {
                    lemma_no_broken_continuation(cells, from, id, 1, width as int);
                    lemma_span_error_none(cells, from + width, run);
                }
            },
        }
    }
}

/// Runs from `r` on pass exactly when each passes on its own and, at the
/// end, a full repaint covers every row.
proof fn lemma_error_from_none(patch: FramePatch, r: int)
    requires
        0 <= r <= patch.runs@.len(),
    ensures
        error_from(patch, r) is None <==> {
            &&& forall|i: int| r <= i < patch.runs@.len() ==> #[trigger] run_error(patch, i) is None
            &&& repaints_nonempty_frame(patch) ==> covers_every_row(patch)
        },
    decreases patch.runs@.len() - r,
{
    if r < patch.runs@.len() {
        lemma_error_from_none(patch, r + 1);
        if error_from(patch, r + 1) is None && run_error(patch, r) is None {
            assert forall|i: int| r <= i < patch.runs@.len() implies #[trigger] run_error(patch, i) is None by {
                if i > r {
                    assert(r + 1 <= i);
                }
            }
        }
    }
}

/// Validation succeeds exactly when the patch meets the conditions of a
/// valid patch.
pub proof fn lemma_validate_succeeds_exactly_when_valid(patch: FramePatch)
    ensures
        patch_error(patch) is None <==> patch_valid(patch),
{
    lemma_error_from_none(patch, 0);
    assert forall|i: int| 0 <= i < patch.runs@.len() implies (#[trigger] run_error(patch, i) is None <==> {
        &&& patch.runs@[i].cells@.len() > 0
        &&& run_in_bounds(patch.runs@[i], patch.size)
        &&& run_fits(patch.runs@[i], patch.size)
        &&& grapheme_spans(patch.runs@[i].cells@, 0)
        &&& i > 0 ==> follows(patch.runs@[i - 1], patch.runs@[i])
    }) by {
        lemma_span_error_none(patch.runs@[i].cells@, 0, i);
    }
    if patch_valid(patch) {
        assert forall|i: int| 0 <= i < patch.runs@.len() implies #[trigger] run_error(patch, i) is None by {
            assert(patch.runs@[i].cells@.len() > 0);
            if i > 0 {
                assert(follows(patch.runs@[i - 1], patch.runs@[i]));
            }
        }
    }
    if patch_error(patch) is None {
        assert forall|i: int| 0 < i < patch.runs@.len() implies follows(patch.runs@[i - 1], #[trigger] patch.runs@[i]) by {
            assert(run_error(patch, i) is None);
        }
        assert forall|i: int| 0 <= i < patch.runs@.len() implies {
            &&& (#[trigger] patch.runs@[i]).cells@.len() > 0
            &&& run_in_bounds(patch.runs@[i], patch.size)
            &&& run_fits(patch.runs@[i], patch.size)
            &&& grapheme_spans(patch.runs@[i].cells@, 0)
        } by {
            assert(run_error(patch, i) is None);
        }
    }
}

} // verus!
