//! Rewriting fragmented chunk files: each is copied away, deleted, and written back.

use crate::extents::ContiguityResult;
use crate::filesystem::FsError;
use crate::text::{
    decimal,
    has_prefix,
    law_prefix_and_suffix,
    same_text,
    starts_with,
    texts,
    to_chars,
    to_decimal,
};
use vstd::prelude::*;
use vstd::string::StringExecFns;

verus! {

// ---------------------------------------------------------------- which files

/// Whether a file can be rewritten: a chunk file. The game list itself is left alone.
pub open spec fn rewritable(name: Seq<char>, is_file: bool) -> bool {
    is_file && starts_with(name, "ul."@) && name != "ul.cfg"@
}

/// Whether a file can be rewritten.
pub fn is_rewritable(name: &str, is_file: bool) -> (b: bool)
    ensures
        b == rewritable(name@, is_file),
{
    is_file && has_prefix(to_chars(name).as_slice(), "ul.") && !same_text(name, "ul.cfg")
}

/// The size of a file that is to be rewritten: one that can be, could be checked and is not in
/// one piece.
pub fn fragmented_size(
    name: &str,
    is_file: bool,
    check: &Result<ContiguityResult, FsError>,
) -> (size: Option<u64>)
    ensures
        size == (match *check {
            Ok(c) => if rewritable(name@, is_file) && !c.contiguous {
                Some(c.size)
            } else {
                None
            },
            Err(_) => None,
        }),
{
    if !is_rewritable(name, is_file) {
        return None;
    }
    match check {
        Ok(c) => if c.contiguous {
            None
        } else {
            Some(c.size)
        },
        Err(_) => None,
    }
}

/// The name of the copy that a file is kept in meanwhile.
pub fn temp_name(name: &str) -> (temp: String)
    ensures
        temp@ == "ps2bt_"@ + name@ + ".tmp"@,
{
    "ps2bt_".to_owned().concat(name).concat(".tmp")
}

// ---------------------------------------------------------------- one file

/// What became of a file.
#[derive(Debug)]
pub enum FileOutcome {
    /// It was rewritten.
    Moved,
    /// It was left, for this reason.
    Skipped(String),
}

/// What to do next with a file.
#[derive(Debug)]
pub enum DefragStep {
    /// Copy it to its temporary name.
    CopyToTemp,
    /// Find out the size of the copy: zero where that fails.
    StatTemp,
    /// Delete the file.
    DeleteOriginal,
    /// Copy the copy back to the file.
    WriteBack,
    /// Delete the copy, whether or not that works; this is then the outcome.
    RemoveTemp(FileOutcome),
    /// Nothing: this is the outcome.
    Finished(FileOutcome),
}

/// What came of a step.
#[derive(Debug)]
pub enum DefragEvent {
    Done,
    Failed(String),
    /// The size of the copy.
    TempSize(u64),
}

/// What a [`FileOutcome`] holds.
pub enum OutcomeView {
    Moved,
    Skipped(Seq<char>),
}

impl View for FileOutcome {
    type V = OutcomeView;

    open spec fn view(&self) -> OutcomeView {
        match self {
            FileOutcome::Moved => OutcomeView::Moved,
            FileOutcome::Skipped(s) => OutcomeView::Skipped(s@),
        }
    }
}

/// What a [`DefragStep`] holds.
pub enum StepView {
    CopyToTemp,
    StatTemp,
    DeleteOriginal,
    WriteBack,
    RemoveTemp(OutcomeView),
    Finished(OutcomeView),
}

impl View for DefragStep {
    type V = StepView;

    open spec fn view(&self) -> StepView {
        match self {
            DefragStep::CopyToTemp => StepView::CopyToTemp,
            DefragStep::StatTemp => StepView::StatTemp,
            DefragStep::DeleteOriginal => StepView::DeleteOriginal,
            DefragStep::WriteBack => StepView::WriteBack,
            DefragStep::RemoveTemp(o) => StepView::RemoveTemp(o@),
            DefragStep::Finished(o) => StepView::Finished(o@),
        }
    }
}

/// What a [`DefragEvent`] holds.
pub enum EventView {
    Done,
    Failed(Seq<char>),
    TempSize(u64),
}

impl View for DefragEvent {
    type V = EventView;

    open spec fn view(&self) -> EventView {
        match self {
            DefragEvent::Done => EventView::Done,
            DefragEvent::Failed(s) => EventView::Failed(s@),
            DefragEvent::TempSize(n) => EventView::TempSize(*n),
        }
    }
}

/// Whether an event can come of a step: only the copy's size is found out, and only it has no
/// failure.
pub open spec fn fits(step: StepView, event: EventView) -> bool {
    match step {
        StepView::StatTemp => event is TempSize,
        StepView::Finished(_) => false,
        _ => !(event is TempSize),
    }
}

/// The step after an event, for the file `name` of `size` bytes whose copy is at `temp_path`.
pub open spec fn next_step(
    step: StepView,
    event: EventView,
    name: Seq<char>,
    size: u64,
    temp_path: Seq<char>,
) -> StepView {
    match step {
        StepView::CopyToTemp => match event {
            EventView::Failed(e) => StepView::Finished(
                OutcomeView::Skipped(name + ": copy to temp failed: "@ + e),
            ),
            _ => StepView::StatTemp,
        },
        StepView::StatTemp => match event {
            EventView::TempSize(n) => if n == size {
                StepView::DeleteOriginal
            } else {
                StepView::RemoveTemp(
                    OutcomeView::Skipped(
                        name + ": temp copy size mismatch ("@ + decimal(n as nat) + " vs "@
                            + decimal(size as nat) + ")"@,
                    ),
                )
            },
            _ => step,
        },
        StepView::DeleteOriginal => match event {
            EventView::Failed(e) => StepView::RemoveTemp(
                OutcomeView::Skipped(name + ": delete original failed: "@ + e),
            ),
            _ => StepView::WriteBack,
        },
        StepView::WriteBack => match event {
            EventView::Failed(e) => StepView::Finished(
                OutcomeView::Skipped(
                    name + ": write-back failed: "@ + e + " — recovery copy at "@ + temp_path,
                ),
            ),
            _ => StepView::RemoveTemp(OutcomeView::Moved),
        },
        StepView::RemoveTemp(o) => StepView::Finished(o),
        StepView::Finished(_) => step,
    }
}

/// The step after an event.
pub fn advance(
    step: DefragStep,
    event: DefragEvent,
    name: &str,
    size: u64,
    temp_path: &str,
) -> (next: DefragStep)
    requires
        fits(step@, event@),
    ensures
        next@ == next_step(step@, event@, name@, size, temp_path@),
{
    match step {
        DefragStep::CopyToTemp => match event {
            DefragEvent::Failed(e) => DefragStep::Finished(
                FileOutcome::Skipped(
                    name.to_owned().concat(": copy to temp failed: ").concat(e.as_str()),
                ),
            ),
            _ => DefragStep::StatTemp,
        },
        DefragStep::StatTemp => match event {
            DefragEvent::TempSize(n) => if n == size {
                DefragStep::DeleteOriginal
            } else {
                DefragStep::RemoveTemp(
                    FileOutcome::Skipped(
                        name.to_owned().concat(": temp copy size mismatch (").concat(
                            to_decimal(n).as_str(),
                        ).concat(" vs ").concat(to_decimal(size).as_str()).concat(")"),
                    ),
                )
            },
            _ => DefragStep::StatTemp,
        },
        DefragStep::DeleteOriginal => match event {
            DefragEvent::Failed(e) => DefragStep::RemoveTemp(
                FileOutcome::Skipped(
                    name.to_owned().concat(": delete original failed: ").concat(e.as_str()),
                ),
            ),
            _ => DefragStep::WriteBack,
        },
        DefragStep::WriteBack => match event {
            DefragEvent::Failed(e) => DefragStep::Finished(
                FileOutcome::Skipped(
                    name.to_owned().concat(": write-back failed: ").concat(e.as_str()).concat(
                        " — recovery copy at ",
                    ).concat(temp_path),
                ),
            ),
            _ => DefragStep::RemoveTemp(FileOutcome::Moved),
        },
        DefragStep::RemoveTemp(o) => DefragStep::Finished(o),
        DefragStep::Finished(o) => DefragStep::Finished(o),
    }
}

// ---------------------------------------------------------------- all files

/// What rewriting the files of a device came to.
#[derive(Debug)]
pub struct DefragResult {
    pub defragged: u32,
    pub skipped: u32,
    pub bytes_moved: u64,
    pub errors: Vec<String>,
}

/// What a [`DefragResult`] holds.
#[verifier::ext_equal]
pub struct DefragView {
    pub defragged: u32,
    pub skipped: u32,
    pub bytes_moved: u64,
    pub errors: Seq<Seq<char>>,
}

impl View for DefragResult {
    type V = DefragView;

    open spec fn view(&self) -> DefragView {
        DefragView {
            defragged: self.defragged,
            skipped: self.skipped,
            bytes_moved: self.bytes_moved,
            errors: texts(self.errors@),
        }
    }
}

/// The result with one more file, of `size` bytes.
pub open spec fn with_outcome(result: DefragView, outcome: OutcomeView, size: u64) -> DefragView {
    match outcome {
        OutcomeView::Moved => DefragView {
            defragged: (result.defragged + 1) as u32,
            bytes_moved: (result.bytes_moved + size) as u64,
            ..result
        },
        OutcomeView::Skipped(e) => DefragView {
            skipped: (result.skipped + 1) as u32,
            errors: result.errors.push(e),
            ..result
        },
    }
}

impl DefragResult {
    /// A result of no file.
    pub fn new() -> (result: DefragResult)
        ensures
            result@ == (DefragView {
                defragged: 0,
                skipped: 0,
                bytes_moved: 0,
                errors: Seq::empty(),
            }),
    {
        let result = DefragResult { defragged: 0, skipped: 0, bytes_moved: 0, errors: Vec::new() };
        assert(result@.errors =~= Seq::empty());
        result
    }

    /// Takes in what became of one more file, of `size` bytes.
    pub fn record(&mut self, outcome: FileOutcome, size: u64)
        requires
            outcome@ is Moved ==> old(self)@.defragged < u32::MAX && old(self)@.bytes_moved + size
                <= u64::MAX,
            outcome@ is Skipped ==> old(self)@.skipped < u32::MAX,
        ensures
            final(self)@ == with_outcome(old(self)@, outcome@, size),
    {
        match outcome {
            FileOutcome::Moved => {
                self.defragged = self.defragged + 1;
                self.bytes_moved = self.bytes_moved + size;
            },
            FileOutcome::Skipped(e) => {
                self.skipped = self.skipped + 1;
                let ghost before = texts(self.errors@);
                self.errors.push(e);
                assert(texts(self.errors@) =~= before.push(e@));
            },
        }
    }
}

// ---------------------------------------------------------------- laws

/// Where a file's data is: in the file itself, in its copy, in both or in neither. A copy counts
/// once its size has been found right.
pub struct Whereabouts {
    pub original: bool,
    pub copy: bool,
}

/// Where the data is after a step with this event.
pub open spec fn effect(step: StepView, event: EventView, size: u64, at: Whereabouts) -> Whereabouts {
    match step {
        StepView::CopyToTemp => Whereabouts { copy: false, ..at },
        StepView::StatTemp => Whereabouts { copy: event == EventView::TempSize(size), ..at },
        StepView::DeleteOriginal => Whereabouts {
            original: at.original && event is Failed,
            ..at
        },
        StepView::WriteBack => Whereabouts { original: at.copy && event is Done, ..at },
        StepView::RemoveTemp(_) => Whereabouts { copy: false, ..at },
        StepView::Finished(_) => at,
    }
}

/// Where the data has to be before each step.
pub open spec fn is_safe(step: StepView, at: Whereabouts) -> bool {
    match step {
        StepView::CopyToTemp => at.original,
        StepView::StatTemp => at.original,
        StepView::DeleteOriginal => at.original && at.copy,
        StepView::WriteBack => at.copy,
        StepView::RemoveTemp(_) => at.original,
        StepView::Finished(OutcomeView::Moved) => at.original,
        StepView::Finished(OutcomeView::Skipped(_)) => at.original || at.copy,
    }
}

/// No data is lost, whatever goes wrong: the data is in the file or in a copy of the right size
/// before every step and after it. So the file is deleted only once such a copy is there, and the
/// copy only once the file is.
pub proof fn law_no_data_lost(
    step: StepView,
    event: EventView,
    name: Seq<char>,
    size: u64,
    temp_path: Seq<char>,
    at: Whereabouts,
)
    requires
        fits(step, event),
        is_safe(step, at),
    ensures
        is_safe(next_step(step, event, name, size, temp_path), effect(step, event, size, at)),
        effect(step, event, size, at).original || effect(step, event, size, at).copy,
{
}

/// Where the file could not be written back, the copy stays, and the error says where it is.
pub proof fn law_recovery_copy_is_told(
    name: Seq<char>,
    size: u64,
    temp_path: Seq<char>,
    reason: Seq<char>,
    at: Whereabouts,
)
    requires
        is_safe(StepView::WriteBack, at),
    ensures
        effect(StepView::WriteBack, EventView::Failed(reason), size, at).copy,
        next_step(StepView::WriteBack, EventView::Failed(reason), name, size, temp_path)
            matches StepView::Finished(OutcomeView::Skipped(e)) && crate::text::ends_with(
            e,
            temp_path,
        ),
{
    let e = name + ": write-back failed: "@ + reason + " — recovery copy at "@ + temp_path;
    assert(e.subrange(e.len() - temp_path.len(), e.len() as int) =~= temp_path);
}

/// Every file is either moved or skipped with an error.
pub proof fn law_every_skip_has_an_error(result: DefragView, outcome: OutcomeView, size: u64)
    requires
        result.errors.len() == result.skipped,
        result.skipped < u32::MAX,
    ensures
        with_outcome(result, outcome, size).errors.len() == with_outcome(
            result,
            outcome,
            size,
        ).skipped,
{
}

/// A chunk file can be rewritten; the game list, other files and directories are left alone.
pub proof fn law_rewritable(rest: Seq<char>, name: Seq<char>)
    ensures
        "ul."@ + rest != "ul.cfg"@ ==> rewritable("ul."@ + rest, true),
        !rewritable("ul.cfg"@, true),
        !rewritable(name, false),
        rewritable(name, true) ==> name == "ul."@ + name.skip(3),
{
    reveal_strlit("ul.");
    law_prefix_and_suffix(name, "ul."@, rest);
}

/// A file that nothing goes wrong with is copied away, compared, deleted, written back, and the
/// copy is removed: then it is moved.
pub proof fn law_rewriting(name: Seq<char>, size: u64, temp_path: Seq<char>)
    ensures
        next_step(StepView::CopyToTemp, EventView::Done, name, size, temp_path)
            == StepView::StatTemp,
        next_step(StepView::StatTemp, EventView::TempSize(size), name, size, temp_path)
            == StepView::DeleteOriginal,
        next_step(StepView::DeleteOriginal, EventView::Done, name, size, temp_path)
            == StepView::WriteBack,
        next_step(StepView::WriteBack, EventView::Done, name, size, temp_path)
            == StepView::RemoveTemp(OutcomeView::Moved),
        next_step(
            StepView::RemoveTemp(OutcomeView::Moved),
            EventView::Done,
            name,
            size,
            temp_path,
        ) == StepView::Finished(OutcomeView::Moved),
{
}

/// A file that something goes wrong with is skipped, with an error that begins with its name and
/// says what went wrong; the copy is removed, but for one that could not be made or is all that is
/// left of the file. That the copy cannot be removed is no error.
pub proof fn law_rewriting_fails(
    name: Seq<char>,
    size: u64,
    temp_path: Seq<char>,
    e: Seq<char>,
    n: u64,
    outcome: OutcomeView,
)
    ensures
        next_step(StepView::CopyToTemp, EventView::Failed(e), name, size, temp_path)
            == StepView::Finished(
            OutcomeView::Skipped(name + ": copy to temp failed: "@ + e),
        ),
        n != size ==> next_step(StepView::StatTemp, EventView::TempSize(n), name, size, temp_path)
            == StepView::RemoveTemp(
            OutcomeView::Skipped(
                name + ": temp copy size mismatch ("@ + decimal(n as nat) + " vs "@ + decimal(
                    size as nat,
                ) + ")"@,
            ),
        ),
        next_step(StepView::DeleteOriginal, EventView::Failed(e), name, size, temp_path)
            == StepView::RemoveTemp(
            OutcomeView::Skipped(name + ": delete original failed: "@ + e),
        ),
        next_step(StepView::WriteBack, EventView::Failed(e), name, size, temp_path)
            == StepView::Finished(
            OutcomeView::Skipped(
                name + ": write-back failed: "@ + e + " — recovery copy at "@ + temp_path,
            ),
        ),
        next_step(StepView::RemoveTemp(outcome), EventView::Failed(e), name, size, temp_path)
            == StepView::Finished(outcome),
        next_step(StepView::RemoveTemp(outcome), EventView::Done, name, size, temp_path)
            == StepView::Finished(outcome),
{
}

/// A moved file counts with its size, a skipped one with its error; neither changes the other
/// count.
pub proof fn law_outcome(result: DefragView, size: u64, e: Seq<char>)
    requires
        result.defragged < u32::MAX,
        result.skipped < u32::MAX,
        result.bytes_moved + size <= u64::MAX,
    ensures
        ({
            let moved = with_outcome(result, OutcomeView::Moved, size);
            &&& moved.defragged == result.defragged + 1
            &&& moved.bytes_moved == result.bytes_moved + size
            &&& moved.skipped == result.skipped
            &&& moved.errors == result.errors
        }),
        ({
            let skipped = with_outcome(result, OutcomeView::Skipped(e), size);
            &&& skipped.defragged == result.defragged
            &&& skipped.bytes_moved == result.bytes_moved
            &&& skipped.skipped == result.skipped + 1
            &&& skipped.errors == result.errors.push(e)
        }),
{
}

/// The model of a [`DefragResult`] has all that it holds.
pub proof fn law_model_of_defrag_result(result: DefragResult)
    ensures
        result@.defragged == result.defragged,
        result@.skipped == result.skipped,
        result@.bytes_moved == result.bytes_moved,
        result@.errors == texts(result.errors@),
{
}

} // verus!
