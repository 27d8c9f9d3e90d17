//! The decisions of the IDE's two device workflows: uploading and running
//! a script, and what follows a firmware flash. The serial work itself is
//! done by the caller, which reports each outcome as an event.
use vstd::prelude::*;
use crate::text::{chars_of, has_sub, to_ascii_lowercase, ascii_lower, contains_chars};

verus! {

/// What happened in a step of uploading a script.
#[derive(Clone, Copy, Debug, PartialEq, Eq, Structural)]
pub enum UploadEvent {
    /// The flash file system answered the probe as mounted.
    LfsReady,
    /// The probe answered that the file system is not mounted.
    LfsNotMounted,
    /// The probe got no answer.
    ProbeFailed,
    /// The source did not compile.
    CompileFailed,
    /// The 16×16 font pack failed to upload; `lfs` tells whether the error
    /// came from the file system.
    Font16Failed { lfs: bool },
    /// The 6×8 font pack failed to upload.
    Font6Failed { lfs: bool },
    /// The script failed to upload; `ran` tells whether the device already
    /// reported the script as running (see [`device_ran`]).
    ScriptFailed { lfs: bool, ran: bool },
    /// The script was uploaded.
    ScriptUploaded,
}

/// What the IDE does next.
#[derive(Clone, Copy, Debug, PartialEq, Eq, Structural)]
pub enum UploadAction {
    /// Go on with the next step.
    Go,
    /// Stop and offer to format the flash file system.
    OfferFormat,
    /// Stop with the error.
    Stop,
    /// Treat the script as running although its upload was not confirmed.
    RanWithoutAck,
    /// The script runs.
    Running,
    /// The file is uploaded and nothing runs.
    Uploaded,
}

/// The file that the device runs at start: uploading it with `wait_done`
/// runs it.
pub open spec fn runs_now(name: Seq<char>, wait_done: bool) -> bool {
    wait_done && name == "main.luac"@
}

/// What follows an upload event: a failed probe or an unmounted file system
/// offers a format; a failed compile stops; a failed 16×16 pack stops (with
/// the format offer when the file system failed), a failed 6×8 pack only
/// when the file system failed; a failed script upload counts as running
/// when the device already ran the started file, else stops (offering the
/// format for file-system errors); an uploaded started file runs.
pub open spec fn upload_step_spec(event: UploadEvent, name: Seq<char>, wait_done: bool) -> UploadAction {
    match event {
        UploadEvent::LfsReady => UploadAction::Go,
        UploadEvent::LfsNotMounted => UploadAction::OfferFormat,
        UploadEvent::ProbeFailed => UploadAction::OfferFormat,
        UploadEvent::CompileFailed => UploadAction::Stop,
        UploadEvent::Font16Failed { lfs } => if lfs {
            UploadAction::OfferFormat
        } else {
            UploadAction::Stop
        },
        UploadEvent::Font6Failed { lfs } => if lfs {
            UploadAction::OfferFormat
        } else {
            UploadAction::Go
        },
        UploadEvent::ScriptFailed { lfs, ran } => if ran && runs_now(name, wait_done) {
            UploadAction::RanWithoutAck
        } else if lfs {
            UploadAction::OfferFormat
        } else {
            UploadAction::Stop
        },
        UploadEvent::ScriptUploaded => if runs_now(name, wait_done) {
            UploadAction::Running
        } else {
            UploadAction::Uploaded
        },
    }
}

/// The next action of an upload (see [`upload_step_spec`]).
pub fn upload_step(event: UploadEvent, name: &str, wait_done: bool) -> (r: UploadAction)
    ensures
        r == upload_step_spec(event, name@, wait_done),
{
    let main = chars_of("main.luac");
    let n = chars_of(name);
    let runs = wait_done && crate::fontpack::chars_eq(n.as_slice(), main.as_slice());
    match event {
        UploadEvent::LfsReady => UploadAction::Go,
        UploadEvent::LfsNotMounted => UploadAction::OfferFormat,
        UploadEvent::ProbeFailed => UploadAction::OfferFormat,
        UploadEvent::CompileFailed => UploadAction::Stop,
        UploadEvent::Font16Failed { lfs } => if lfs {
            UploadAction::OfferFormat
        } else {
            UploadAction::Stop
        },
        UploadEvent::Font6Failed { lfs } => if lfs {
            UploadAction::OfferFormat
        } else {
            UploadAction::Go
        },
        UploadEvent::ScriptFailed { lfs, ran } => if ran && runs {
            UploadAction::RanWithoutAck
        } else if lfs {
            UploadAction::OfferFormat
        } else {
            UploadAction::Stop
        },
        UploadEvent::ScriptUploaded => if runs {
            UploadAction::Running
        } else {
            UploadAction::Uploaded
        },
    }
}

/// The device output shows that a script started or ended.
pub open spec fn device_ran_spec(output: Seq<char>) -> bool {
    has_sub(output, "SCRIPT_OK"@) || has_sub(output, "SCRIPT_DONE"@) || has_sub(output, "LED_BLINK"@)
}

/// Whether the device output shows a script ran (see [`device_ran_spec`]).
pub fn device_ran(output: &str) -> (r: bool)
    ensures
        r == device_ran_spec(output@),
{
    let v = chars_of(output);
    let a = chars_of("SCRIPT_OK");
    let b = chars_of("SCRIPT_DONE");
    let c = chars_of("LED_BLINK");
    contains_chars(v.as_slice(), a.as_slice()) || contains_chars(v.as_slice(), b.as_slice()) || contains_chars(
        v.as_slice(),
        c.as_slice(),
    )
}

/// How many times the application's serial port is opened again after a
/// flash.
pub const RECONNECT_TRIES: u32 = 6;
/// Wait before the first reopen, in milliseconds (the bootloader already
/// waited after starting the application).
pub const FIRST_RECONNECT_DELAY_MS: u32 = 600;
/// Wait between reopen attempts, in milliseconds.
pub const RECONNECT_DELAY_MS: u32 = 450;

/// What happened after flashing firmware.
#[derive(Clone, Copy, Debug, PartialEq, Eq, Structural)]
pub enum FlashEvent {
    /// The flash itself finished (`true`) or failed.
    Flashed(bool),
    /// Opening the application's port succeeded (`true`) or failed.
    Reopened(bool),
    /// The file-system probe: `Some(true)` mounted, `Some(false)` empty or
    /// not mounted, `None` no answer.
    Probed(Option<bool>),
}

/// What the IDE does after a flash event.
#[derive(Clone, Copy, Debug, PartialEq, Eq, Structural)]
pub enum FlashAction {
    /// Report the flash failure.
    ReportFailure,
    /// Open the application's port again (attempt number), after waiting.
    Reopen { attempt: u32, delay_ms: u32 },
    /// Report that the application could not be reached.
    GiveUp,
    /// Probe the flash file system.
    Probe,
    /// List the device's files.
    ListFiles,
    /// Format the empty flash file system.
    AutoFormat,
    /// Report that the application does not answer.
    ReportNoResponse,
}

/// The action after `event`, `attempt` being the reopen attempt that just
/// ended (1-based): a finished flash reopens the port; a failed reopen is
/// tried again up to [`RECONNECT_TRIES`] times; a reopened port is probed;
/// a mounted file system is listed, an empty one formatted, a silent
/// application reported.
pub open spec fn after_flash(attempt: u32, event: FlashEvent) -> FlashAction {
    match event {
        FlashEvent::Flashed(ok) => if ok {
            FlashAction::Reopen { attempt: 1, delay_ms: FIRST_RECONNECT_DELAY_MS }
        } else {
            FlashAction::ReportFailure
        },
        FlashEvent::Reopened(ok) => if ok {
            FlashAction::Probe
        } else if attempt < RECONNECT_TRIES {
            FlashAction::Reopen { attempt: (attempt + 1) as u32, delay_ms: RECONNECT_DELAY_MS }
        } else {
            FlashAction::GiveUp
        },
        FlashEvent::Probed(p) => match p {
            Some(true) => FlashAction::ListFiles,
            Some(false) => FlashAction::AutoFormat,
            None => FlashAction::ReportNoResponse,
        },
    }
}

/// The action after a flash event (see [`after_flash`]).
pub fn after_flash_step(attempt: u32, event: FlashEvent) -> (r: FlashAction)
    ensures
        r == after_flash(attempt, event),
{
    match event {
        FlashEvent::Flashed(ok) => if ok {
            FlashAction::Reopen { attempt: 1, delay_ms: FIRST_RECONNECT_DELAY_MS }
        } else {
            FlashAction::ReportFailure
        },
        FlashEvent::Reopened(ok) => if ok {
            FlashAction::Probe
        } else if attempt < RECONNECT_TRIES {
            FlashAction::Reopen { attempt: attempt + 1, delay_ms: RECONNECT_DELAY_MS }
        } else {
            FlashAction::GiveUp
        },
        FlashEvent::Probed(p) => match p {
            Some(true) => FlashAction::ListFiles,
            Some(false) => FlashAction::AutoFormat,
            None => FlashAction::ReportNoResponse,
        },
    }
}

/// Reopening after a flash tries at most [`RECONNECT_TRIES`] times: a
/// failed attempt asks for another only below that number, and each
/// attempt it asks for is the next one.
pub proof fn law_reopen_attempts_bounded(attempt: u32)
    ensures
        after_flash(attempt, FlashEvent::Reopened(false)) matches FlashAction::Reopen { attempt: a, .. } ==> a
            == attempt + 1 && a <= RECONNECT_TRIES,
        attempt >= RECONNECT_TRIES ==> after_flash(attempt, FlashEvent::Reopened(false)) == FlashAction::GiveUp,
{
}

/// A port whose label names a J-Link probe, which the flasher refuses (a
/// CH340 port is needed).
pub open spec fn is_jlink_spec(label: Seq<char>) -> bool {
    has_sub(to_ascii_lowercase(label), "j-link"@)
}

/// Whether the flasher refuses the port labelled `label` (see
/// [`is_jlink_spec`]).
pub fn is_jlink(label: &str) -> (r: bool)
    ensures
        r == is_jlink_spec(label@),
{
    let v = chars_of(label);
    let l = ascii_lower(v.as_slice());
    let j = chars_of("j-link");
    contains_chars(l.as_slice(), j.as_slice())
}

} // verus!
