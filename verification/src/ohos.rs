//! The backend's entry points: the state the host's calls share, and what
//! each call decides.
//!
//! The host calls in from its own threads; the platform lives on a thread of
//! its own and the calls are handed to it. What is decided there is here,
//! over a `Backend` that holds what the entry points remember between calls:
//! the directory to browse, the frame and quit requests the loop has not
//! served yet, and the panics it recovered from.

use vstd::prelude::*;
use crate::platform::{Effect, OhosPlatform, PlatformView, spec_destroyed, destroy_effects, spec_host_event, host_event_effects, with_size};
use crate::text::{concat, decimal, spec_decimal};

verus! {

/// What the entry points remember between calls.
pub struct Backend {
    root_dir: Option<String>,
    tick_wanted: bool,
    quit_requested: bool,
    /// Panics recovered from since the last report.
    recovered: u64,
    /// When the last report was written, in milliseconds.
    last_report: Option<u64>,
}

pub struct BackendView {
    pub root_dir: Option<Seq<char>>,
    pub tick_wanted: bool,
    pub quit_requested: bool,
    pub recovered: u64,
    pub last_report: Option<u64>,
}

impl View for Backend {
    type V = BackendView;

    closed spec fn view(&self) -> BackendView {
        BackendView {
            root_dir: match self.root_dir {
                Some(d) => Some(d@),
                None => None,
            },
            tick_wanted: self.tick_wanted,
            quit_requested: self.quit_requested,
            recovered: self.recovered,
            last_report: self.last_report,
        }
    }
}

impl Backend {
    /// No directory, no request, no panic.
    pub fn new() -> (backend: Self)
        ensures
            backend@ == (BackendView { root_dir: None, tick_wanted: false, quit_requested: false, recovered: 0, last_report: None }),
    {
        Backend { root_dir: None, tick_wanted: false, quit_requested: false, recovered: 0, last_report: None }
    }
}

/// Set the directory the application should browse.
pub fn set_root_dir(backend: &mut Backend, path: &str)
    ensures
        final(backend)@ == (BackendView { root_dir: Some(path@), ..old(backend)@ }),
{
    backend.root_dir = Some(path.to_owned());
}

/// The directory `set_root_dir` set, if any.
pub fn root_dir(backend: &Backend) -> (dir: Option<String>)
    ensures
        match dir {
            Some(d) => backend@.root_dir == Some(d@),
            None => backend@.root_dir is None,
        },
{
    match &backend.root_dir {
        Some(d) => Some(d.clone()),
        None => None,
    }
}

/// The host asks for a frame once per refresh. Requests coalesce: the loop
/// draws once for however many arrived.
pub fn tick(backend: &mut Backend)
    ensures
        final(backend)@ == (BackendView { tick_wanted: true, ..old(backend)@ }),
{
    backend.tick_wanted = true;
}

/// A frame was asked for.
pub fn want_tick(backend: &mut Backend)
    ensures
        final(backend)@ == (BackendView { tick_wanted: true, ..old(backend)@ }),
{
    backend.tick_wanted = true;
}

/// The application wants the process to end. Recorded rather than sent:
/// the host may only be told once the work the request came from drained.
pub fn request_quit(backend: &mut Backend)
    ensures
        final(backend)@ == (BackendView { quit_requested: true, ..old(backend)@ }),
{
    backend.quit_requested = true;
}

/// The loop takes the frame request: `true` when a frame was asked for since
/// it last looked.
pub fn take_frame_request(backend: &mut Backend) -> (wanted: bool)
    ensures
        wanted == old(backend)@.tick_wanted,
        final(backend)@ == (BackendView { tick_wanted: false, ..old(backend)@ }),
{
    let wanted = backend.tick_wanted;
    backend.tick_wanted = false;
    wanted
}

/// The loop takes the quit request: `true` when the host is to be told.
pub fn take_quit_request(backend: &mut Backend) -> (requested: bool)
    ensures
        requested == old(backend)@.quit_requested,
        final(backend)@ == (BackendView { quit_requested: false, ..old(backend)@ }),
{
    let requested = backend.quit_requested;
    backend.quit_requested = false;
    requested
}

/// Frame requests coalesce: however many arrive before the loop looks, it
/// takes one frame for them, and looking again finds none. The same holds of
/// quit requests.
pub proof fn requests_coalesce(v: BackendView)
    ensures
        ({
            let asked = BackendView { tick_wanted: true, ..BackendView { tick_wanted: true, ..v } };
            let taken = BackendView { tick_wanted: false, ..asked };
            &&& asked.tick_wanted
            &&& !taken.tick_wanted
            &&& taken == BackendView { tick_wanted: false, ..v }
        }),
        ({
            let asked = BackendView { quit_requested: true, ..BackendView { quit_requested: true, ..v } };
            let taken = BackendView { quit_requested: false, ..asked };
            &&& asked.quit_requested
            &&& !taken.quit_requested
            &&& taken == BackendView { quit_requested: false, ..v }
        }),
{
}

/// How many recovered panics wait to be reported.
pub fn recovered_count(backend: &Backend) -> (count: u64)
    ensures
        count == backend@.recovered,
{
    backend.recovered
}

/// How long the loop stays quiet about recovered panics after a report.
pub const REPORT_INTERVAL_MS: u64 = 5000;

/// Whether a panic at `now` is reported: the first one is, and then one per
/// interval.
pub open spec fn report_due(v: BackendView, now: u64) -> bool {
    match v.last_report {
        Some(last) => now >= last && now - last >= REPORT_INTERVAL_MS,
        None => true,
    }
}

/// "[gpui_ohos] recovered from a panic in <stage>", followed by
/// "; <n> more were left unreported" when panics were held back.
pub open spec fn panic_report(stage: Seq<char>, suppressed: u64) -> Seq<char> {
    let head = seq!['[', 'g', 'p', 'u', 'i', '_', 'o', 'h', 'o', 's', ']', ' ', 'r', 'e', 'c', 'o', 'v', 'e', 'r', 'e', 'd', ' ',
        'f', 'r', 'o', 'm', ' ', 'a', ' ', 'p', 'a', 'n', 'i', 'c', ' ', 'i', 'n', ' '] + stage;
    if suppressed == 0 {
        head
    } else {
        head + seq![';', ' '] + spec_decimal(suppressed as nat) + seq![' ', 'm', 'o', 'r', 'e', ' ', 'w', 'e', 'r', 'e', ' ', 'l', 'e',
            'f', 't', ' ', 'u', 'n', 'r', 'e', 'p', 'o', 'r', 't', 'e', 'd']
    }
}

/// The backend after a panic at `now`.
pub open spec fn after_panic(v: BackendView, now: u64) -> BackendView {
    if report_due(v, now) {
        BackendView { recovered: 0, last_report: Some(now), ..v }
    } else {
        BackendView { recovered: (v.recovered + 1) as u64, ..v }
    }
}

/// The line a panic in `stage` at `now` writes, if any: the report names
/// the panics held back before it.
pub open spec fn panic_line(v: BackendView, stage: Seq<char>, now: u64) -> Option<Seq<char>> {
    if report_due(v, now) {
        Some(panic_report(stage, v.recovered))
    } else {
        None
    }
}

/// A step of the platform loop panicked in `stage` at `now` (milliseconds
/// of a clock that does not go back). A frame that panics on every request
/// would write a line per frame and bury the report that says where the
/// trouble started, so a report is written at most once per interval and
/// says how many panics it held back; the answer is the line to write, if
/// any.
pub fn report_recovered_panic(backend: &mut Backend, stage: &str, now: u64) -> (report: Option<String>)
    requires
        old(backend)@.recovered < u64::MAX,
    ensures
        final(backend)@ == after_panic(old(backend)@, now),
        match report {
            Some(r) => panic_line(old(backend)@, stage@, now) == Some(r@),
            None => panic_line(old(backend)@, stage@, now) is None,
        },
{
    let due = match backend.last_report {
        Some(last) => now >= last && now - last >= REPORT_INTERVAL_MS,
        None => true,
    };
    if !due {
        backend.recovered = backend.recovered + 1;
        return None;
    }
    let suppressed = backend.recovered;
    backend.recovered = 0;
    backend.last_report = Some(now);
    proof {
        reveal_strlit("[gpui_ohos] recovered from a panic in ");
        reveal_strlit("; ");
        reveal_strlit(" more were left unreported");
    }
    let head = concat("[gpui_ohos] recovered from a panic in ", stage);
    if suppressed == 0 {
        assert(head@ =~= panic_report(stage@, 0));
        return Some(head);
    }
    let with_sep = concat(head.as_str(), "; ");
    let with_count = concat(with_sep.as_str(), decimal(suppressed).as_str());
    let message = concat(with_count.as_str(), " more were left unreported");
    assert(message@ =~= panic_report(stage@, suppressed));
    Some(message)
}

/// No recovered panic goes uncounted: one that was held back is named by
/// the next report, together with every other panic held back before it.
pub proof fn held_back_panics_are_reported(v: BackendView, stage: Seq<char>, held: u64, reported: u64)
    requires
        !report_due(v, held),
        v.recovered < u64::MAX,
        report_due(after_panic(v, held), reported),
    ensures
        panic_line(after_panic(v, held), stage, reported) == Some(panic_report(stage, (v.recovered + 1) as u64)),
{
}

/// A panic within the interval after a report writes nothing.
pub proof fn reports_are_spaced(v: BackendView, stage: Seq<char>, at: u64, later: u64)
    requires
        report_due(v, at),
        at <= later,
        later - at < REPORT_INTERVAL_MS,
    ensures
        panic_line(after_panic(v, at), stage, later) is None,
{
}

/// The platform to run on: the one already running, or a new one.
pub fn current_platform(current: Option<OhosPlatform>) -> (platform: OhosPlatform)
    requires
        current matches Some(p) ==> p.wf(),
    ensures
        platform.wf(),
        match current {
            Some(p) => platform@ == p@,
            None => platform@ == crate::platform::initial_view(),
        },
{
    match current {
        Some(platform) => platform,
        None => OhosPlatform::new(),
    }
}

/// Handle an event the host pushed; see `OhosPlatform::handle_host_event`.
pub fn host_event(platform: &mut OhosPlatform, kind: i32, arg: &str) -> (effects: Vec<Effect>)
    requires
        old(platform).wf(),
    ensures
        final(platform).wf(),
        final(platform)@ == spec_host_event(old(platform)@, kind, arg@),
        crate::platform::effect_views(effects@) == host_event_effects(old(platform)@, kind, arg@),
{
    platform.handle_host_event(kind, arg)
}

/// Whether the application lets a window close, from the answers of the
/// windows the host's id reaches. No answer - no platform, or one that did
/// not answer in time - allows the close: the host asked for a user who
/// wants the window gone, and refusing would leave a window that can never
/// be closed. A window with no opinion allows it too.
pub fn should_close_window(answers: Option<&[bool]>) -> (allowed: bool)
    ensures
        allowed == match answers {
            Some(a) => forall|i: int| 0 <= i < a@.len() ==> #[trigger] a@[i],
            None => true,
        },
{
    match answers {
        Some(a) => all_true(a),
        None => true,
    }
}

/// Whether every answer is yes.
fn all_true(a: &[bool]) -> (all: bool)
    ensures
        all == forall|i: int| 0 <= i < a@.len() ==> #[trigger] a@[i],
{
    let mut i: usize = 0;
    while i < a.len()
        invariant
            i <= a@.len(),
            forall|j: int| 0 <= j < i ==> #[trigger] a@[j],
        decreases a@.len() - i,
    {
        if !a[i] {
            assert(!a@[i as int]);
            return false;
        }
        i = i + 1;
    }
    true
}

/// A surface changed size; see `OhosPlatform::surface_resized`.
pub fn surface_resized(platform: &mut OhosPlatform, id: &str, width: u32, height: u32)
    requires
        old(platform).wf(),
    ensures
        final(platform).wf(),
        final(platform)@ == (PlatformView { pending_sizes: with_size(old(platform)@.pending_sizes, id@, width, height), ..old(platform)@ }),
{
    platform.surface_resized(id, width, height)
}

/// The host is about to destroy a surface's native window; see
/// `OhosPlatform::surface_destroyed`.
pub fn surface_destroyed(platform: &mut OhosPlatform, id: &str) -> (effects: Vec<Effect>)
    requires
        old(platform).wf(),
    ensures
        final(platform).wf(),
        final(platform)@ == spec_destroyed(old(platform)@, id@),
        crate::platform::effect_views(effects@) == destroy_effects(old(platform)@, id@),
{
    platform.surface_destroyed(id)
}

/// Take the folder the host restored, when there is a platform to hold one.
pub fn take_restore_folder(current: &mut Option<OhosPlatform>) -> (folder: Option<String>)
    requires
        *old(current) matches Some(p) ==> p.wf(),
    ensures
        match *old(current) {
            Some(p) => ({
                &&& *final(current) matches Some(q) && q.wf() && q@ == (PlatformView { restore_folder: None, ..p@ })
                &&& crate::platform::opt_text(folder) == p@.restore_folder
            }),
            None => folder is None && *final(current) is None,
        },
{
    match current {
        Some(p) => p.take_restore_folder(),
        None => None,
    }
}

} // verus!
