//! The platform's registry of surfaces and windows, and the decisions it
//! makes when the host reports something.
//!
//! Every XComponent surface the host created is listed once, in the order the
//! platform learned of it, with the primary surface (the one that launched the
//! application) in front. Each window the application opened points at the
//! surface it draws into. What the platform cannot do itself - calling back
//! into the application, asking the host a question, telling a window it
//! changed - comes back from these functions as `Effect`s, in the order the
//! platform performs them.

use vstd::prelude::*;
use crate::host::{
    EVENT_APPEARANCE, EVENT_BENCHMARK, EVENT_FOCUS, EVENT_LIFECYCLE, EVENT_PICK_RESULT, EVENT_RESTORE_FOLDER,
    EVENT_WINDOW_RECT, EVENT_WINDOW_STATUS, OP_PICK_NEW_PATH, OP_PICK_PATHS, OP_REQUEST_FOCUS, OP_SET_APPEARANCE,
};
use crate::text::{
    chars_of, concat, find_char, has_prefix, lemma_next_index_of, next_index_of, same_chars, same_text,
    signed_decimal, spec_signed_decimal, spec_strip_prefix, text_between, text_of, decimal, lines, parse_u32, parse_u64, spec_decimal, spec_lines, spec_parse_int,
    spec_split_once, split_once, decimal_reads_back, parse_reads_decimal, decimal_is_injective,
};

verus! {

// ---------------------------------------------------------------------------
// Plain data
// ---------------------------------------------------------------------------

/// How a window is drawn: which way round its colours are.
#[derive(Clone, Copy, PartialEq, Eq, Structural, Debug)]
pub enum Appearance {
    Light,
    VibrantLight,
    Dark,
    VibrantDark,
}

/// Which way round the application's theme is, as it last reported it.
#[derive(Clone, Copy, PartialEq, Eq, Structural, Debug)]
pub enum Theme {
    System,
    Light,
    Dark,
}

/// One XComponent surface.
pub struct Surface {
    /// The XComponent id the host knows the surface by.
    pub id: String,
    /// The surface's identity: windows that draw into it hold this key.
    pub key: u64,
    /// The native window behind it, 0 when there is none.
    pub window: u64,
    pub width: u32,
    pub height: u32,
    /// Whether the native window exists and may be drawn into.
    pub valid: bool,
}

pub struct SurfaceView {
    pub id: Seq<char>,
    pub key: u64,
    pub window: u64,
    pub width: u32,
    pub height: u32,
    pub valid: bool,
}

impl View for Surface {
    type V = SurfaceView;

    open spec fn view(&self) -> SurfaceView {
        SurfaceView {
            id: self.id@,
            key: self.key,
            window: self.window,
            width: self.width,
            height: self.height,
            valid: self.valid,
        }
    }
}

/// One window the application opened.
pub struct Window {
    /// The window's identity.
    pub key: u64,
    /// The id of the surface it was opened on.
    pub id: String,
    /// The key of the surface it draws into.
    pub surface: u64,
    /// The application's handle for it, until the window is forgotten.
    pub handle: Option<u64>,
    pub active: bool,
    pub fullscreen: bool,
    pub appearance: Appearance,
    /// Whether it has drawn at least one frame.
    pub rendered: bool,
    /// Whether it holds the primary surface.
    pub primary: bool,
}

pub struct WindowView {
    pub key: u64,
    pub id: Seq<char>,
    pub surface: u64,
    pub handle: Option<u64>,
    pub active: bool,
    pub fullscreen: bool,
    pub appearance: Appearance,
    pub rendered: bool,
    pub primary: bool,
}

impl View for Window {
    type V = WindowView;

    open spec fn view(&self) -> WindowView {
        WindowView {
            key: self.key,
            id: self.id@,
            surface: self.surface,
            handle: self.handle,
            active: self.active,
            fullscreen: self.fullscreen,
            appearance: self.appearance,
            rendered: self.rendered,
            primary: self.primary,
        }
    }
}

/// Something the platform hands back to be done outside it.
pub enum Effect {
    /// Tell the window its appearance changed.
    AppearanceChanged { window: u64 },
    /// Tell the window it became active or inactive.
    ActiveChanged { window: u64, active: bool },
    /// Tell the window its surface now has this size.
    SurfaceResized { window: u64, width: u32, height: u32 },
    /// Ask the window for a frame.
    RequestFrame { window: u64 },
    /// The window's surface is gone: run the application's close handling.
    WindowClosed { window: u64 },
    /// Run the application's quit callback.
    Quit,
    /// Run the application's reopen callback.
    Reopen,
    /// Run the application's wake callback.
    SystemWake,
    /// Hand the picker's answer lines to the waiter of this pick.
    PickAnswer { id: u64, lines: Vec<String> },
    /// A picker answer arrived that nobody waits for.
    PickDropped { id: u64 },
    /// Hand these URLs to the application's open listener.
    OpenUrls { urls: Vec<String> },
    /// Ask the host for the folder to restore and hand the answer to
    /// `OhosPlatform::restore_folder_answer`.
    PullRestoreFolder,
    /// A window rectangle ("x,y,w,h") for the surface with this id.
    WindowRect { id: String, value: String },
    /// Send a command to the host.
    HostOp { op: i32, arg: String },
    /// Ask the host for another window whose XComponent is named `id`; the
    /// size is the one to use when the window's own bounds are empty.
    CreateWindow { id: String, width: u32, height: u32 },
    /// Run the application's queued foreground work and due timers.
    RunForegroundTasks,
}

pub enum EffectView {
    AppearanceChanged { window: u64 },
    ActiveChanged { window: u64, active: bool },
    SurfaceResized { window: u64, width: u32, height: u32 },
    RequestFrame { window: u64 },
    WindowClosed { window: u64 },
    Quit,
    Reopen,
    SystemWake,
    PickAnswer { id: u64, lines: Seq<Seq<char>> },
    PickDropped { id: u64 },
    OpenUrls { urls: Seq<Seq<char>> },
    PullRestoreFolder,
    WindowRect { id: Seq<char>, value: Seq<char> },
    HostOp { op: i32, arg: Seq<char> },
    CreateWindow { id: Seq<char>, width: u32, height: u32 },
    RunForegroundTasks,
}

/// The characters of each text.
pub open spec fn texts(v: Seq<String>) -> Seq<Seq<char>> {
    Seq::new(v.len(), |i: int| v[i]@)
}

/// Appending a text appends its characters.
pub proof fn lemma_texts_push(v: Seq<String>, s: String)
    ensures
        texts(v.push(s)) == texts(v).push(s@),
{
    assert forall|j: int| 0 <= j < v.len() + 1 implies #[trigger] texts(v.push(s))[j] == texts(v).push(s@)[j] by {
        if j < v.len() {
            assert(v.push(s)[j] == v[j]);
        }
    }
    assert(texts(v.push(s)) =~= texts(v).push(s@));
}

impl View for Effect {
    type V = EffectView;

    open spec fn view(&self) -> EffectView {
        match self {
            Effect::AppearanceChanged { window } => EffectView::AppearanceChanged { window: *window },
            Effect::ActiveChanged { window, active } => EffectView::ActiveChanged { window: *window, active: *active },
            Effect::SurfaceResized { window, width, height } => EffectView::SurfaceResized {
                window: *window,
                width: *width,
                height: *height,
            },
            Effect::RequestFrame { window } => EffectView::RequestFrame { window: *window },
            Effect::WindowClosed { window } => EffectView::WindowClosed { window: *window },
            Effect::Quit => EffectView::Quit,
            Effect::Reopen => EffectView::Reopen,
            Effect::SystemWake => EffectView::SystemWake,
            Effect::PickAnswer { id, lines } => EffectView::PickAnswer { id: *id, lines: texts(lines@) },
            Effect::PickDropped { id } => EffectView::PickDropped { id: *id },
            Effect::OpenUrls { urls } => EffectView::OpenUrls { urls: texts(urls@) },
            Effect::PullRestoreFolder => EffectView::PullRestoreFolder,
            Effect::WindowRect { id, value } => EffectView::WindowRect { id: id@, value: value@ },
            Effect::HostOp { op, arg } => EffectView::HostOp { op: *op, arg: arg@ },
            Effect::CreateWindow { id, width, height } => EffectView::CreateWindow { id: id@, width: *width, height: *height },
            Effect::RunForegroundTasks => EffectView::RunForegroundTasks,
        }
    }
}

/// The views of a list of effects.
pub open spec fn effect_views(effects: Seq<Effect>) -> Seq<EffectView> {
    Seq::new(effects.len(), |i: int| effects[i]@)
}

/// Appending an effect appends its view.
pub proof fn lemma_views_push(effects: Seq<Effect>, e: Effect)
    ensures
        effect_views(effects.push(e)) == effect_views(effects).push(e@),
{
    assert forall|j: int| 0 <= j < effects.len() + 1 implies #[trigger] effect_views(effects.push(e))[j] == effect_views(effects).push(e@)[j] by {
        if j < effects.len() {
            assert(effects.push(e)[j] == effects[j]);
        }
    }
    assert(effect_views(effects.push(e)) =~= effect_views(effects).push(e@));
}

pub open spec fn surface_views(surfaces: Seq<Surface>) -> Seq<SurfaceView> {
    Seq::new(surfaces.len(), |i: int| surfaces[i]@)
}

pub open spec fn window_views(windows: Seq<Window>) -> Seq<WindowView> {
    Seq::new(windows.len(), |i: int| windows[i]@)
}

pub open spec fn opt_text(text: Option<String>) -> Option<Seq<char>> {
    match text {
        Some(t) => Some(t@),
        None => None,
    }
}

// ---------------------------------------------------------------------------
// The registry's model
// ---------------------------------------------------------------------------

/// Everything the platform knows, as plain values.
pub struct PlatformView {
    /// Every surface, primary first.
    pub surfaces: Seq<SurfaceView>,
    /// The open windows, in the order they were opened.
    pub windows: Seq<WindowView>,
    /// The surface the host last reported as focused.
    pub focused: Option<Seq<char>>,
    /// A focus change waiting for the frame loop.
    pub pending_focus: Option<(Seq<char>, bool)>,
    /// The size each surface last reported and the frame loop has not applied.
    pub pending_sizes: Seq<(Seq<char>, u32, u32)>,
    /// The system's colours, as the host last reported them.
    pub appearance: Appearance,
    /// The application's theme, as it last reported it.
    pub theme: Theme,
    /// A folder waiting to be handed to the application.
    pub restore_folder: Option<Seq<char>>,
    /// Whether the folder was already asked for or pushed.
    pub restore_pulled: bool,
    /// Whether the frame loop already started the delivery.
    pub restore_delivered: bool,
    /// Whether the application installed an open listener.
    pub open_listener: bool,
    /// Picks waiting for the host's answer, oldest first.
    pub picks: Seq<u64>,
    /// The id the next pick gets.
    pub next_pick_id: u64,
    /// How many windows have been bound to a surface.
    pub windows_opened: nat,
    /// The number the next generated surface name carries.
    pub next_surface: u64,
    /// The next identity handed to a surface or a window.
    pub next_key: u64,
    /// Frames left in the forced-redraw benchmark.
    pub benchmark_frames: u32,
}

/// The platform's own state.
pub struct OhosPlatform {
    surfaces: Vec<Surface>,
    windows: Vec<Window>,
    focused: Option<String>,
    pending_focus: Option<(String, bool)>,
    pending_sizes: Vec<(String, u32, u32)>,
    appearance: Appearance,
    theme: Theme,
    restore_folder: Option<String>,
    restore_pulled: bool,
    restore_delivered: bool,
    open_listener: bool,
    picks: Vec<u64>,
    next_pick_id: u64,
    windows_opened: usize,
    next_surface: u64,
    next_key: u64,
    benchmark_frames: u32,
}

pub open spec fn pending_focus_view(p: Option<(String, bool)>) -> Option<(Seq<char>, bool)> {
    match p {
        Some((id, focused)) => Some((id@, focused)),
        None => None,
    }
}

pub open spec fn size_views(sizes: Seq<(String, u32, u32)>) -> Seq<(Seq<char>, u32, u32)> {
    Seq::new(sizes.len(), |i: int| (sizes[i].0@, sizes[i].1, sizes[i].2))
}

impl View for OhosPlatform {
    type V = PlatformView;

    closed spec fn view(&self) -> PlatformView {
        PlatformView {
            surfaces: surface_views(self.surfaces@),
            windows: window_views(self.windows@),
            focused: opt_text(self.focused),
            pending_focus: pending_focus_view(self.pending_focus),
            pending_sizes: size_views(self.pending_sizes@),
            appearance: self.appearance,
            theme: self.theme,
            restore_folder: opt_text(self.restore_folder),
            restore_pulled: self.restore_pulled,
            restore_delivered: self.restore_delivered,
            open_listener: self.open_listener,
            picks: self.picks@,
            next_pick_id: self.next_pick_id,
            windows_opened: self.windows_opened as nat,
            next_surface: self.next_surface,
            next_key: self.next_key,
            benchmark_frames: self.benchmark_frames,
        }
    }
}

// ---------------------------------------------------------------------------
// Lookups, as specifications
// ---------------------------------------------------------------------------

/// The registry before anything happened: no surface, no window, the
/// system's colours light and the theme following the system.
pub open spec fn initial_view() -> PlatformView {
    PlatformView {
        surfaces: Seq::empty(),
        windows: Seq::empty(),
        focused: None,
        pending_focus: None,
        pending_sizes: Seq::empty(),
        appearance: Appearance::Light,
        theme: Theme::System,
        restore_folder: None,
        restore_pulled: false,
        restore_delivered: false,
        open_listener: false,
        picks: Seq::empty(),
        next_pick_id: 1,
        windows_opened: 0,
        next_surface: 1,
        next_key: 1,
        benchmark_frames: 0,
    }
}

/// Index of the first surface at or after `from` whose id is `id`, or -1.
pub open spec fn surface_from(surfaces: Seq<SurfaceView>, id: Seq<char>, from: int) -> int
    decreases surfaces.len() - from,
{
    if from < 0 || from >= surfaces.len() {
        -1
    } else if surfaces[from].id == id {
        from
    } else {
        surface_from(surfaces, id, from + 1)
    }
}

/// Index of the surface the platform means by `id`: the first one with that
/// id, or -1 when there is none.
pub open spec fn find_surface(surfaces: Seq<SurfaceView>, id: Seq<char>) -> int {
    surface_from(surfaces, id, 0)
}

pub proof fn lemma_surface_from(surfaces: Seq<SurfaceView>, id: Seq<char>, from: int)
    requires
        0 <= from,
    ensures
        surface_from(surfaces, id, from) == -1 || from <= surface_from(surfaces, id, from) < surfaces.len(),
        surface_from(surfaces, id, from) != -1 ==> surfaces[surface_from(surfaces, id, from)].id == id,
        forall|j: int| from <= j < surfaces.len() && (surface_from(surfaces, id, from) == -1 || j < surface_from(surfaces, id, from))
            ==> surfaces[j].id != id,
    decreases surfaces.len() - from,
{
    if from < surfaces.len() && surfaces[from].id != id {
        lemma_surface_from(surfaces, id, from + 1);
    }
}

/// What `find_surface` finds: a surface with that id and none before it, or
/// no surface with that id at all.
pub proof fn lemma_find_surface(surfaces: Seq<SurfaceView>, id: Seq<char>)
    ensures
        find_surface(surfaces, id) == -1 || 0 <= find_surface(surfaces, id) < surfaces.len(),
        find_surface(surfaces, id) != -1 ==> surfaces[find_surface(surfaces, id)].id == id,
        forall|j: int| 0 <= j < surfaces.len() && (find_surface(surfaces, id) == -1 || j < find_surface(surfaces, id))
            ==> surfaces[j].id != id,
{
    lemma_surface_from(surfaces, id, 0);
}

/// The key of the surface `id` names, if any.
pub open spec fn surface_key_of(v: PlatformView, id: Seq<char>) -> Option<u64> {
    let at = find_surface(v.surfaces, id);
    if at == -1 {
        None
    } else {
        Some(v.surfaces[at].key)
    }
}

/// Whether a window is reached by an event meant for every window (`any`) or
/// for the surface with key `surface`.
pub open spec fn matches(w: WindowView, any: bool, surface: Option<u64>) -> bool {
    any || surface == Some(w.surface)
}

/// The keys of the windows that `matches` accepts, in order.
pub open spec fn matching_keys(windows: Seq<WindowView>, any: bool, surface: Option<u64>) -> Seq<u64>
    decreases windows.len(),
{
    if windows.len() == 0 {
        Seq::empty()
    } else {
        let rest = matching_keys(windows.drop_last(), any, surface);
        if matches(windows.last(), any, surface) {
            rest.push(windows.last().key)
        } else {
            rest
        }
    }
}

/// The surface id of the first open window with `key`.
pub open spec fn window_id_of(windows: Seq<WindowView>, key: u64) -> Option<Seq<char>>
    decreases windows.len(),
{
    if windows.len() == 0 {
        None
    } else if windows[0].key == key {
        Some(windows[0].id)
    } else {
        window_id_of(windows.drop_first(), key)
    }
}

/// The keys of the windows whose activity is `active`, in the order they
/// were opened.
pub open spec fn keys_by_activity(windows: Seq<WindowView>, active: bool) -> Seq<u64>
    decreases windows.len(),
{
    if windows.len() == 0 {
        Seq::empty()
    } else {
        let rest = keys_by_activity(windows.drop_last(), active);
        if windows.last().active == active {
            rest.push(windows.last().key)
        } else {
            rest
        }
    }
}

/// The windows an input event from surface `id` reaches, by key, in the
/// order they were opened: every window for an empty id, otherwise those
/// drawing into the surface the id names.
pub open spec fn route(v: PlatformView, id: Seq<char>) -> Seq<u64> {
    if id.len() == 0 {
        matching_keys(v.windows, true, None)
    } else {
        matching_keys(v.windows, false, surface_key_of(v, id))
    }
}

/// The keys of all open windows, in the order they were opened.
pub open spec fn all_keys(windows: Seq<WindowView>) -> Seq<u64> {
    Seq::new(windows.len(), |i: int| windows[i].key)
}

/// Whether an id is among the pending sizes.
pub open spec fn size_index(sizes: Seq<(Seq<char>, u32, u32)>, id: Seq<char>) -> int
    decreases sizes.len(),
{
    if sizes.len() == 0 {
        -1
    } else if sizes.last().0 == id {
        sizes.len() - 1
    } else {
        size_index(sizes.drop_last(), id)
    }
}

pub proof fn lemma_size_index(sizes: Seq<(Seq<char>, u32, u32)>, id: Seq<char>)
    ensures
        -1 <= size_index(sizes, id) < sizes.len(),
        size_index(sizes, id) != -1 ==> sizes[size_index(sizes, id)].0 == id,
        size_index(sizes, id) == -1 ==> forall|j: int| 0 <= j < sizes.len() ==> sizes[j].0 != id,
        forall|j: int| size_index(sizes, id) < j < sizes.len() ==> sizes[j].0 != id,
    decreases sizes.len(),
{
    if sizes.len() > 0 {
        lemma_size_index(sizes.drop_last(), id);
        if size_index(sizes, id) == -1 {
            assert forall|j: int| 0 <= j < sizes.len() implies sizes[j].0 != id by {
                if j < sizes.len() - 1 {
                    assert(sizes[j] == sizes.drop_last()[j]);
                }
            }
        }
        assert forall|j: int| size_index(sizes, id) < j < sizes.len() implies sizes[j].0 != id by {
            if j < sizes.len() - 1 {
                assert(sizes[j] == sizes.drop_last()[j]);
            }
        }
    }
}

proof fn lemma_size_index_at(sizes: Seq<(Seq<char>, u32, u32)>, id: Seq<char>, i: int)
    requires
        0 <= i < sizes.len(),
        sizes[i].0 == id,
        forall|j: int| i < j < sizes.len() ==> sizes[j].0 != id,
    ensures
        size_index(sizes, id) == i,
    decreases sizes.len(),
{
    if i < sizes.len() - 1 {
        assert(sizes.last() == sizes[sizes.len() - 1]);
        assert forall|j: int| i < j < sizes.drop_last().len() implies sizes.drop_last()[j].0 != id by {
            assert(sizes.drop_last()[j] == sizes[j]);
        }
        lemma_size_index_at(sizes.drop_last(), id, i);
    }
}

/// A surface's size waiting for the next frame is its latest non-empty
/// report: an empty size leaves what waits unchanged, and a later size
/// replaces an earlier one in place rather than queueing behind it.
pub proof fn latest_size_wins(sizes: Seq<(Seq<char>, u32, u32)>, id: Seq<char>, w1: u32, h1: u32, w2: u32, h2: u32)
    requires
        w2 > 0,
        h2 > 0,
    ensures
        with_size(sizes, id, 0, h1) == sizes,
        with_size(sizes, id, w1, 0) == sizes,
        size_index(with_size(with_size(sizes, id, w1, h1), id, w2, h2), id) != -1,
        with_size(with_size(sizes, id, w1, h1), id, w2, h2)[size_index(with_size(with_size(sizes, id, w1, h1), id, w2, h2), id)]
            == (id, w2, h2),
        with_size(with_size(sizes, id, w1, h1), id, w2, h2).len() == with_size(sizes, id, w1, h1).len()
            || with_size(with_size(sizes, id, w1, h1), id, w2, h2).len() == with_size(sizes, id, w1, h1).len() + 1,
        size_index(with_size(sizes, id, w1, h1), id) != -1
            ==> with_size(with_size(sizes, id, w1, h1), id, w2, h2).len() == with_size(sizes, id, w1, h1).len(),
{
    let s1 = with_size(sizes, id, w1, h1);
    let s2 = with_size(s1, id, w2, h2);
    lemma_size_index(s1, id);
    let k = size_index(s1, id);
    if k != -1 {
        assert(s2 == s1.update(k, (id, w2, h2)));
        assert forall|j: int| k < j < s2.len() implies s2[j].0 != id by {
            assert(s2[j] == s1[j]);
        }
        lemma_size_index_at(s2, id, k);
    } else {
        assert(s2 == s1.push((id, w2, h2)));
        assert(s2.last().0 == id);
    }
}


/// Surface identities are distinct.
pub open spec fn distinct_surface_keys(s: Seq<SurfaceView>) -> bool {
    forall|i: int, j: int| 0 <= i < j < s.len() ==> #[trigger] s[i].key != #[trigger] s[j].key
}

/// Surface identities were handed out before `next`.
pub open spec fn surface_keys_below(s: Seq<SurfaceView>, next: u64) -> bool {
    forall|i: int| 0 <= i < s.len() ==> #[trigger] s[i].key < next
}

/// Window identities are distinct.
pub open spec fn distinct_window_keys(w: Seq<WindowView>) -> bool {
    forall|i: int, j: int| 0 <= i < j < w.len() ==> #[trigger] w[i].key != #[trigger] w[j].key
}

/// Window identities were handed out before `next`.
pub open spec fn window_keys_below(w: Seq<WindowView>, next: u64) -> bool {
    forall|i: int| 0 <= i < w.len() ==> #[trigger] w[i].key < next
}

/// Whether a surface with this key is listed.
pub open spec fn has_surface(s: Seq<SurfaceView>, key: u64) -> bool {
    exists|j: int| 0 <= j < s.len() && #[trigger] s[j].key == key
}

/// Every window draws into a listed surface.
pub open spec fn windows_have_surfaces(w: Seq<WindowView>, s: Seq<SurfaceView>) -> bool {
    forall|i: int| 0 <= i < w.len() ==> has_surface(s, #[trigger] w[i].surface)
}

/// No surface waits with two sizes.
pub open spec fn distinct_size_ids(p: Seq<(Seq<char>, u32, u32)>) -> bool {
    forall|i: int, j: int| 0 <= i < j < p.len() ==> #[trigger] p[i].0 != #[trigger] p[j].0
}

/// No waiting size is empty.
pub open spec fn sizes_nonzero(p: Seq<(Seq<char>, u32, u32)>) -> bool {
    forall|k: int| 0 <= k < p.len() ==> (#[trigger] p[k]).1 != 0 && p[k].2 != 0
}

/// Waiting picks have distinct ids handed out before `next`.
pub open spec fn picks_wf(picks: Seq<u64>, next: u64) -> bool {
    &&& forall|i: int, j: int| 0 <= i < j < picks.len() ==> #[trigger] picks[i] != #[trigger] picks[j]
    &&& forall|i: int| 0 <= i < picks.len() ==> #[trigger] picks[i] < next
}

/// The registry's invariant, over the model.
pub open spec fn registry_wf(v: PlatformView) -> bool {
    &&& distinct_surface_keys(v.surfaces)
    &&& surface_keys_below(v.surfaces, v.next_key)
    &&& distinct_window_keys(v.windows)
    &&& window_keys_below(v.windows, v.next_key)
    &&& windows_have_surfaces(v.windows, v.surfaces)
    &&& distinct_size_ids(v.pending_sizes)
    &&& sizes_nonzero(v.pending_sizes)
    &&& picks_wf(v.picks, v.next_pick_id)
    &&& v.next_pick_id >= 1
    &&& v.windows_opened <= v.surfaces.len()
}

// ---------------------------------------------------------------------------
// What each operation does to the model
// ---------------------------------------------------------------------------

/// The name the host knows a theme by.
pub open spec fn theme_name(theme: Theme) -> Seq<char> {
    match theme {
        Theme::System => seq!['s', 'y', 's', 't', 'e', 'm'],
        Theme::Light => seq!['l', 'i', 'g', 'h', 't'],
        Theme::Dark => seq!['d', 'a', 'r', 'k'],
    }
}

/// The name of the `n`th surface the platform asks the host for.
pub open spec fn surface_name(n: u64) -> Seq<char> {
    seq!['g', 'p', 'u', 'i', '_', 's', 'u', 'r', 'f', 'a', 'c', 'e', '_'] + spec_decimal(n as nat)
}

/// `id` and `arg` as a command that names the window it targets.
pub open spec fn for_window(id: Seq<char>, arg: Seq<char>) -> Seq<char> {
    id + seq!['\t'] + arg
}

/// The size a new window asks for when its own bounds are empty: the
/// primary surface's, or a default before there is one.
pub open spec fn fallback_size(v: PlatformView) -> (u32, u32) {
    if v.surfaces.len() > 0 {
        (v.surfaces[0].width, v.surfaces[0].height)
    } else {
        (2200, 1430)
    }
}

/// Whether opening the next window needs a surface the host has yet to
/// create.
pub open spec fn needs_surface(v: PlatformView) -> bool {
    v.surfaces.len() <= v.windows_opened
}

/// The surfaces once the next window has one: a placeholder is listed at
/// the end when every surface is taken.
pub open spec fn surfaces_for_window(v: PlatformView) -> Seq<SurfaceView> {
    if needs_surface(v) {
        v.surfaces.push(SurfaceView {
            id: surface_name(v.next_surface),
            key: v.next_key,
            window: 0,
            width: fallback_size(v).0,
            height: fallback_size(v).1,
            valid: false,
        })
    } else {
        v.surfaces
    }
}

/// After the application opened a window with handle `handle`: the `n`th
/// window opened draws into the `n`th surface, and starts active, light,
/// not full screen and not yet drawn. It is the main window when its surface
/// carries the primary surface's id.
pub open spec fn spec_open_window(v: PlatformView, handle: u64) -> PlatformView {
    let surfaces = surfaces_for_window(v);
    let next_key = if needs_surface(v) { (v.next_key + 1) as u64 } else { v.next_key };
    let s = surfaces[v.windows_opened as int];
    PlatformView {
        surfaces,
        windows: v.windows.push(WindowView {
            key: next_key,
            id: s.id,
            surface: s.key,
            handle: Some(handle),
            active: true,
            fullscreen: false,
            appearance: Appearance::Light,
            rendered: false,
            primary: surfaces[0].id == s.id,
        }),
        windows_opened: v.windows_opened + 1,
        next_surface: if needs_surface(v) { (v.next_surface + 1) as u64 } else { v.next_surface },
        next_key: (next_key + 1) as u64,
        ..v
    }
}

/// Surface names are handed out once and never reused: each name asked of
/// the host carries the counter, which opening a window never lowers and
/// raises past every name it hands out, and different counters give
/// different names.
pub proof fn surface_names_are_not_reused(v: PlatformView, handle: u64, a: u64, b: u64)
    requires
        v.next_surface < u64::MAX,
    ensures
        spec_open_window(v, handle).next_surface >= v.next_surface,
        needs_surface(v) ==> spec_open_window(v, handle).next_surface > v.next_surface,
        a != b ==> surface_name(a) != surface_name(b),
{
    if surface_name(a) == surface_name(b) {
        let prefix = 13int;
        assert(surface_name(a).subrange(prefix, surface_name(a).len() as int) =~= spec_decimal(a as nat));
        assert(surface_name(b).subrange(prefix, surface_name(b).len() as int) =~= spec_decimal(b as nat));
        decimal_is_injective(a as nat, b as nat);
    }
}

/// What opening a window asks of the host: a new window and its theme, when
/// the window needs a surface of its own.
pub open spec fn open_window_effects(v: PlatformView) -> Seq<EffectView> {
    if needs_surface(v) {
        let id = surface_name(v.next_surface);
        seq![
            EffectView::CreateWindow { id, width: fallback_size(v).0, height: fallback_size(v).1 },
            EffectView::HostOp { op: OP_SET_APPEARANCE, arg: for_window(id, theme_name(v.theme)) },
        ]
    } else {
        Seq::empty()
    }
}

/// The surfaces once the pending sizes were applied in order: each size
/// goes to the surface its id names, which then counts as valid; a size for
/// an id no surface has is dropped.
pub open spec fn applied_sizes(surfaces: Seq<SurfaceView>, pending: Seq<(Seq<char>, u32, u32)>) -> Seq<SurfaceView>
    decreases pending.len(),
{
    if pending.len() == 0 {
        surfaces
    } else {
        let prev = applied_sizes(surfaces, pending.drop_last());
        let (id, width, height) = pending.last();
        let at = find_surface(prev, id);
        if at == -1 {
            prev
        } else {
            prev.update(at, SurfaceView { width, height, valid: true, ..prev[at] })
        }
    }
}

/// What applying the pending sizes tells the windows: for each size that
/// found its surface, the windows drawing into it get the size, and then
/// every window is asked for a frame.
pub open spec fn size_effects(v: PlatformView, pending: Seq<(Seq<char>, u32, u32)>) -> Seq<EffectView>
    decreases pending.len(),
{
    if pending.len() == 0 {
        Seq::empty()
    } else {
        let prev = size_effects(v, pending.drop_last());
        let (id, width, height) = pending.last();
        let at = find_surface(v.surfaces, id);
        if at == -1 {
            prev
        } else {
            prev + resize_effects(matching_keys(v.windows, false, Some(v.surfaces[at].key)), width, height)
                + frame_effects(v.windows)
        }
    }
}

/// A per-window host event split into the surface id and the payload; an
/// event without a tab names no surface.
pub open spec fn spec_split_window_event(arg: Seq<char>) -> (Seq<char>, Seq<char>) {
    match spec_split_once(arg, '\t') {
        Some((id, value)) => (id, value),
        None => (Seq::empty(), arg),
    }
}

/// The system colours a host report stands for: "0" is dark, anything else
/// light.
pub open spec fn reported_appearance(arg: Seq<char>) -> Appearance {
    if arg == seq!['0'] {
        Appearance::Dark
    } else {
        Appearance::Light
    }
}

/// Every window with the given appearance.
pub open spec fn with_appearance(windows: Seq<WindowView>, a: Appearance) -> Seq<WindowView> {
    Seq::new(windows.len(), |i: int| WindowView { appearance: a, ..windows[i] })
}

/// The windows whose appearance changes to `a`, told so in order.
pub open spec fn appearance_effects(windows: Seq<WindowView>, a: Appearance) -> Seq<EffectView>
    decreases windows.len(),
{
    if windows.len() == 0 {
        Seq::empty()
    } else {
        let prev = appearance_effects(windows.drop_last(), a);
        if windows.last().appearance != a {
            prev.push(EffectView::AppearanceChanged { window: windows.last().key })
        } else {
            prev
        }
    }
}

/// The windows an event reaches (see `matches`) set to full screen or not.
pub open spec fn with_fullscreen(windows: Seq<WindowView>, any: bool, surface: Option<u64>, fullscreen: bool) -> Seq<WindowView> {
    Seq::new(windows.len(), |i: int| if matches(windows[i], any, surface) {
        WindowView { fullscreen, ..windows[i] }
    } else {
        windows[i]
    })
}

/// Which windows a focus change sets active or inactive: with `all`, every
/// window, active exactly when its id is `id`; otherwise the windows the
/// event reaches, set to `active`.
pub struct FocusPlan {
    pub all: bool,
    pub id: Seq<char>,
    pub any: bool,
    pub surface: Option<u64>,
    pub active: bool,
}

/// What the plan wants of a window's activity, if anything.
pub open spec fn wanted_active(plan: FocusPlan, w: WindowView) -> Option<bool> {
    if plan.all {
        Some(w.id == plan.id)
    } else if matches(w, plan.any, plan.surface) {
        Some(plan.active)
    } else {
        None
    }
}

/// The windows after the plan.
pub open spec fn focused_windows(windows: Seq<WindowView>, plan: FocusPlan) -> Seq<WindowView> {
    Seq::new(windows.len(), |i: int| match wanted_active(plan, windows[i]) {
        Some(a) => WindowView { active: a, ..windows[i] },
        None => windows[i],
    })
}

/// The windows whose activity the plan changes, told so in order.
pub open spec fn focus_effects(windows: Seq<WindowView>, plan: FocusPlan) -> Seq<EffectView>
    decreases windows.len(),
{
    if windows.len() == 0 {
        Seq::empty()
    } else {
        let prev = focus_effects(windows.drop_last(), plan);
        match wanted_active(plan, windows.last()) {
            Some(a) => if a != windows.last().active {
                prev.push(EffectView::ActiveChanged { window: windows.last().key, active: a })
            } else {
                prev
            },
            None => prev,
        }
    }
}

/// The plan for a queued focus change: a window gaining focus makes it the
/// only active one; a blur, or a focus that names no surface, sets the
/// windows it reaches.
pub open spec fn plan_for(v: PlatformView, id: Seq<char>, active: bool) -> FocusPlan {
    FocusPlan {
        all: active && id.len() > 0,
        id,
        any: id.len() == 0,
        surface: surface_key_of(v, id),
        active,
    }
}

/// After the queued focus change was applied.
pub open spec fn spec_apply_focus(v: PlatformView) -> PlatformView {
    match v.pending_focus {
        Some((id, active)) => PlatformView {
            windows: focused_windows(v.windows, plan_for(v, id, active)),
            pending_focus: None,
            ..v
        },
        None => v,
    }
}

/// What applying the queued focus change tells the windows.
pub open spec fn apply_focus_effects(v: PlatformView) -> Seq<EffectView> {
    match v.pending_focus {
        Some((id, active)) => focus_effects(v.windows, plan_for(v, id, active)),
        None => Seq::empty(),
    }
}

/// `file://` followed by the folder.
pub open spec fn file_url(folder: Seq<char>) -> Seq<char> {
    seq!['f', 'i', 'l', 'e', ':', '/', '/'] + folder
}

/// After the folder `uri` was delivered: an open listener gets it as a URL,
/// otherwise it waits.
pub open spec fn spec_deliver(v: PlatformView, uri: Seq<char>) -> PlatformView {
    if v.open_listener {
        v
    } else {
        PlatformView { restore_folder: Some(uri), ..v }
    }
}

pub open spec fn deliver_effects(v: PlatformView, uri: Seq<char>) -> Seq<EffectView> {
    if v.open_listener {
        seq![EffectView::OpenUrls { urls: seq![file_url(uri)] }]
    } else {
        Seq::empty()
    }
}

/// After handing the previous session's folder on: a waiting folder is
/// delivered and counts as pulled; without one, the host is asked once.
pub open spec fn spec_deliver_restore(v: PlatformView) -> PlatformView {
    match v.restore_folder {
        Some(uri) => spec_deliver(PlatformView { restore_folder: None, restore_pulled: true, ..v }, uri),
        None => PlatformView { restore_pulled: true, ..v },
    }
}

pub open spec fn deliver_restore_effects(v: PlatformView) -> Seq<EffectView> {
    match v.restore_folder {
        Some(uri) => deliver_effects(PlatformView { restore_folder: None, restore_pulled: true, ..v }, uri),
        None => if !v.restore_pulled { seq![EffectView::PullRestoreFolder] } else { Seq::empty() },
    }
}

/// The lines that are not empty, in order.
pub open spec fn nonempty_lines(lines: Seq<Seq<char>>) -> Seq<Seq<char>>
    decreases lines.len(),
{
    if lines.len() == 0 {
        Seq::empty()
    } else {
        let prev = nonempty_lines(lines.drop_last());
        if lines.last().len() > 0 {
            prev.push(lines.last())
        } else {
            prev
        }
    }
}

/// Index of the first ASCII digit at or after `from`, or the length.
pub open spec fn first_digit(text: Seq<char>, from: int) -> int
    decreases text.len() - from,
{
    if from < 0 || from >= text.len() {
        text.len() as int
    } else if '0' <= text[from] <= '9' {
        from
    } else {
        first_digit(text, from + 1)
    }
}

/// The pick a picker token names: its text from the first digit on, read as
/// a number; a token that names no number names pick 0.
pub open spec fn token_pick_id(token: Seq<char>) -> u64 {
    let digits = token.subrange(first_digit(token, 0), token.len() as int);
    match spec_parse_int(digits, 0, u64::MAX as int) {
        Some(n) => n as u64,
        None => 0,
    }
}

/// Index of `id` among the waiting picks, or -1.
pub open spec fn pick_from(picks: Seq<u64>, id: u64, from: int) -> int
    decreases picks.len() - from,
{
    if from < 0 || from >= picks.len() {
        -1
    } else if picks[from] == id {
        from
    } else {
        pick_from(picks, id, from + 1)
    }
}

/// The picker answer event: "token\tlines". The waiter of the pick the token
/// names gets the non-empty lines and stops waiting; without a waiter the
/// answer is dropped.
pub open spec fn spec_pick_result(v: PlatformView, arg: Seq<char>) -> PlatformView {
    let token = match spec_split_once(arg, '\t') { Some((t, _)) => t, None => arg };
    let at = pick_from(v.picks, token_pick_id(token), 0);
    if at == -1 {
        v
    } else {
        PlatformView { picks: v.picks.remove(at), ..v }
    }
}

pub open spec fn pick_result_effects(v: PlatformView, arg: Seq<char>) -> Seq<EffectView> {
    let (token, rest) = match spec_split_once(arg, '\t') { Some((t, r)) => (t, r), None => (arg, Seq::empty()) };
    let id = token_pick_id(token);
    if pick_from(v.picks, id, 0) == -1 {
        seq![EffectView::PickDropped { id }]
    } else {
        seq![EffectView::PickAnswer { id, lines: nonempty_lines(spec_lines(rest)) }]
    }
}

proof fn lemma_pick_from_finds(picks: Seq<u64>, id: u64, from: int, k: int)
    requires
        0 <= from <= k < picks.len(),
        picks[k] == id,
    ensures
        from <= pick_from(picks, id, from) <= k,
        picks[pick_from(picks, id, from)] == id,
    decreases picks.len() - from,
{
    if picks[from] != id {
        lemma_pick_from_finds(picks, id, from + 1, k);
    }
}

proof fn lemma_pick_from_absent(picks: Seq<u64>, id: u64, from: int)
    requires
        0 <= from,
        forall|j: int| from <= j < picks.len() ==> picks[j] != id,
    ensures
        pick_from(picks, id, from) == -1,
    decreases picks.len() - from,
{
    if from < picks.len() {
        lemma_pick_from_absent(picks, id, from + 1);
    }
}

proof fn lemma_kept_picks_below(picks: Seq<u64>, canceled: Seq<u64>, next: u64)
    requires
        forall|i: int| 0 <= i < picks.len() ==> #[trigger] picks[i] < next,
    ensures
        forall|i: int| 0 <= i < without_canceled(picks, canceled).len() ==> #[trigger] without_canceled(picks, canceled)[i] < next,
    decreases picks.len(),
{
    if picks.len() > 0 {
        let prev = without_canceled(picks.drop_last(), canceled);
        assert forall|i: int| 0 <= i < picks.drop_last().len() implies #[trigger] picks.drop_last()[i] < next by {
            assert(picks.drop_last()[i] == picks[i]);
        }
        lemma_kept_picks_below(picks.drop_last(), canceled, next);
        assert(picks.last() == picks[picks.len() - 1]);
    }
}

/// The token the picker's answer carries for pick `id`, as the request
/// named it.
pub open spec fn pick_token(id: u64) -> Seq<char> {
    seq!['p'] + spec_decimal(id as nat)
}

proof fn lemma_pick_token(id: u64, rest: Seq<char>)
    ensures
        spec_split_once(pick_token(id) + seq!['\t'] + rest, '\t') == Some((pick_token(id), rest)),
        token_pick_id(pick_token(id)) == id,
{
    let d = spec_decimal(id as nat);
    decimal_reads_back(id as nat);
    parse_reads_decimal(id as nat, u64::MAX as int);
    let token = pick_token(id);
    let arg = token + seq!['\t'] + rest;
    assert(arg[token.len() as int] == '\t');
    assert forall|j: int| 0 <= j < token.len() implies arg[j] != '\t' by {
        assert(arg[j] == token[j]);
        if j > 0 {
            assert(token[j] == d[j - 1]);
            assert(crate::text::is_digit(d[j - 1]));
        }
    }
    lemma_next_index_of(arg, '\t', 0);
    let at = next_index_of(arg, '\t', 0);
    if at < token.len() {
        assert(arg[at] == '\t');
    }
    if at > token.len() {
        assert(arg[token.len() as int] != '\t');
    }
    assert(at == token.len());
    assert(arg.subrange(0, at) =~= token);
    assert(arg.subrange(at + 1, arg.len() as int) =~= rest);
    assert(token[1] == d[0]);
    assert(crate::text::is_digit(d[0]));
    assert(first_digit(token, 1) == 1);
    assert(first_digit(token, 0) == 1);
    assert(token.subrange(1, token.len() as int) =~= d);
}

/// A pick's answer reaches the one waiting for it, once: when the host
/// answers the pick just started, with the token the request named, the
/// waiter gets the answer's non-empty lines; the same answer arriving again
/// finds nobody waiting and is dropped.
pub proof fn a_pick_is_answered_once(v: PlatformView, canceled: Seq<u64>, rest: Seq<char>)
    requires
        picks_wf(v.picks, v.next_pick_id),
        v.next_pick_id < u64::MAX,
    ensures
        ({
            let id = v.next_pick_id;
            let started = spec_start_pick(v, canceled);
            let answer = pick_token(id) + seq!['\t'] + rest;
            &&& started.picks.contains(id)
            &&& pick_result_effects(started, answer) == seq![EffectView::PickAnswer { id, lines: nonempty_lines(spec_lines(rest)) }]
            &&& !spec_pick_result(started, answer).picks.contains(id)
            &&& pick_result_effects(spec_pick_result(started, answer), answer) == seq![EffectView::PickDropped { id }]
        }),
{
    let id = v.next_pick_id;
    let started = spec_start_pick(v, canceled);
    let answer = pick_token(id) + seq!['\t'] + rest;
    lemma_pick_token(id, rest);
    let kept = without_canceled(v.picks, canceled);
    lemma_kept_picks_below(v.picks, canceled, id);
    assert(started.picks == kept.push(id));
    assert(started.picks[kept.len() as int] == id);
    lemma_pick_from_finds(started.picks, id, 0, kept.len() as int);
    let at = pick_from(started.picks, id, 0);
    if at < kept.len() {
        assert(started.picks[at] == kept[at]);
        assert(kept[at] < id);
    }
    assert(at == kept.len());
    let after = spec_pick_result(started, answer);
    assert(after.picks =~= kept);
    assert forall|j: int| 0 <= j < after.picks.len() implies after.picks[j] != id by {
        assert(kept[j] < id);
    }
    lemma_pick_from_absent(after.picks, id, 0);
    assert(!after.picks.contains(id)) by {
        if after.picks.contains(id) {
            let j = choose|j: int| 0 <= j < after.picks.len() && after.picks[j] == id;
            assert(kept[j] < id);
        }
    }
}

/// An answer whose token names no waiting pick (no number, or one no pick
/// waits for) reaches nobody: every waiting pick keeps waiting, nothing
/// else of the registry changes, and the answer is only reported dropped.
pub proof fn an_unmatched_answer_is_dropped(v: PlatformView, arg: Seq<char>)
    requires
        !v.picks.contains(token_pick_id(match spec_split_once(arg, '\t') { Some((t, _)) => t, None => arg })),
    ensures
        spec_host_event(v, EVENT_PICK_RESULT, arg) == v,
        host_event_effects(v, EVENT_PICK_RESULT, arg) == seq![EffectView::PickDropped {
            id: token_pick_id(match spec_split_once(arg, '\t') { Some((t, _)) => t, None => arg }),
        }],
{
    let token = match spec_split_once(arg, '\t') { Some((t, _)) => t, None => arg };
    let id = token_pick_id(token);
    assert forall|j: int| 0 <= j < v.picks.len() implies v.picks[j] != id by {
        if v.picks[j] == id {
            assert(v.picks.contains(id));
        }
    }
    lemma_pick_from_absent(v.picks, id, 0);
}

/// The lifecycle event: what it asks of the application.
pub open spec fn lifecycle_effects(arg: Seq<char>) -> Seq<EffectView> {
    if arg == seq!['b', 'a', 'c', 'k', 'g', 'r', 'o', 'u', 'n', 'd'] || arg == seq!['d', 'e', 's', 't', 'r', 'o', 'y'] {
        seq![EffectView::Quit]
    } else if arg == seq!['n', 'e', 'w', 'w', 'a', 'n', 't'] {
        seq![EffectView::Reopen]
    } else if arg == seq!['f', 'o', 'r', 'e', 'g', 'r', 'o', 'u', 'n', 'd'] {
        seq![EffectView::SystemWake]
    } else {
        Seq::empty()
    }
}

/// The frames the benchmark event asks for: the number it carries, 720 when
/// it carries none.
pub open spec fn benchmark_frames_of(arg: Seq<char>) -> u32 {
    match spec_parse_int(arg, 0, u32::MAX as int) {
        Some(n) => n as u32,
        None => 720,
    }
}

/// The registry after the host pushed event `kind` with `arg`.
pub open spec fn spec_host_event(v: PlatformView, kind: i32, arg: Seq<char>) -> PlatformView {
    let (id, value) = spec_split_window_event(arg);
    if kind == EVENT_APPEARANCE {
        let a = reported_appearance(arg);
        if v.appearance != a {
            PlatformView { appearance: a, windows: with_appearance(v.windows, a), ..v }
        } else {
            v
        }
    } else if kind == EVENT_FOCUS {
        PlatformView {
            focused: noted_focus(v.focused, id, value != seq!['0']),
            pending_focus: Some((id, value != seq!['0'])),
            ..v
        }
    } else if kind == EVENT_WINDOW_STATUS {
        let fullscreen = value == seq!['1'] || value == seq!['2'];
        PlatformView { windows: with_fullscreen(v.windows, id.len() == 0, surface_key_of(v, id), fullscreen), ..v }
    } else if kind == EVENT_BENCHMARK {
        PlatformView { benchmark_frames: benchmark_frames_of(arg), ..v }
    } else if kind == EVENT_RESTORE_FOLDER && arg.len() > 0 {
        spec_deliver_restore(PlatformView { restore_folder: Some(arg), ..v })
    } else if kind == EVENT_PICK_RESULT {
        spec_pick_result(v, arg)
    } else {
        v
    }
}

/// What the host event asks to be done.
pub open spec fn host_event_effects(v: PlatformView, kind: i32, arg: Seq<char>) -> Seq<EffectView> {
    let (id, value) = spec_split_window_event(arg);
    if kind == EVENT_APPEARANCE {
        let a = reported_appearance(arg);
        if v.appearance != a {
            appearance_effects(v.windows, a)
        } else {
            Seq::empty()
        }
    } else if kind == EVENT_WINDOW_RECT {
        seq![EffectView::WindowRect { id, value }]
    } else if kind == EVENT_BENCHMARK {
        frame_effects(v.windows)
    } else if kind == EVENT_LIFECYCLE {
        lifecycle_effects(arg)
    } else if kind == EVENT_RESTORE_FOLDER && arg.len() > 0 {
        deliver_restore_effects(PlatformView { restore_folder: Some(arg), ..v })
    } else if kind == EVENT_PICK_RESULT {
        pick_result_effects(v, arg)
    } else {
        Seq::empty()
    }
}

/// The waiting picks without those whose caller gave up.
pub open spec fn without_canceled(picks: Seq<u64>, canceled: Seq<u64>) -> Seq<u64>
    decreases picks.len(),
{
    if picks.len() == 0 {
        Seq::empty()
    } else {
        let prev = without_canceled(picks.drop_last(), canceled);
        if canceled.contains(picks.last()) {
            prev
        } else {
            prev.push(picks.last())
        }
    }
}

/// A flag as the host reads it.
pub open spec fn flag_text(b: bool) -> Seq<char> {
    if b { seq!['1'] } else { seq!['0'] }
}

/// The payload of a path pick: "p<id>|<files>|<directories>|<multiple>".
pub open spec fn pick_payload(id: u64, files: bool, directories: bool, multiple: bool) -> Seq<char> {
    seq!['p'] + spec_decimal(id as nat) + seq!['|'] + flag_text(files) + seq!['|'] + flag_text(directories) + seq!['|']
        + flag_text(multiple)
}

/// The payload of a new-path pick: "n<id>|<directory>|<suggested name>".
pub open spec fn new_path_payload(id: u64, directory: Seq<char>, suggested: Seq<char>) -> Seq<char> {
    seq!['n'] + spec_decimal(id as nat) + seq!['|'] + directory + seq!['|'] + suggested
}

/// After a pick was started: the picks whose callers gave up are dropped,
/// and the new one waits under the next id.
pub open spec fn spec_start_pick(v: PlatformView, canceled: Seq<u64>) -> PlatformView {
    PlatformView {
        picks: without_canceled(v.picks, canceled).push(v.next_pick_id),
        next_pick_id: (v.next_pick_id + 1) as u64,
        ..v
    }
}

/// Whether some window has drawn a frame.
pub open spec fn any_rendered(windows: Seq<WindowView>) -> bool {
    exists|i: int| 0 <= i < windows.len() && #[trigger] windows[i].rendered
}

/// `s` repeated `n` times.
pub open spec fn repeated(s: Seq<EffectView>, n: nat) -> Seq<EffectView>
    decreases n,
{
    if n == 0 {
        Seq::empty()
    } else {
        repeated(s, (n - 1) as nat) + s
    }
}

/// How many extra frames one tick asks for while the benchmark runs.
pub const BENCHMARK_BURST: usize = 32;

/// The registry once the sizes are applied, at the start of a tick.
pub open spec fn tick_sized(v: PlatformView) -> PlatformView {
    PlatformView { surfaces: applied_sizes(v.surfaces, v.pending_sizes), pending_sizes: Seq::empty(), ..v }
}

/// Whether this tick hands the previous session's folder on: once, after a
/// window has drawn, so the startup window is not left behind.
pub open spec fn tick_delivers(v: PlatformView) -> bool {
    !v.restore_delivered && any_rendered(v.windows)
}

/// The registry after the restore step of a tick.
pub open spec fn tick_restored(v: PlatformView) -> PlatformView {
    let v1 = tick_sized(v);
    if tick_delivers(v1) {
        spec_deliver_restore(PlatformView { restore_delivered: true, ..v1 })
    } else {
        v1
    }
}

/// After one frame of the host's refresh.
pub open spec fn spec_tick(v: PlatformView) -> PlatformView {
    spec_apply_focus(tick_restored(v))
}

/// The previous session's folder is handed on by one tick only: the first
/// tick after a window has drawn does it, and no later tick does it again.
pub proof fn restore_is_handed_on_once(v: PlatformView)
    ensures
        tick_delivers(tick_sized(v)) ==> spec_tick(v).restore_delivered,
        v.restore_delivered ==> spec_tick(v).restore_delivered,
        v.restore_delivered ==> !tick_delivers(tick_sized(v)),
        spec_tick(v).restore_delivered ==> !tick_delivers(tick_sized(spec_tick(v))),
{
}

/// What one tick does, in order: the sizes the surfaces reported are
/// applied, the previous session's folder is handed on, the application's
/// foreground work runs, every window is asked for a frame, the focus the
/// host reported is applied, and while the benchmark runs every window is
/// asked for `BENCHMARK_BURST` more frames.
pub open spec fn tick_effects(v: PlatformView) -> Seq<EffectView> {
    let v1 = tick_sized(v);
    let v2 = tick_restored(v);
    let v3 = spec_apply_focus(v2);
    size_effects(v, v.pending_sizes)
        + (if tick_delivers(v1) { deliver_restore_effects(PlatformView { restore_delivered: true, ..v1 }) } else { Seq::empty() })
        + seq![EffectView::RunForegroundTasks]
        + frame_effects(v2.windows)
        + apply_focus_effects(v2)
        + (if v3.benchmark_frames > 0 { repeated(frame_effects(v3.windows), BENCHMARK_BURST as nat) } else { Seq::empty() })
}

/// The theme the application reports, as the host knows it.
pub open spec fn theme_of(appearance: Option<Appearance>) -> Theme {
    match appearance {
        Some(Appearance::Dark) | Some(Appearance::VibrantDark) => Theme::Dark,
        Some(Appearance::Light) | Some(Appearance::VibrantLight) => Theme::Light,
        None => Theme::System,
    }
}

/// Each open window told the theme.
pub open spec fn theme_effects(windows: Seq<WindowView>, theme: Theme) -> Seq<EffectView> {
    Seq::new(windows.len(), |i: int| EffectView::HostOp { op: OP_SET_APPEARANCE, arg: for_window(windows[i].id, theme_name(theme)) })
}

/// Index of the first window at or after `from` that is active, or -1.
pub open spec fn active_from(windows: Seq<WindowView>, from: int) -> int
    decreases windows.len() - from,
{
    if from < 0 || from >= windows.len() {
        -1
    } else if windows[from].active {
        from
    } else {
        active_from(windows, from + 1)
    }
}

/// Index of the first window at or after `from` opened on surface `id`, or -1.
pub open spec fn window_with_id_from(windows: Seq<WindowView>, id: Seq<char>, from: int) -> int
    decreases windows.len() - from,
{
    if from < 0 || from >= windows.len() {
        -1
    } else if windows[from].id == id {
        from
    } else {
        window_with_id_from(windows, id, from + 1)
    }
}

/// The window an input method command goes to: the active one, or else the
/// window the input method is bound to; with neither, none.
pub open spec fn spec_ime_target(v: PlatformView, owner: Option<Seq<char>>) -> Option<u64> {
    let active = active_from(v.windows, 0);
    if active != -1 {
        Some(v.windows[active].key)
    } else {
        match owner {
            Some(id) => {
                let at = window_with_id_from(v.windows, id, 0);
                if at != -1 { Some(v.windows[at].key) } else { None }
            },
            None => None,
        }
    }
}

/// The handles of the windows that still have one, in the order they were
/// opened.
pub open spec fn handles_of(windows: Seq<WindowView>) -> Seq<u64>
    decreases windows.len(),
{
    if windows.len() == 0 {
        Seq::empty()
    } else {
        let prev = handles_of(windows.drop_last());
        match windows.last().handle {
            Some(h) => prev.push(h),
            None => prev,
        }
    }
}

/// The size the surface `id` has, if it is listed.
pub open spec fn surface_size(v: PlatformView, id: Seq<char>) -> Option<(u32, u32)> {
    let at = find_surface(v.surfaces, id);
    if at == -1 { None } else { Some((v.surfaces[at].width, v.surfaces[at].height)) }
}

/// After a focus report: a focused surface becomes the focused one; a blur
/// clears the focus only when it names the focused surface.
pub open spec fn noted_focus(focused: Option<Seq<char>>, id: Seq<char>, is_focused: bool) -> Option<Seq<char>> {
    if is_focused {
        Some(id)
    } else if focused == Some(id) {
        None
    } else {
        focused
    }
}

/// The pending sizes after surface `id` reported `width` x `height`: an empty
/// size is ignored, a surface that already waits gets its new size in place,
/// any other joins at the end.
pub open spec fn with_size(sizes: Seq<(Seq<char>, u32, u32)>, id: Seq<char>, width: u32, height: u32) -> Seq<(Seq<char>, u32, u32)> {
    if width == 0 || height == 0 {
        sizes
    } else if size_index(sizes, id) != -1 {
        sizes.update(size_index(sizes, id), (id, width, height))
    } else {
        sizes.push((id, width, height))
    }
}

/// Whether a surface with a live native window would be handed a different
/// one: the platform refuses that rather than let two windows draw into one
/// surface.
pub open spec fn refuses(s: SurfaceView, window: u64) -> bool {
    s.valid && s.window != 0 && s.window != window
}

/// The surface with a native window of the given size attached.
pub open spec fn attached(s: SurfaceView, window: u64, width: u32, height: u32) -> SurfaceView {
    SurfaceView { window, width, height, valid: true, ..s }
}

/// After the primary surface `id` was reported: a listed surface takes the
/// window unless it would be refused; an unknown id is put in front.
pub open spec fn spec_set_surface(v: PlatformView, id: Seq<char>, window: u64, width: u32, height: u32) -> PlatformView {
    let at = find_surface(v.surfaces, id);
    if at != -1 {
        if refuses(v.surfaces[at], window) {
            v
        } else {
            PlatformView { surfaces: v.surfaces.update(at, attached(v.surfaces[at], window, width, height)), ..v }
        }
    } else {
        PlatformView {
            surfaces: seq![SurfaceView { id, key: v.next_key, window, width, height, valid: true }] + v.surfaces,
            next_key: (v.next_key + 1) as u64,
            ..v
        }
    }
}

/// The surfaces after another surface `id` was reported, before the refusal
/// check: an unknown id is first listed at the end, with nothing attached.
pub open spec fn listed(v: PlatformView, id: Seq<char>) -> PlatformView {
    if find_surface(v.surfaces, id) != -1 {
        v
    } else {
        PlatformView {
            surfaces: v.surfaces.push(SurfaceView { id, key: v.next_key, window: 0, width: 0, height: 0, valid: false }),
            next_key: (v.next_key + 1) as u64,
            ..v
        }
    }
}

/// After another surface `id` was reported.
pub open spec fn spec_add_surface(v: PlatformView, id: Seq<char>, window: u64, width: u32, height: u32) -> PlatformView {
    let l = listed(v, id);
    let at = find_surface(l.surfaces, id);
    if refuses(l.surfaces[at], window) {
        l
    } else {
        PlatformView { surfaces: l.surfaces.update(at, attached(l.surfaces[at], window, width, height)), ..l }
    }
}

/// Each window in `keys` told its surface has the given size; a window is
/// not told about an empty size.
pub open spec fn resize_effects(keys: Seq<u64>, width: u32, height: u32) -> Seq<EffectView> {
    if width == 0 || height == 0 {
        Seq::empty()
    } else {
        Seq::new(keys.len(), |i: int| EffectView::SurfaceResized { window: keys[i], width, height })
    }
}

/// What reporting another surface tells the windows.
pub open spec fn add_surface_effects(v: PlatformView, id: Seq<char>, window: u64, width: u32, height: u32) -> Seq<EffectView> {
    let l = listed(v, id);
    let at = find_surface(l.surfaces, id);
    if refuses(l.surfaces[at], window) {
        Seq::empty()
    } else {
        resize_effects(matching_keys(l.windows, false, Some(l.surfaces[at].key)), width, height)
    }
}

/// The windows left once the surface with key `key` and id `id` is gone:
/// those the report reaches (every window for an empty id, otherwise those
/// drawing into the surface) are closed, and the others opened on that id
/// lose their handle.
pub open spec fn after_destroy(windows: Seq<WindowView>, any: bool, key: u64, id: Seq<char>) -> Seq<WindowView>
    decreases windows.len(),
{
    if windows.len() == 0 {
        Seq::empty()
    } else {
        let rest = after_destroy(windows.drop_last(), any, key, id);
        let w = windows.last();
        if matches(w, any, Some(key)) {
            rest
        } else if w.id == id {
            rest.push(WindowView { handle: None, ..w })
        } else {
            rest.push(w)
        }
    }
}

/// After the surface `id` was destroyed. An unknown id changes nothing.
pub open spec fn spec_destroyed(v: PlatformView, id: Seq<char>) -> PlatformView {
    let at = find_surface(v.surfaces, id);
    if at == -1 {
        v
    } else {
        let s = v.surfaces[at];
        PlatformView {
            surfaces: v.surfaces.update(at, SurfaceView { window: 0, valid: false, ..s }),
            windows: after_destroy(v.windows, id.len() == 0, s.key, id),
            focused: if v.focused == Some(id) { None } else { v.focused },
            ..v
        }
    }
}

/// What destroying the surface `id` tells the application: each window that
/// drew into it is closed, in the order they were opened.
pub open spec fn destroy_effects(v: PlatformView, id: Seq<char>) -> Seq<EffectView> {
    let keys = route(v, id);
    if find_surface(v.surfaces, id) == -1 {
        Seq::empty()
    } else {
        Seq::new(keys.len(), |i: int| EffectView::WindowClosed { window: keys[i] })
    }
}

/// Every open window asked for a frame, in the order they were opened.
pub open spec fn frame_effects(windows: Seq<WindowView>) -> Seq<EffectView> {
    Seq::new(windows.len(), |i: int| EffectView::RequestFrame { window: windows[i].key })
}


// ---------------------------------------------------------------------------
// Facts about the lookups
// ---------------------------------------------------------------------------

/// Appending effects appends their views.
pub proof fn lemma_views_concat(a: Seq<Effect>, b: Seq<Effect>)
    ensures
        effect_views(a + b) == effect_views(a) + effect_views(b),
{
    assert forall|j: int| 0 <= j < a.len() + b.len() implies #[trigger] effect_views(a + b)[j] == (effect_views(a) + effect_views(b))[j] by {
        if j < a.len() {
            assert((a + b)[j] == a[j]);
        } else {
            assert((a + b)[j] == b[j - a.len()]);
        }
    }
    assert(effect_views(a + b) =~= effect_views(a) + effect_views(b));
}

/// Applying sizes changes no surface's id.
pub proof fn lemma_applied_keeps_ids(surfaces: Seq<SurfaceView>, pending: Seq<(Seq<char>, u32, u32)>, j: int)
    ensures
        applied_sizes(surfaces, pending).len() == surfaces.len(),
        0 <= j < surfaces.len() ==> applied_sizes(surfaces, pending)[j].id == surfaces[j].id,
    decreases pending.len(),
{
    if pending.len() > 0 {
        lemma_applied_keeps_ids(surfaces, pending.drop_last(), j);
        lemma_find_surface(applied_sizes(surfaces, pending.drop_last()), pending.last().0);
    }
}

/// Each waiting size whose id names a surface is the size that surface has
/// once the sizes are applied, and the surface then counts as valid.
pub proof fn lemma_applied_size_lands(surfaces: Seq<SurfaceView>, pending: Seq<(Seq<char>, u32, u32)>, j: int)
    requires
        distinct_size_ids(pending),
        0 <= j < pending.len(),
        find_surface(surfaces, pending[j].0) != -1,
    ensures
        ({
            let at = find_surface(surfaces, pending[j].0);
            let s = applied_sizes(surfaces, pending)[at];
            s.width == pending[j].1 && s.height == pending[j].2 && s.valid
        }),
    decreases pending.len(),
{
    let id = pending[j].0;
    let at = find_surface(surfaces, id);
    lemma_find_surface(surfaces, id);
    let prev_pending = pending.drop_last();
    let prev = applied_sizes(surfaces, prev_pending);
    assert forall|k: int| 0 <= k < surfaces.len() implies #[trigger] surfaces[k].id == prev[k].id by {
        lemma_applied_keeps_ids(surfaces, prev_pending, k);
    }
    lemma_applied_keeps_ids(surfaces, prev_pending, 0);
    lemma_find_same_ids(surfaces, prev, id, 0);
    let last = pending.last();
    lemma_find_surface(prev, last.0);
    if j < pending.len() - 1 {
        assert(prev_pending[j] == pending[j]);
        assert(distinct_size_ids(prev_pending)) by {
            assert forall|a: int, b: int| 0 <= a < b < prev_pending.len() implies #[trigger] prev_pending[a].0 != #[trigger] prev_pending[b].0 by {
                assert(prev_pending[a] == pending[a] && prev_pending[b] == pending[b]);
            }
        }
        lemma_applied_size_lands(surfaces, prev_pending, j);
        assert(pending[j].0 != pending[pending.len() - 1].0);
    }
}

/// A tick gives each surface the size it last reported, counts it valid,
/// and leaves no size waiting.
pub proof fn a_tick_applies_the_reported_sizes(v: PlatformView, j: int)
    requires
        distinct_size_ids(v.pending_sizes),
        0 <= j < v.pending_sizes.len(),
        find_surface(v.surfaces, v.pending_sizes[j].0) != -1,
    ensures
        ({
            let at = find_surface(v.surfaces, v.pending_sizes[j].0);
            let s = spec_tick(v).surfaces[at];
            &&& s.width == v.pending_sizes[j].1
            &&& s.height == v.pending_sizes[j].2
            &&& s.valid
            &&& spec_tick(v).pending_sizes == Seq::<(Seq<char>, u32, u32)>::empty()
        }),
{
    lemma_applied_size_lands(v.surfaces, v.pending_sizes, j);
}

/// Applying sizes changes no surface's key.
pub proof fn lemma_applied_keeps_keys(surfaces: Seq<SurfaceView>, pending: Seq<(Seq<char>, u32, u32)>)
    ensures
        applied_sizes(surfaces, pending).len() == surfaces.len(),
        forall|j: int| 0 <= j < surfaces.len() ==> #[trigger] applied_sizes(surfaces, pending)[j].key == surfaces[j].key,
    decreases pending.len(),
{
    if pending.len() > 0 {
        lemma_applied_keeps_keys(surfaces, pending.drop_last());
        let prev = applied_sizes(surfaces, pending.drop_last());
        let at = find_surface(prev, pending.last().0);
        lemma_find_surface(prev, pending.last().0);
    }
}

/// Two plans that want the same of every window do the same.
pub proof fn lemma_focus_same(windows: Seq<WindowView>, a: FocusPlan, b: FocusPlan)
    requires
        forall|j: int| 0 <= j < windows.len() ==> wanted_active(a, windows[j]) == wanted_active(b, windows[j]),
    ensures
        focused_windows(windows, a) == focused_windows(windows, b),
        focus_effects(windows, a) == focus_effects(windows, b),
    decreases windows.len(),
{
    assert(focused_windows(windows, a) =~= focused_windows(windows, b));
    if windows.len() > 0 {
        let rest = windows.drop_last();
        assert forall|j: int| 0 <= j < rest.len() implies wanted_active(a, rest[j]) == wanted_active(b, rest[j]) by {
            assert(rest[j] == windows[j]);
        }
        lemma_focus_same(rest, a, b);
        assert(wanted_active(a, windows.last()) == wanted_active(b, windows.last()));
    }
}

/// Two surface lists with the same ids find the same surface for any id.
pub proof fn lemma_find_same_ids(a: Seq<SurfaceView>, b: Seq<SurfaceView>, id: Seq<char>, from: int)
    requires
        a.len() == b.len(),
        forall|j: int| 0 <= j < a.len() ==> #[trigger] a[j].id == b[j].id,
        0 <= from,
    ensures
        surface_from(a, id, from) == surface_from(b, id, from),
    decreases a.len() - from,
{
    if from < a.len() {
        assert(a[from].id == b[from].id);
        lemma_find_same_ids(a, b, id, from + 1);
    }
}

/// A surface appended with an id no listed surface has is the one that id
/// names.
pub proof fn lemma_find_pushed(s: Seq<SurfaceView>, x: SurfaceView, id: Seq<char>, from: int)
    requires
        find_surface(s, id) == -1,
        x.id == id,
        0 <= from <= s.len(),
    ensures
        surface_from(s.push(x), id, from) == s.len(),
    decreases s.len() - from,
{
    lemma_find_surface(s, id);
    if from < s.len() {
        assert(s.push(x)[from] == s[from]);
        lemma_find_pushed(s, x, id, from + 1);
    } else {
        assert(s.push(x)[from] == x);
    }
}

/// Two surface lists with the same keys list the same keys, in the same
/// places.
pub proof fn lemma_same_keys(a: Seq<SurfaceView>, b: Seq<SurfaceView>, next: u64)
    requires
        a.len() == b.len(),
        forall|j: int| 0 <= j < a.len() ==> #[trigger] a[j].key == b[j].key,
    ensures
        forall|k: u64| has_surface(a, k) == has_surface(b, k),
        distinct_surface_keys(a) == distinct_surface_keys(b),
        surface_keys_below(a, next) == surface_keys_below(b, next),
{
    assert forall|k: u64| has_surface(a, k) == has_surface(b, k) by {
        if has_surface(a, k) {
            let j = choose|j: int| 0 <= j < a.len() && #[trigger] a[j].key == k;
            assert(b[j].key == k);
        }
        if has_surface(b, k) {
            let j = choose|j: int| 0 <= j < b.len() && #[trigger] b[j].key == k;
            assert(a[j].key == k);
        }
    }
    if distinct_surface_keys(a) {
        assert forall|i: int, j: int| 0 <= i < j < b.len() implies #[trigger] b[i].key != #[trigger] b[j].key by {
            assert(a[i].key == b[i].key && a[j].key == b[j].key);
        }
    }
    if distinct_surface_keys(b) {
        assert forall|i: int, j: int| 0 <= i < j < a.len() implies #[trigger] a[i].key != #[trigger] a[j].key by {
            assert(a[i].key == b[i].key && a[j].key == b[j].key);
        }
    }
    if surface_keys_below(a, next) {
        assert forall|i: int| 0 <= i < b.len() implies #[trigger] b[i].key < next by {
            assert(a[i].key == b[i].key);
        }
    }
    if surface_keys_below(b, next) {
        assert forall|i: int| 0 <= i < a.len() implies #[trigger] a[i].key < next by {
            assert(a[i].key == b[i].key);
        }
    }
}

/// An event meant for every window reaches every window, whatever surface
/// it also names.
pub proof fn lemma_matching_any(windows: Seq<WindowView>, a: Option<u64>, b: Option<u64>)
    ensures
        matching_keys(windows, true, a) == matching_keys(windows, true, b),
    decreases windows.len(),
{
    if windows.len() > 0 {
        lemma_matching_any(windows.drop_last(), a, b);
    }
}

/// An event meant for no surface reaches no window.
proof fn lemma_matching_nothing(windows: Seq<WindowView>)
    ensures
        matching_keys(windows, false, None) == Seq::<u64>::empty(),
    decreases windows.len(),
{
    if windows.len() > 0 {
        lemma_matching_nothing(windows.drop_last());
    }
}

/// A non-empty id that names no surface reaches no window, so nothing is
/// asked of any window for it (a close it reports is allowed).
pub proof fn an_unknown_surface_reaches_no_window(v: PlatformView, id: Seq<char>)
    requires
        id.len() > 0,
        find_surface(v.surfaces, id) == -1,
    ensures
        route(v, id) == Seq::<u64>::empty(),
{
    lemma_matching_nothing(v.windows);
}

/// Windows the destruction of surface `key` leaves are not reached by it.
pub proof fn lemma_destroy_leaves_none(windows: Seq<WindowView>, any: bool, key: u64, id: Seq<char>)
    ensures
        matching_keys(after_destroy(windows, any, key, id), any, Some(key)) == Seq::<u64>::empty(),
    decreases windows.len(),
{
    if windows.len() > 0 {
        let rest = after_destroy(windows.drop_last(), any, key, id);
        lemma_destroy_leaves_none(windows.drop_last(), any, key, id);
        let w = windows.last();
        if !matches(w, any, Some(key)) {
            let r = after_destroy(windows, any, key, id);
            assert(r.drop_last() == rest);
        }
    }
}

/// Once the surface `id` names is destroyed, it is invalid and bound to no
/// native window, no window is reached through it any more (nor through
/// the empty id, which names them all), and it no longer holds the focus;
/// each window that drew into it was told it closed, in the order they were
/// opened.
pub proof fn a_destroyed_surface_is_let_go(v: PlatformView, id: Seq<char>)
    requires
        find_surface(v.surfaces, id) != -1,
    ensures
        ({
            let at = find_surface(v.surfaces, id);
            let after = spec_destroyed(v, id);
            &&& find_surface(after.surfaces, id) == at
            &&& !after.surfaces[at].valid
            &&& after.surfaces[at].window == 0
            &&& route(after, id) == Seq::<u64>::empty()
            &&& after.focused != Some(id)
            &&& destroy_effects(v, id) == Seq::new(route(v, id).len(), |i: int| EffectView::WindowClosed { window: route(v, id)[i] })
        }),
{
    let at = find_surface(v.surfaces, id);
    lemma_find_surface(v.surfaces, id);
    let s = v.surfaces[at];
    let after = spec_destroyed(v, id);
    let any = id.len() == 0;
    assert forall|j: int| 0 <= j < v.surfaces.len() implies #[trigger] v.surfaces[j].id == after.surfaces[j].id by {}
    lemma_find_same_ids(v.surfaces, after.surfaces, id, 0);
    lemma_destroy_leaves_none(v.windows, any, s.key, id);
    if any {
        lemma_matching_any(after.windows, None, Some(s.key));
    }
}

/// A window-status report "id\tvalue" sets the windows it reaches (every
/// window for an empty id, otherwise those drawing into the surface the id
/// names) to full screen when the value is "1" (full screen) or "2"
/// (maximised), and out of full screen for any other value; no other window
/// and nothing else of the registry changes.
pub proof fn window_status_sets_fullscreen(v: PlatformView, arg: Seq<char>)
    ensures
        ({
            let (id, value) = spec_split_window_event(arg);
            let after = spec_host_event(v, EVENT_WINDOW_STATUS, arg);
            let full = value == "1"@ || value == "2"@;
            &&& after.windows.len() == v.windows.len()
            &&& forall|i: int| 0 <= i < v.windows.len() ==> #[trigger] after.windows[i] == if matches(v.windows[i], id.len() == 0, surface_key_of(v, id)) {
                WindowView { fullscreen: full, ..v.windows[i] }
            } else {
                v.windows[i]
            }
            &&& after == PlatformView { windows: after.windows, ..v }
        }),
{
    reveal_strlit("1");
    reveal_strlit("2");
    assert("1"@ =~= seq!['1']);
    assert("2"@ =~= seq!['2']);
}

/// The host's words for the application's life: going to the background
/// or being destroyed asks it to quit, a new want asks it to reopen, coming
/// to the foreground wakes it, and any other word asks nothing.
pub proof fn lifecycle_words_ask_what_they_say(arg: Seq<char>)
    ensures
        lifecycle_effects(arg) == if arg == "background"@ || arg == "destroy"@ {
            seq![EffectView::Quit]
        } else if arg == "newwant"@ {
            seq![EffectView::Reopen]
        } else if arg == "foreground"@ {
            seq![EffectView::SystemWake]
        } else {
            Seq::<EffectView>::empty()
        },
{
    reveal_strlit("background");
    reveal_strlit("destroy");
    reveal_strlit("newwant");
    reveal_strlit("foreground");
    assert("background"@ =~= seq!['b', 'a', 'c', 'k', 'g', 'r', 'o', 'u', 'n', 'd']);
    assert("destroy"@ =~= seq!['d', 'e', 's', 't', 'r', 'o', 'y']);
    assert("newwant"@ =~= seq!['n', 'e', 'w', 'w', 'a', 'n', 't']);
    assert("foreground"@ =~= seq!['f', 'o', 'r', 'e', 'g', 'r', 'o', 'u', 'n', 'd']);
}

/// "0" reports dark system colours and anything else light; a focus report
/// "id\t0" takes the focus from the surface `id` and any other value gives
/// it, both noted at once and queued for the frame loop.
pub proof fn host_reports_read_zero_as_off(v: PlatformView, arg: Seq<char>)
    ensures
        reported_appearance(arg) == if arg == "0"@ { Appearance::Dark } else { Appearance::Light },
        ({
            let (id, value) = spec_split_window_event(arg);
            let after = spec_host_event(v, EVENT_FOCUS, arg);
            &&& after.pending_focus == Some((id, value != "0"@))
            &&& after.focused == noted_focus(v.focused, id, value != "0"@)
        }),
{
    reveal_strlit("0");
    assert("0"@ =~= seq!['0']);
}

/// The names the host knows themes and window kinds by.
pub proof fn themes_and_window_kinds_are_named_plainly()
    ensures
        theme_name(Theme::System) == "system"@,
        theme_name(Theme::Light) == "light"@,
        theme_name(Theme::Dark) == "dark"@,
        spec_window_kind_name(WindowKind::Normal) == "normal"@,
        spec_window_kind_name(WindowKind::Floating) == "floating"@,
        spec_window_kind_name(WindowKind::PopUp) == "popup"@,
        spec_window_kind_name(WindowKind::AnchoredPopup) == "popup"@,
        spec_window_kind_name(WindowKind::Dialog) == "dialog"@,
{
    reveal_strlit("system");
    reveal_strlit("light");
    reveal_strlit("dark");
    reveal_strlit("normal");
    reveal_strlit("floating");
    reveal_strlit("popup");
    reveal_strlit("dialog");
    assert("system"@ =~= seq!['s', 'y', 's', 't', 'e', 'm']);
    assert("light"@ =~= seq!['l', 'i', 'g', 'h', 't']);
    assert("dark"@ =~= seq!['d', 'a', 'r', 'k']);
    assert("normal"@ =~= seq!['n', 'o', 'r', 'm', 'a', 'l']);
    assert("floating"@ =~= seq!['f', 'l', 'o', 'a', 't', 'i', 'n', 'g']);
    assert("popup"@ =~= seq!['p', 'o', 'p', 'u', 'p']);
    assert("dialog"@ =~= seq!['d', 'i', 'a', 'l', 'o', 'g']);
}

/// Destroying the same surface again leaves the windows as they are.
pub proof fn lemma_destroy_twice(windows: Seq<WindowView>, any: bool, key: u64, id: Seq<char>)
    ensures
        after_destroy(after_destroy(windows, any, key, id), any, key, id) == after_destroy(windows, any, key, id),
    decreases windows.len(),
{
    if windows.len() > 0 {
        lemma_destroy_twice(windows.drop_last(), any, key, id);
        let rest = after_destroy(windows.drop_last(), any, key, id);
        let r = after_destroy(windows, any, key, id);
        let w = windows.last();
        if !matches(w, any, Some(key)) {
            assert(r.drop_last() == rest);
        }
    }
}


/// Split a per-window host event into the surface id and the payload.
pub fn split_window_event(arg: &str) -> (parts: (String, String))
    ensures
        (parts.0@, parts.1@) == spec_split_window_event(arg@),
{
    match split_once(arg, '\t') {
        Some((id, value)) => (id, value),
        None => (String::new(), arg.to_owned()),
    }
}

/// The pick a picker token names; see `token_pick_id`.
pub fn pick_id_of(token: &str) -> (id: u64)
    ensures
        id == token_pick_id(token@),
{
    let chars = chars_of(token);
    let mut i: usize = 0;
    while i < chars.len() && !('0' <= chars[i] && chars[i] <= '9')
        invariant
            i <= chars@.len(),
            chars@ == token@,
            first_digit(token@, i as int) == first_digit(token@, 0),
        decreases chars@.len() - i,
    {
        i = i + 1;
    }
    assert(first_digit(token@, i as int) == i);
    let digits = text_between(chars.as_slice(), i, chars.len());
    match parse_u64(digits.as_str()) {
        Some(id) => id,
        None => 0,
    }
}

/// The lines of `text` that are not empty.
pub fn nonempty_lines_of(text: &str) -> (result: Vec<String>)
    ensures
        texts(result@) == nonempty_lines(spec_lines(text@)),
{
    let all = lines(text);
    let ghost views = all@.map_values(|line: String| line@);
    let mut result: Vec<String> = Vec::new();
    let mut i: usize = 0;
    while i < all.len()
        invariant
            i <= all@.len(),
            views == all@.map_values(|line: String| line@),
            views == spec_lines(text@),
            texts(result@) == nonempty_lines(views.take(i as int)),
        decreases all@.len() - i,
    {
        assert(views.take(i + 1).drop_last() =~= views.take(i as int));
        assert(views.take(i + 1).last() == all@[i as int]@);
        if !all[i].as_str().is_empty() {
            let ghost before = result@;
            result.push(all[i].clone());
            proof {
                assert(texts(result@) =~= texts(before).push(all@[i as int]@));
            }
        }
        i = i + 1;
    }
    proof {
        assert(views.take(i as int) =~= views);
    }
    result
}

/// Whether `text` is exactly the characters of `word`.
fn is_word(text: &str, word: &[char]) -> (same: bool)
    ensures
        same == (text@ =~= word@),
{
    let chars = chars_of(text);
    same_chars(chars.as_slice(), word)
}

impl OhosPlatform {
    /// The registry's invariant: surface and window identities are distinct
    /// and already handed out, every window draws into a listed surface, a
    /// surface reports at most one pending size, and every waiting pick has an
    /// id that was already handed out and no other waiting pick has.
    pub closed spec fn wf(&self) -> bool {
        registry_wf(self@)
    }
    /// A platform with no surface and no window yet. The system's colours
    /// count as light and the theme as following the system until someone
    /// says otherwise.
    pub fn new() -> (platform: Self)
        ensures
            platform.wf(),
            platform@ == initial_view(),
            initial_view() == (PlatformView {
                surfaces: Seq::empty(),
                windows: Seq::empty(),
                focused: None,
                pending_focus: None,
                pending_sizes: Seq::empty(),
                appearance: Appearance::Light,
                theme: Theme::System,
                restore_folder: None,
                restore_pulled: false,
                restore_delivered: false,
                open_listener: false,
                picks: Seq::empty(),
                next_pick_id: 1,
                windows_opened: 0,
                next_surface: 1,
                next_key: 1,
                benchmark_frames: 0,
            }),
    {
        let platform = OhosPlatform {
            surfaces: Vec::new(),
            windows: Vec::new(),
            focused: None,
            pending_focus: None,
            pending_sizes: Vec::new(),
            appearance: Appearance::Light,
            theme: Theme::System,
            restore_folder: None,
            restore_pulled: false,
            restore_delivered: false,
            open_listener: false,
            picks: Vec::new(),
            next_pick_id: 1,
            windows_opened: 0,
            next_surface: 1,
            next_key: 1,
            benchmark_frames: 0,
        };
        proof {
            assert(surface_views(platform.surfaces@) =~= Seq::empty());
            assert(window_views(platform.windows@) =~= Seq::empty());
            assert(size_views(platform.pending_sizes@) =~= Seq::empty());
        }
        platform
    }


    /// Record a focus change reported by the host.
    pub fn note_focus(&mut self, id: &str, focused: bool)
        requires
            old(self).wf(),
        ensures
            final(self).wf(),
            final(self)@ == (PlatformView { focused: noted_focus(old(self)@.focused, id@, focused), ..old(self)@ }),
    {
        if focused {
            self.focused = Some(id.to_owned());
        } else {
            let same = match &self.focused {
                Some(current) => same_text(current.as_str(), id),
                None => false,
            };
            if same {
                self.focused = None;
            }
        }
    }

    /// The surface the host last reported as focused.
    pub fn focused_surface(&self) -> (surface: Option<String>)
        ensures
            opt_text(surface) == self@.focused,
    {
        match &self.focused {
            Some(current) => Some(current.clone()),
            None => None,
        }
    }

    /// Record the size surface `id` reported. An empty size is ignored; the
    /// size is applied by the next `tick`, and a later report for the same
    /// surface replaces an earlier one still waiting.
    pub fn surface_resized(&mut self, id: &str, width: u32, height: u32)
        requires
            old(self).wf(),
        ensures
            final(self).wf(),
            final(self)@ == (PlatformView { pending_sizes: with_size(old(self)@.pending_sizes, id@, width, height), ..old(self)@ }),
    {
        if width == 0 || height == 0 {
            return;
        }
        let owned = id.to_owned();
        let ghost sizes = self@.pending_sizes;
        let mut i: usize = self.pending_sizes.len();
        assert(sizes.take(i as int) =~= sizes);
        while i > 0
            invariant
                i <= self.pending_sizes@.len(),
                sizes == size_views(self.pending_sizes@),
                self@ == old(self)@,
                self.wf(),
                width != 0,
                height != 0,
                owned@ == id@,
                size_index(sizes, id@) == size_index(sizes.take(i as int), id@),
            decreases i,
        {
            i = i - 1;
            assert(sizes.take(i + 1).drop_last() =~= sizes.take(i as int));
            assert(sizes.take(i + 1).last() == sizes[i as int]);
            assert(sizes[i as int].0 == self.pending_sizes@[i as int].0@);
            if self.pending_sizes[i].0 == owned {
                assert(size_index(sizes.take(i + 1), id@) == i);
                proof {
                    lemma_size_index(sizes, id@);
                }
                assert(size_index(sizes, id@) == i as int);
                assert(with_size(sizes, id@, width, height) == sizes.update(i as int, (id@, width, height)));
                self.pending_sizes.set(i, (owned, width, height));
                proof {
                    assert(size_views(self.pending_sizes@) =~= sizes.update(i as int, (id@, width, height)));
                }
                return;
            }
        }
        proof {
            lemma_size_index(sizes, id@);
        }
        self.pending_sizes.push((owned, width, height));
        proof {
            assert(size_views(self.pending_sizes@) =~= sizes.push((id@, width, height)));
        }
    }

    /// Take the folder waiting to be handed to the application.
    pub fn take_restore_folder(&mut self) -> (folder: Option<String>)
        requires
            old(self).wf(),
        ensures
            final(self).wf(),
            opt_text(folder) == old(self)@.restore_folder,
            final(self)@ == (PlatformView { restore_folder: None, ..old(self)@ }),
    {
        let folder = match &self.restore_folder {
            Some(folder) => Some(folder.clone()),
            None => None,
        };
        self.restore_folder = None;
        assert(self@.surfaces == old(self)@.surfaces);
        assert(self@.windows == old(self)@.windows);
        assert(self@.pending_sizes == old(self)@.pending_sizes);
        folder
    }

    /// How many windows are open.
    pub fn window_count(&self) -> (count: usize)
        ensures
            count == self@.windows.len(),
    {
        self.windows.len()
    }

    /// The open windows' keys, in the order they were opened.
    pub fn windows(&self) -> (keys: Vec<u64>)
        ensures
            keys@ == all_keys(self@.windows),
    {
        let mut keys: Vec<u64> = Vec::new();
        let mut i: usize = 0;
        while i < self.windows.len()
            invariant
                i <= self.windows@.len(),
                keys@ == all_keys(self@.windows).take(i as int),
            decreases self.windows@.len() - i,
        {
            keys.push(self.windows[i].key);
            proof {
                assert(all_keys(self@.windows).take(i + 1) =~= all_keys(self@.windows).take(i as int).push(self.windows@[i as int].key));
            }
            i = i + 1;
        }
        proof {
            assert(all_keys(self@.windows).take(i as int) =~= all_keys(self@.windows));
        }
        keys
    }

    /// Keys of the windows `matches` accepts, in order.
    fn matching(&self, any: bool, surface: Option<u64>) -> (keys: Vec<u64>)
        ensures
            keys@ == matching_keys(self@.windows, any, surface),
    {
        let ghost ws = self@.windows;
        let mut keys: Vec<u64> = Vec::new();
        let mut i: usize = 0;
        while i < self.windows.len()
            invariant
                i <= self.windows@.len(),
                ws == window_views(self.windows@),
                keys@ == matching_keys(ws.take(i as int), any, surface),
            decreases self.windows@.len() - i,
        {
            assert(ws.take(i + 1).drop_last() =~= ws.take(i as int));
            assert(ws.take(i + 1).last() == self.windows@[i as int]@);
            let hit = match surface {
                Some(key) => self.windows[i].surface == key,
                None => false,
            };
            if any || hit {
                keys.push(self.windows[i].key);
            }
            i = i + 1;
        }
        proof {
            assert(ws.take(i as int) =~= ws);
        }
        keys
    }

    /// The key of the surface `id` names.
    fn surface_key(&self, id: &String) -> (key: Option<u64>)
        ensures
            key == surface_key_of(self@, id@),
    {
        match self.surface_index(id) {
            Some(i) => {
                assert(self@.surfaces[i as int] == self.surfaces@[i as int]@);
                Some(self.surfaces[i].key)
            },
            None => None,
        }
    }

    /// The windows an input event from surface `id` reaches; see `route`.
    pub fn route_targets(&self, id: &str) -> (keys: Vec<u64>)
        ensures
            keys@ == route(self@, id@),
    {
        if id.is_empty() {
            self.matching(true, None)
        } else {
            let id = id.to_owned();
            let key = self.surface_key(&id);
            self.matching(false, key)
        }
    }

    /// Ask every open window for a frame.
    pub fn request_frames(&self) -> (effects: Vec<Effect>)
        ensures
            effect_views(effects@) == frame_effects(self@.windows),
    {
        let mut effects: Vec<Effect> = Vec::new();
        let mut i: usize = 0;
        while i < self.windows.len()
            invariant
                i <= self.windows@.len(),
                effect_views(effects@) == frame_effects(self@.windows).take(i as int),
            decreases self.windows@.len() - i,
        {
            let effect = Effect::RequestFrame { window: self.windows[i].key };
            assert(effect@ == EffectView::RequestFrame { window: self@.windows[i as int].key });
            let ghost before = effects@;
            effects.push(effect);
            proof {
                lemma_views_push(before, effect);
                assert(effect_views(effects@) =~= frame_effects(self@.windows).take(i + 1));
            }
            i = i + 1;
        }
        proof {
            assert(frame_effects(self@.windows).take(i as int) =~= frame_effects(self@.windows));
        }
        effects
    }


    /// The surface at index `i` with a native window of the given size
    /// attached.
    fn attach_at(&mut self, i: usize, window: u64, width: u32, height: u32)
        requires
            old(self).wf(),
            i < old(self).surfaces@.len(),
        ensures
            final(self).wf(),
            final(self)@ == (PlatformView {
                surfaces: old(self)@.surfaces.update(i as int, attached(old(self)@.surfaces[i as int], window, width, height)),
                ..old(self)@
            }),
    {
        let ghost before = self@.surfaces;
        let updated = Surface {
            id: self.surfaces[i].id.clone(),
            key: self.surfaces[i].key,
            window,
            width,
            height,
            valid: true,
        };
        self.surfaces.set(i, updated);
        proof {
            assert(surface_views(self.surfaces@) =~= before.update(i as int, attached(before[i as int], window, width, height)));
            lemma_same_keys(before, self@.surfaces, self@.next_key);
        }
    }

    /// Register the primary surface, the one that launched the application.
    /// A surface already listed under `id` takes the native window, unless it
    /// has a live one of its own that differs (then nothing changes and the
    /// answer is `false`); an unknown id is listed in front.
    pub fn set_surface(&mut self, id: &str, window: u64, width: u32, height: u32) -> (accepted: bool)
        requires
            old(self).wf(),
            old(self)@.next_key < u64::MAX,
        ensures
            final(self).wf(),
            final(self)@ == spec_set_surface(old(self)@, id@, window, width, height),
            accepted == !(find_surface(old(self)@.surfaces, id@) != -1
                && refuses(old(self)@.surfaces[find_surface(old(self)@.surfaces, id@)], window)),
    {
        let owned = id.to_owned();
        match self.surface_index(&owned) {
            Some(i) => {
                assert(self@.surfaces[i as int] == self.surfaces@[i as int]@);
                if self.surfaces[i].valid && self.surfaces[i].window != 0 && self.surfaces[i].window != window {
                    return false;
                }
                self.attach_at(i, window, width, height);
                true
            },
            None => {
                let ghost before = self@.surfaces;
                let key = self.next_key;
                self.surfaces.insert(0, Surface { id: owned, key, window, width, height, valid: true });
                self.next_key = key + 1;
                proof {
                    let fresh = SurfaceView { id: id@, key, window, width, height, valid: true };
                    let after = self@.surfaces;
                    assert(after =~= seq![fresh] + before);
                    assert forall|j: int| 1 <= j < after.len() implies #[trigger] after[j] == before[j - 1] by {}
                    assert forall|k: u64| has_surface(before, k) implies has_surface(after, k) by {
                        let j = choose|j: int| 0 <= j < before.len() && #[trigger] before[j].key == k;
                        assert(after[j + 1].key == k);
                    }
                    assert forall|a: int, b: int| 0 <= a < b < after.len() implies #[trigger] after[a].key != #[trigger] after[b].key by {
                        if a == 0 {
                            assert(after[b].key == before[b - 1].key);
                        } else {
                            assert(after[a].key == before[a - 1].key);
                            assert(after[b].key == before[b - 1].key);
                        }
                    }
                    assert forall|a: int| 0 <= a < after.len() implies #[trigger] after[a].key < self@.next_key by {
                        if a > 0 {
                            assert(after[a].key == before[a - 1].key);
                        }
                    }
                    assert forall|a: int| 0 <= a < self@.windows.len() implies #[trigger] self@.windows[a].key < self@.next_key by {}
                }
                true
            },
        }
    }

    /// Register another surface, one the host created for a window the
    /// application asked for. The window was opened with a placeholder for
    /// this id, so that entry is filled in; an unknown id is listed at the
    /// end. A surface with a live native window of its own that differs
    /// keeps it. The windows drawing into the surface are told its size.
    pub fn add_surface(&mut self, id: &str, window: u64, width: u32, height: u32) -> (effects: Vec<Effect>)
        requires
            old(self).wf(),
            old(self)@.next_key < u64::MAX,
        ensures
            final(self).wf(),
            final(self)@ == spec_add_surface(old(self)@, id@, window, width, height),
            effect_views(effects@) == add_surface_effects(old(self)@, id@, window, width, height),
    {
        let owned = id.to_owned();
        let i = match self.surface_index(&owned) {
            Some(i) => i,
            None => {
                let ghost before = self@.surfaces;
                let key = self.next_key;
                self.surfaces.push(Surface { id: owned, key, window: 0, width: 0, height: 0, valid: false });
                self.next_key = key + 1;
                proof {
                    let fresh = SurfaceView { id: id@, key, window: 0, width: 0, height: 0, valid: false };
                    let after = self@.surfaces;
                    assert(after =~= before.push(fresh));
                    lemma_find_pushed(before, fresh, id@, 0);
                    assert forall|k: u64| has_surface(before, k) implies has_surface(after, k) by {
                        let j = choose|j: int| 0 <= j < before.len() && #[trigger] before[j].key == k;
                        assert(after[j].key == k);
                    }
                    assert forall|a: int, b: int| 0 <= a < b < after.len() implies #[trigger] after[a].key != #[trigger] after[b].key by {
                        assert(after[a].key == before[a].key || a == before.len());
                    }
                    assert forall|a: int| 0 <= a < after.len() implies #[trigger] after[a].key < self@.next_key by {}
                    assert forall|a: int| 0 <= a < self@.windows.len() implies #[trigger] self@.windows[a].key < self@.next_key by {}
                }
                self.surfaces.len() - 1
            },
        };
        let ghost l = self@;
        assert(l == listed(old(self)@, id@));
        assert(find_surface(l.surfaces, id@) == i as int);
        assert(self@.surfaces[i as int] == self.surfaces@[i as int]@);
        if self.surfaces[i].valid && self.surfaces[i].window != 0 && self.surfaces[i].window != window {
            return Vec::new();
        }
        let key = self.surfaces[i].key;
        self.attach_at(i, window, width, height);
        let mut effects: Vec<Effect> = Vec::new();
        if width != 0 && height != 0 {
            let keys = self.matching(false, Some(key));
            let mut j: usize = 0;
            while j < keys.len()
                invariant
                    j <= keys@.len(),
                    width != 0 && height != 0,
                    effect_views(effects@) == resize_effects(keys@, width, height).take(j as int),
                decreases keys@.len() - j,
            {
                let effect = Effect::SurfaceResized { window: keys[j], width, height };
                let ghost before = effects@;
                effects.push(effect);
                proof {
                    lemma_views_push(before, effect);
                    assert(effect_views(effects@) =~= resize_effects(keys@, width, height).take(j + 1));
                }
                j = j + 1;
            }
            proof {
                assert(resize_effects(keys@, width, height).take(j as int) =~= resize_effects(keys@, width, height));
            }
        } else {
            assert(effect_views(effects@) =~= Seq::<EffectView>::empty());
        }
        effects
    }

    /// The host destroyed the native window of surface `id`. The surface
    /// stays listed without it; the windows the report reaches are closed and
    /// forgotten, in the order they were opened, and the focus leaves the
    /// surface. A report about an id no surface has changes nothing.
    pub fn surface_destroyed(&mut self, id: &str) -> (effects: Vec<Effect>)
        requires
            old(self).wf(),
        ensures
            final(self).wf(),
            final(self)@ == spec_destroyed(old(self)@, id@),
            effect_views(effects@) == destroy_effects(old(self)@, id@),
    {
        let owned = id.to_owned();
        let i = match self.surface_index(&owned) {
            Some(i) => i,
            None => {
                let effects: Vec<Effect> = Vec::new();
                assert(effect_views(effects@) =~= Seq::<EffectView>::empty());
                return effects;
            },
        };
        let ghost v = self@;
        let any = id.is_empty();
        assert(self@.surfaces[i as int] == self.surfaces@[i as int]@);
        let key = self.surfaces[i].key;
        let targets = self.route_targets(id);
        proof {
            lemma_matching_any(v.windows, None, Some(key));
        }
        assert(targets@ == matching_keys(v.windows, any, Some(key)));
        // Tell the application about each window that is gone.
        let mut effects: Vec<Effect> = Vec::new();
        let mut j: usize = 0;
        while j < targets.len()
            invariant
                j <= targets@.len(),
                effect_views(effects@) == Seq::new(targets@.len(), |k: int| EffectView::WindowClosed { window: targets@[k] }).take(j as int),
            decreases targets@.len() - j,
        {
            let effect = Effect::WindowClosed { window: targets[j] };
            let ghost before = effects@;
            effects.push(effect);
            proof {
                lemma_views_push(before, effect);
                assert(effect_views(effects@) =~= Seq::new(targets@.len(), |k: int| EffectView::WindowClosed { window: targets@[k] }).take(j + 1));
            }
            j = j + 1;
        }
        proof {
            assert(Seq::new(targets@.len(), |k: int| EffectView::WindowClosed { window: targets@[k] }).take(j as int)
                =~= Seq::new(targets@.len(), |k: int| EffectView::WindowClosed { window: targets@[k] }));
        }
        // The surface stays listed, without a native window.
        let ghost before = self@.surfaces;
        let detached = Surface { id: self.surfaces[i].id.clone(), key, window: 0, width: self.surfaces[i].width, height: self.surfaces[i].height, valid: false };
        self.surfaces.set(i, detached);
        proof {
            assert(surface_views(self.surfaces@) =~= before.update(i as int, SurfaceView { window: 0, valid: false, ..before[i as int] }));
            lemma_same_keys(before, self@.surfaces, self@.next_key);
        }
        // The windows that drew into it go; the others opened on its id lose
        // their handle.
        let ghost old_windows = window_views(self.windows@);
        let mut kept: Vec<Window> = Vec::new();
        let mut k: usize = 0;
        while k < self.windows.len()
            invariant
                k <= self.windows@.len(),
                old_windows == window_views(self.windows@),
                owned@ == id@,
                window_views(kept@) == after_destroy(old_windows.take(k as int), any, key, id@),
                distinct_window_keys(old_windows),
                forall|m: int| 0 <= m < kept@.len() ==> exists|t: int| 0 <= t < k && #[trigger] kept@[m].key == #[trigger] old_windows[t].key
                    && kept@[m].surface == old_windows[t].surface,
                distinct_window_keys(window_views(kept@)),
            decreases self.windows@.len() - k,
        {
            assert(old_windows.take(k + 1).drop_last() =~= old_windows.take(k as int));
            assert(old_windows.take(k + 1).last() == old_windows[k as int]);
            assert(old_windows[k as int] == self.windows@[k as int]@);
            let w = &self.windows[k];
            if !(any || w.surface == key) {
                let same_id = w.id == owned;
                let copy = Window {
                    key: w.key,
                    id: w.id.clone(),
                    surface: w.surface,
                    handle: if same_id { None } else { w.handle },
                    active: w.active,
                    fullscreen: w.fullscreen,
                    appearance: w.appearance,
                    rendered: w.rendered,
                    primary: w.primary,
                };
                let ghost prior = kept@;
                kept.push(copy);
                proof {
                    assert(window_views(kept@) =~= window_views(prior).push(copy@));
                    assert forall|m: int| 0 <= m < kept@.len() implies exists|t: int| 0 <= t < k + 1 && #[trigger] kept@[m].key == #[trigger] old_windows[t].key
                        && kept@[m].surface == old_windows[t].surface by {
                        if m < prior.len() {
                            assert(kept@[m] == prior[m]);
                        } else {
                            assert(kept@[m].key == old_windows[k as int].key);
                        }
                    }
                    assert forall|a: int, b: int| 0 <= a < b < kept@.len() implies #[trigger] window_views(kept@)[a].key != #[trigger] window_views(kept@)[b].key by {
                        if b == prior.len() {
                            assert(kept@[a] == prior[a]);
                            let t = choose|t: int| 0 <= t < k && #[trigger] prior[a].key == #[trigger] old_windows[t].key
                                && prior[a].surface == old_windows[t].surface;
                            assert(old_windows[t].key != old_windows[k as int].key);
                        } else {
                            assert(kept@[a] == prior[a] && kept@[b] == prior[b]);
                            assert(window_views(prior)[a].key != window_views(prior)[b].key);
                        }
                    }
                }
            }
            k = k + 1;
        }
        proof {
            assert(old_windows.take(k as int) =~= old_windows);
        }
        let ghost kept_views = window_views(kept@);
        self.windows = kept;
        proof {
            let s2 = self@.surfaces;
            assert forall|m: int| 0 <= m < kept_views.len() implies has_surface(s2, #[trigger] kept_views[m].surface) by {
                let t = choose|t: int| 0 <= t < old_windows.len() && #[trigger] self.windows@[m].key == #[trigger] old_windows[t].key
                    && self.windows@[m].surface == old_windows[t].surface;
                assert(has_surface(before, old_windows[t].surface));
            }
            assert forall|m: int| 0 <= m < kept_views.len() implies #[trigger] kept_views[m].key < self@.next_key by {
                let t = choose|t: int| 0 <= t < old_windows.len() && #[trigger] self.windows@[m].key == #[trigger] old_windows[t].key
                    && self.windows@[m].surface == old_windows[t].surface;
                assert(old_windows[t].key < self@.next_key);
            }
        }
        // A window that closes never reports a blur.
        let blurred = match &self.focused {
            Some(current) => *current == owned,
            None => false,
        };
        if blurred {
            self.focused = None;
        }
        effects
    }


    /// The name the host knows `theme` by.
    pub fn theme_text(theme: Theme) -> (name: String)
        ensures
            name@ == theme_name(theme),
    {
        match theme {
            Theme::System => text_of(&['s', 'y', 's', 't', 'e', 'm']),
            Theme::Light => text_of(&['l', 'i', 'g', 'h', 't']),
            Theme::Dark => text_of(&['d', 'a', 'r', 'k']),
        }
    }

    /// Bind a window the application opened, with handle `handle`, to a
    /// surface: the `n`th window opened takes the `n`th surface. When every
    /// surface is taken, a placeholder with a fresh name is listed and the
    /// host is asked for a window with that XComponent, told the theme, and
    /// the surface is filled in when the host reports it.
    pub fn open_window(&mut self, handle: u64) -> (result: (u64, Vec<Effect>))
        requires
            old(self).wf(),
            old(self)@.next_key < u64::MAX - 1,
            old(self)@.next_surface < u64::MAX,
            old(self)@.windows_opened < usize::MAX,
        ensures
            final(self).wf(),
            final(self)@ == spec_open_window(old(self)@, handle),
            result.0 == final(self)@.windows.last().key,
            effect_views(result.1@) == open_window_effects(old(self)@),
    {
        let ghost v = self@;
        let index = self.windows_opened;
        let (width, height) = if self.surfaces.len() > 0 {
            (self.surfaces[0].width, self.surfaces[0].height)
        } else {
            (2200u32, 1430u32)
        };
        assert(v.surfaces.len() > 0 ==> v.surfaces[0] == self.surfaces@[0]@);
        let mut effects: Vec<Effect> = Vec::new();
        if self.surfaces.len() <= index {
            let name = concat("gpui_surface_", decimal(self.next_surface).as_str());
            proof {
                reveal_strlit("gpui_surface_");
            }
            assert(name@ == surface_name(v.next_surface));
            let key = self.next_key;
            let ghost before = self@.surfaces;
            self.surfaces.push(Surface { id: name.clone(), key, window: 0, width, height, valid: false });
            self.next_key = key + 1;
            self.next_surface = self.next_surface + 1;
            proof {
                let after = self@.surfaces;
                assert(after =~= surfaces_for_window(v));
                assert forall|k: u64| has_surface(before, k) implies has_surface(after, k) by {
                    let j = choose|j: int| 0 <= j < before.len() && #[trigger] before[j].key == k;
                    assert(after[j].key == k);
                }
                assert forall|a: int, b: int| 0 <= a < b < after.len() implies #[trigger] after[a].key != #[trigger] after[b].key by {
                    assert(after[a].key == before[a].key || a == before.len());
                }
                assert forall|a: int| 0 <= a < after.len() implies #[trigger] after[a].key < self@.next_key by {}
                assert forall|a: int| 0 <= a < self@.windows.len() implies #[trigger] self@.windows[a].key < self@.next_key by {}
            }
            let tab = text_of(&['\t']);
            let with_tab = concat(name.as_str(), tab.as_str());
            let theme = Self::theme_text(self.theme);
            let arg = concat(with_tab.as_str(), theme.as_str());
            assert(tab@ =~= seq!['\t']);
            assert(theme@ == theme_name(v.theme));
            assert(arg@ =~= for_window(name@, theme_name(v.theme)));
            assert(width == fallback_size(v).0 && height == fallback_size(v).1);
            let create = Effect::CreateWindow { id: name, width, height };
            let appearance = Effect::HostOp { op: OP_SET_APPEARANCE, arg };
            let ghost e0 = effects@;
            effects.push(create);
            let ghost e1 = effects@;
            effects.push(appearance);
            proof {
                lemma_views_push(e0, create);
                lemma_views_push(e1, appearance);
                assert(effect_views(effects@) =~= open_window_effects(v));
            }
        } else {
            assert(effect_views(effects@) =~= open_window_effects(v));
        }
        let ghost surfaces = self@.surfaces;
        assert(surfaces =~= surfaces_for_window(v));
        assert(surfaces[index as int] == self.surfaces@[index as int]@);
        assert(surfaces[0] == self.surfaces@[0]@);
        let key = self.next_key;
        let primary = self.surfaces[0].id == self.surfaces[index].id;
        let window = Window {
            key,
            id: self.surfaces[index].id.clone(),
            surface: self.surfaces[index].key,
            handle: Some(handle),
            active: true,
            fullscreen: false,
            appearance: Appearance::Light,
            rendered: false,
            primary,
        };
        let ghost windows_before = self@.windows;
        self.windows.push(window);
        self.next_key = key + 1;
        self.windows_opened = index + 1;
        proof {
            let after = self@.windows;
            assert(after =~= windows_before.push(window@));
            assert(has_surface(surfaces, surfaces[index as int].key));
            assert forall|a: int| 0 <= a < after.len() implies has_surface(surfaces, #[trigger] after[a].surface) by {
                if a < windows_before.len() {
                    assert(after[a] == windows_before[a]);
                }
            }
            assert forall|a: int, b: int| 0 <= a < b < after.len() implies #[trigger] after[a].key != #[trigger] after[b].key by {
                if b < windows_before.len() {
                    assert(after[a] == windows_before[a] && after[b] == windows_before[b]);
                } else {
                    assert(after[a] == windows_before[a]);
                }
            }
            assert forall|a: int| 0 <= a < after.len() implies #[trigger] after[a].key < self@.next_key by {
                if a < windows_before.len() {
                    assert(after[a] == windows_before[a]);
                }
            }
            assert forall|a: int| 0 <= a < surfaces.len() implies #[trigger] surfaces[a].key < self@.next_key by {}
        }
        (key, effects)
    }

    /// Apply the size `id` reported to the surface it names.
    fn apply_size(&mut self, id: &String, width: u32, height: u32) -> (effects: Vec<Effect>)
        requires
            old(self).wf(),
            width != 0,
            height != 0,
        ensures
            final(self).wf(),
            final(self)@ == (PlatformView {
                surfaces: if find_surface(old(self)@.surfaces, id@) == -1 {
                    old(self)@.surfaces
                } else {
                    old(self)@.surfaces.update(find_surface(old(self)@.surfaces, id@),
                        SurfaceView { width, height, valid: true, ..old(self)@.surfaces[find_surface(old(self)@.surfaces, id@)] })
                },
                ..old(self)@
            }),
            effect_views(effects@) == if find_surface(old(self)@.surfaces, id@) == -1 {
                Seq::<EffectView>::empty()
            } else {
                resize_effects(matching_keys(old(self)@.windows, false, Some(old(self)@.surfaces[find_surface(old(self)@.surfaces, id@)].key)), width, height)
                    + frame_effects(old(self)@.windows)
            },
    {
        let i = match self.surface_index(id) {
            Some(i) => i,
            None => {
                let effects: Vec<Effect> = Vec::new();
                assert(effect_views(effects@) =~= Seq::<EffectView>::empty());
                return effects;
            },
        };
        let ghost v = self@;
        assert(v.surfaces[i as int] == self.surfaces@[i as int]@);
        let key = self.surfaces[i].key;
        let resized = Surface {
            id: self.surfaces[i].id.clone(),
            key,
            window: self.surfaces[i].window,
            width,
            height,
            valid: true,
        };
        self.surfaces.set(i, resized);
        proof {
            assert(self@.surfaces =~= v.surfaces.update(i as int, SurfaceView { width, height, valid: true, ..v.surfaces[i as int] }));
            lemma_same_keys(v.surfaces, self@.surfaces, self@.next_key);
        }
        let keys = self.matching(false, Some(key));
        let mut effects: Vec<Effect> = Vec::new();
        let mut j: usize = 0;
        while j < keys.len()
            invariant
                j <= keys@.len(),
                width != 0 && height != 0,
                effect_views(effects@) == resize_effects(keys@, width, height).take(j as int),
            decreases keys@.len() - j,
        {
            let effect = Effect::SurfaceResized { window: keys[j], width, height };
            let ghost before = effects@;
            effects.push(effect);
            proof {
                lemma_views_push(before, effect);
                assert(effect_views(effects@) =~= resize_effects(keys@, width, height).take(j + 1));
            }
            j = j + 1;
        }
        proof {
            assert(resize_effects(keys@, width, height).take(j as int) =~= resize_effects(keys@, width, height));
        }
        let mut frames = self.request_frames();
        let ghost first = effects@;
        let ghost second = frames@;
        effects.append(&mut frames);
        proof {
            lemma_views_concat(first, second);
        }
        effects
    }

    /// Apply every size the surfaces reported since the last frame, in the
    /// order they first reported: leaving one behind would keep that window
    /// at its old size until it was resized again.
    pub fn apply_pending_surface_size(&mut self) -> (effects: Vec<Effect>)
        requires
            old(self).wf(),
        ensures
            final(self).wf(),
            final(self)@ == (PlatformView {
                surfaces: applied_sizes(old(self)@.surfaces, old(self)@.pending_sizes),
                pending_sizes: Seq::empty(),
                ..old(self)@
            }),
            effect_views(effects@) == size_effects(old(self)@, old(self)@.pending_sizes),
    {
        let ghost v = self@;
        let mut pending: Vec<(String, u32, u32)> = Vec::new();
        std::mem::swap(&mut pending, &mut self.pending_sizes);
        proof {
            assert(size_views(self.pending_sizes@) =~= Seq::empty());
        }
        let ghost p = size_views(pending@);
        assert(p == v.pending_sizes);
        let mut effects: Vec<Effect> = Vec::new();
        let mut i: usize = 0;
        while i < pending.len()
            invariant
                i <= pending@.len(),
                p == size_views(pending@),
                self.wf(),
                self@ == (PlatformView { surfaces: applied_sizes(v.surfaces, p.take(i as int)), pending_sizes: Seq::empty(), ..v }),
                effect_views(effects@) == size_effects(v, p.take(i as int)),
                forall|k: int| 0 <= k < p.len() ==> (#[trigger] p[k]).1 != 0 && p[k].2 != 0,
            decreases pending@.len() - i,
        {
            assert(p.take(i + 1).drop_last() =~= p.take(i as int));
            assert(p.take(i + 1).last() == p[i as int]);
            assert(p[i as int].0 == pending@[i as int].0@);
            proof {
                assert forall|j: int| 0 <= j < v.surfaces.len() implies #[trigger] v.surfaces[j].id == self@.surfaces[j].id by {
                    lemma_applied_keeps_ids(v.surfaces, p.take(i as int), j);
                }
                lemma_applied_keeps_ids(v.surfaces, p.take(i as int), 0);
                lemma_find_same_ids(v.surfaces, self@.surfaces, p[i as int].0, 0);
                lemma_applied_keeps_keys(v.surfaces, p.take(i as int));
            }
            let ghost at = find_surface(v.surfaces, p[i as int].0);
            proof {
                lemma_find_surface(v.surfaces, p[i as int].0);
                if at != -1 {
                    assert(self@.surfaces[at].key == v.surfaces[at].key);
                }
            }
            let mut more = self.apply_size(&pending[i].0, pending[i].1, pending[i].2);
            let ghost first = effects@;
            let ghost second = more@;
            effects.append(&mut more);
            proof {
                lemma_views_concat(first, second);
                assert(effect_views(effects@) == size_effects(v, p.take(i + 1)));
            }
            i = i + 1;
        }
        proof {
            assert(p.take(i as int) =~= p);
        }
        effects
    }


    /// Window `i` with new activity, full-screen state and appearance.
    fn set_window_state(&mut self, i: usize, active: bool, fullscreen: bool, appearance: Appearance)
        requires
            old(self).wf(),
            i < old(self).windows@.len(),
        ensures
            final(self).wf(),
            final(self)@ == (PlatformView {
                windows: old(self)@.windows.update(i as int, WindowView { active, fullscreen, appearance, ..old(self)@.windows[i as int] }),
                ..old(self)@
            }),
    {
        let ghost before = self@.windows;
        assert(before[i as int] == self.windows@[i as int]@);
        let w = &self.windows[i];
        let updated = Window {
            key: w.key,
            id: w.id.clone(),
            surface: w.surface,
            handle: w.handle,
            active,
            fullscreen,
            appearance,
            rendered: w.rendered,
            primary: w.primary,
        };
        self.windows.set(i, updated);
        proof {
            let after = self@.windows;
            assert(after =~= before.update(i as int, WindowView { active, fullscreen, appearance, ..before[i as int] }));
            assert forall|a: int, b: int| 0 <= a < b < after.len() implies #[trigger] after[a].key != #[trigger] after[b].key by {
                assert(after[a].key == before[a].key && after[b].key == before[b].key);
            }
            assert forall|a: int| 0 <= a < after.len() implies #[trigger] after[a].key < self@.next_key by {
                assert(after[a].key == before[a].key);
            }
            assert forall|a: int| 0 <= a < after.len() implies has_surface(self@.surfaces, #[trigger] after[a].surface) by {
                assert(after[a].surface == before[a].surface);
            }
        }
    }

    /// The system's colours changed to `appearance`: every window takes them,
    /// and those whose appearance changes are told.
    fn set_system_appearance(&mut self, appearance: Appearance) -> (effects: Vec<Effect>)
        requires
            old(self).wf(),
        ensures
            final(self).wf(),
            final(self)@ == (PlatformView { windows: with_appearance(old(self)@.windows, appearance), ..old(self)@ }),
            effect_views(effects@) == appearance_effects(old(self)@.windows, appearance),
    {
        let ghost v = self@;
        let mut effects: Vec<Effect> = Vec::new();
        let mut i: usize = 0;
        assert(with_appearance(v.windows, appearance).take(0) + v.windows.skip(0) =~= v.windows);
        assert(v.windows.take(0) =~= Seq::<WindowView>::empty());
        assert(effect_views(effects@) =~= Seq::<EffectView>::empty());
        while i < self.windows.len()
            invariant
                i <= self.windows@.len(),
                self.wf(),
                self.windows@.len() == v.windows.len(),
                self@ == (PlatformView {
                    windows: with_appearance(v.windows, appearance).take(i as int) + v.windows.skip(i as int),
                    ..v
                }),
                effect_views(effects@) == appearance_effects(v.windows.take(i as int), appearance),
            decreases self.windows@.len() - i,
        {
            assert(v.windows.take(i + 1).drop_last() =~= v.windows.take(i as int));
            assert(v.windows.take(i + 1).last() == v.windows[i as int]);
            assert(self@.windows[i as int] == v.windows[i as int]);
            assert(self@.windows[i as int] == self.windows@[i as int]@);
            let changed = self.windows[i].appearance != appearance;
            let key = self.windows[i].key;
            let active = self.windows[i].active;
            let fullscreen = self.windows[i].fullscreen;
            self.set_window_state(i, active, fullscreen, appearance);
            proof {
                assert(self@.windows =~= with_appearance(v.windows, appearance).take(i + 1) + v.windows.skip(i + 1));
            }
            if changed {
                let effect = Effect::AppearanceChanged { window: key };
                let ghost before = effects@;
                effects.push(effect);
                proof {
                    lemma_views_push(before, effect);
                }
            }
            i = i + 1;
        }
        proof {
            assert(v.windows.take(i as int) =~= v.windows);
            assert(with_appearance(v.windows, appearance).take(i as int) + v.windows.skip(i as int) =~= with_appearance(v.windows, appearance));
        }
        effects
    }

    /// Set the windows an event reaches full screen or not.
    fn set_fullscreen(&mut self, any: bool, surface: Option<u64>, fullscreen: bool)
        requires
            old(self).wf(),
        ensures
            final(self).wf(),
            final(self)@ == (PlatformView { windows: with_fullscreen(old(self)@.windows, any, surface, fullscreen), ..old(self)@ }),
    {
        let ghost v = self@;
        let mut i: usize = 0;
        assert(with_fullscreen(v.windows, any, surface, fullscreen).take(0) + v.windows.skip(0) =~= v.windows);
        while i < self.windows.len()
            invariant
                i <= self.windows@.len(),
                self.wf(),
                self.windows@.len() == v.windows.len(),
                self@ == (PlatformView {
                    windows: with_fullscreen(v.windows, any, surface, fullscreen).take(i as int) + v.windows.skip(i as int),
                    ..v
                }),
            decreases self.windows@.len() - i,
        {
            assert(self@.windows[i as int] == v.windows[i as int]);
            assert(self@.windows[i as int] == self.windows@[i as int]@);
            let hit = match surface {
                Some(key) => self.windows[i].surface == key,
                None => false,
            };
            if any || hit {
                let active = self.windows[i].active;
                let appearance = self.windows[i].appearance;
                self.set_window_state(i, active, fullscreen, appearance);
            }
            proof {
                assert(self@.windows =~= with_fullscreen(v.windows, any, surface, fullscreen).take(i + 1) + v.windows.skip(i + 1));
            }
            i = i + 1;
        }
        proof {
            assert(with_fullscreen(v.windows, any, surface, fullscreen).take(i as int) + v.windows.skip(i as int)
                =~= with_fullscreen(v.windows, any, surface, fullscreen));
        }
    }

    /// Carry out a focus plan; see `FocusPlan`.
    fn apply_focus_plan(&mut self, all: bool, id: &String, any: bool, surface: Option<u64>, active: bool) -> (effects: Vec<Effect>)
        requires
            old(self).wf(),
        ensures
            final(self).wf(),
            final(self)@ == (PlatformView {
                windows: focused_windows(old(self)@.windows, FocusPlan { all, id: id@, any, surface, active }),
                ..old(self)@
            }),
            effect_views(effects@) == focus_effects(old(self)@.windows, FocusPlan { all, id: id@, any, surface, active }),
    {
        let ghost v = self@;
        let ghost plan = FocusPlan { all, id: id@, any, surface, active };
        let mut effects: Vec<Effect> = Vec::new();
        let mut i: usize = 0;
        assert(focused_windows(v.windows, plan).take(0) + v.windows.skip(0) =~= v.windows);
        assert(v.windows.take(0) =~= Seq::<WindowView>::empty());
        assert(effect_views(effects@) =~= Seq::<EffectView>::empty());
        while i < self.windows.len()
            invariant
                i <= self.windows@.len(),
                self.wf(),
                self.windows@.len() == v.windows.len(),
                plan == (FocusPlan { all, id: id@, any, surface, active }),
                self@ == (PlatformView { windows: focused_windows(v.windows, plan).take(i as int) + v.windows.skip(i as int), ..v }),
                effect_views(effects@) == focus_effects(v.windows.take(i as int), plan),
            decreases self.windows@.len() - i,
        {
            assert(v.windows.take(i + 1).drop_last() =~= v.windows.take(i as int));
            assert(v.windows.take(i + 1).last() == v.windows[i as int]);
            assert(self@.windows[i as int] == v.windows[i as int]);
            assert(self@.windows[i as int] == self.windows@[i as int]@);
            let wanted: Option<bool> = if all {
                Some(self.windows[i].id == *id)
            } else {
                let hit = match surface {
                    Some(key) => self.windows[i].surface == key,
                    None => false,
                };
                if any || hit { Some(active) } else { None }
            };
            assert(wanted == wanted_active(plan, v.windows[i as int]));
            match wanted {
                Some(a) => {
                    let changed = self.windows[i].active != a;
                    let key = self.windows[i].key;
                    let fullscreen = self.windows[i].fullscreen;
                    let appearance = self.windows[i].appearance;
                    self.set_window_state(i, a, fullscreen, appearance);
                    if changed {
                        let effect = Effect::ActiveChanged { window: key, active: a };
                        let ghost before = effects@;
                        effects.push(effect);
                        proof {
                            lemma_views_push(before, effect);
                        }
                    }
                },
                None => {},
            }
            proof {
                assert(self@.windows =~= focused_windows(v.windows, plan).take(i + 1) + v.windows.skip(i + 1));
            }
            i = i + 1;
        }
        proof {
            assert(v.windows.take(i as int) =~= v.windows);
            assert(focused_windows(v.windows, plan).take(i as int) + v.windows.skip(i as int) =~= focused_windows(v.windows, plan));
        }
        effects
    }

    /// Apply the focus change the host reported last. A window gaining focus
    /// becomes the only active one: leaving others active keeps the input
    /// method attached to a window the user already left.
    pub fn apply_pending_focus(&mut self) -> (effects: Vec<Effect>)
        requires
            old(self).wf(),
        ensures
            final(self).wf(),
            final(self)@ == spec_apply_focus(old(self)@),
            effect_views(effects@) == apply_focus_effects(old(self)@),
    {
        let ghost v = self@;
        let mut pending: Option<(String, bool)> = None;
        std::mem::swap(&mut pending, &mut self.pending_focus);
        match pending {
            Some((id, active)) => {
                let any = id.as_str().is_empty();
                let all = active && !any;

                let surface = if any { None } else { self.surface_key(&id) };
                assert(surface == surface_key_of(v, id@) || any);
                proof {
                    if any {
                        assert(id@.len() == 0);
                    }
                }
                let effects = self.apply_focus_plan(all, &id, any, surface, active);
                proof {
                    if any {
                        assert forall|j: int| 0 <= j < v.windows.len() implies
                            wanted_active(plan_for(v, id@, active), v.windows[j]) == wanted_active(FocusPlan { all, id: id@, any, surface, active }, v.windows[j]) by {}
                        lemma_focus_same(v.windows, plan_for(v, id@, active), FocusPlan { all, id: id@, any, surface, active });
                    }
                }
                effects
            },
            None => {
                let effects: Vec<Effect> = Vec::new();
                assert(effect_views(effects@) =~= Seq::<EffectView>::empty());
                effects
            },
        }
    }


    /// Hand the folder `uri` over: to the open listener as a `file://` URL,
    /// or keep it until there is one.
    fn deliver(&mut self, uri: String) -> (effects: Vec<Effect>)
        requires
            old(self).wf(),
        ensures
            final(self).wf(),
            final(self)@ == spec_deliver(old(self)@, uri@),
            effect_views(effects@) == deliver_effects(old(self)@, uri@),
    {
        let mut effects: Vec<Effect> = Vec::new();
        if self.open_listener {
            proof {
                reveal_strlit("file://");
            }
            let url = concat("file://", uri.as_str());
            assert(url@ =~= file_url(uri@));
            let mut urls: Vec<String> = Vec::new();
            urls.push(url);
            assert(texts(urls@) =~= seq![file_url(uri@)]);
            let effect = Effect::OpenUrls { urls };
            effects.push(effect);
            assert(effect_views(effects@) =~= deliver_effects(old(self)@, uri@));
        } else {
            self.restore_folder = Some(uri);
            assert(effect_views(effects@) =~= Seq::<EffectView>::empty());
        }
        effects
    }

    /// Hand the previous session's folder to the application: a folder the
    /// host pushed is delivered; without one the host is asked for it, once.
    pub fn deliver_restore_folder(&mut self) -> (effects: Vec<Effect>)
        requires
            old(self).wf(),
        ensures
            final(self).wf(),
            final(self)@ == spec_deliver_restore(old(self)@),
            effect_views(effects@) == deliver_restore_effects(old(self)@),
    {
        let pulled = self.restore_pulled;
        match self.take_restore_folder() {
            Some(uri) => {
                self.restore_pulled = true;
                self.deliver(uri)
            },
            None => {
                self.restore_pulled = true;
                let mut effects: Vec<Effect> = Vec::new();
                if !pulled {
                    effects.push(Effect::PullRestoreFolder);
                }
                assert(effect_views(effects@) =~= deliver_restore_effects(old(self)@));
                effects
            },
        }
    }

    /// The host answered the question `Effect::PullRestoreFolder` asked: a
    /// folder is delivered, no folder changes nothing.
    pub fn restore_folder_answer(&mut self, answer: Option<String>) -> (effects: Vec<Effect>)
        requires
            old(self).wf(),
        ensures
            final(self).wf(),
            final(self)@ == match answer {
                Some(uri) => spec_deliver(old(self)@, uri@),
                None => old(self)@,
            },
            effect_views(effects@) == match answer {
                Some(uri) => deliver_effects(old(self)@, uri@),
                None => Seq::<EffectView>::empty(),
            },
    {
        match answer {
            Some(uri) => self.deliver(uri),
            None => {
                let effects: Vec<Effect> = Vec::new();
                assert(effect_views(effects@) =~= Seq::<EffectView>::empty());
                effects
            },
        }
    }

    /// The application installed its open listener: folders are handed to it
    /// from now on.
    pub fn set_open_listener(&mut self)
        requires
            old(self).wf(),
        ensures
            final(self).wf(),
            final(self)@ == (PlatformView { open_listener: true, ..old(self)@ }),
    {
        self.open_listener = true;
    }

    /// Start a picker: the picks whose callers gave up (`canceled`) stop
    /// waiting, and the new pick waits under the next id. The answer is the
    /// id and the command for the host.
    pub fn pick_paths(&mut self, files: bool, directories: bool, multiple: bool, canceled: &[u64]) -> (result: (u64, Effect))
        requires
            old(self).wf(),
            old(self)@.next_pick_id < u64::MAX,
        ensures
            final(self).wf(),
            final(self)@ == spec_start_pick(old(self)@, canceled@),
            result.0 == old(self)@.next_pick_id,
            result.1@ == (EffectView::HostOp { op: OP_PICK_PATHS, arg: pick_payload(result.0, files, directories, multiple) }),
    {
        let id = self.start_pick(canceled);
        let bar = text_of(&['|']);
        let p = text_of(&['p']);
        let mut payload = concat(p.as_str(), decimal(id).as_str());
        payload = concat(payload.as_str(), bar.as_str());
        payload = concat(payload.as_str(), Self::flag(files).as_str());
        payload = concat(payload.as_str(), bar.as_str());
        payload = concat(payload.as_str(), Self::flag(directories).as_str());
        payload = concat(payload.as_str(), bar.as_str());
        payload = concat(payload.as_str(), Self::flag(multiple).as_str());
        assert(payload@ =~= pick_payload(id, files, directories, multiple));
        (id, Effect::HostOp { op: OP_PICK_PATHS, arg: payload })
    }

    /// Start a picker for a new path in `directory`, suggesting a name.
    pub fn pick_new_path(&mut self, directory: &str, suggested: Option<&str>, canceled: &[u64]) -> (result: (u64, Effect))
        requires
            old(self).wf(),
            old(self)@.next_pick_id < u64::MAX,
        ensures
            final(self).wf(),
            final(self)@ == spec_start_pick(old(self)@, canceled@),
            result.0 == old(self)@.next_pick_id,
            result.1@ == (EffectView::HostOp {
                op: OP_PICK_NEW_PATH,
                arg: new_path_payload(result.0, directory@, match suggested { Some(name) => name@, None => Seq::empty() }),
            }),
    {
        let id = self.start_pick(canceled);
        let bar = text_of(&['|']);
        let n = text_of(&['n']);
        let mut payload = concat(n.as_str(), decimal(id).as_str());
        payload = concat(payload.as_str(), bar.as_str());
        payload = concat(payload.as_str(), directory);
        payload = concat(payload.as_str(), bar.as_str());
        match suggested {
            Some(name) => {
                payload = concat(payload.as_str(), name);
            },
            None => {},
        }
        assert(payload@ =~= new_path_payload(id, directory@, match suggested { Some(name) => name@, None => Seq::empty() }));
        (id, Effect::HostOp { op: OP_PICK_NEW_PATH, arg: payload })
    }

    /// A flag as the host reads it.
    fn flag(b: bool) -> (text: String)
        ensures
            text@ == flag_text(b),
    {
        if b {
            text_of(&['1'])
        } else {
            text_of(&['0'])
        }
    }

    /// Drop the canceled picks and register a new one.
    fn start_pick(&mut self, canceled: &[u64]) -> (id: u64)
        requires
            old(self).wf(),
            old(self)@.next_pick_id < u64::MAX,
        ensures
            final(self).wf(),
            final(self)@ == spec_start_pick(old(self)@, canceled@),
            id == old(self)@.next_pick_id,
    {
        let ghost v = self@;
        let id = self.next_pick_id;
        let mut kept: Vec<u64> = Vec::new();
        let mut i: usize = 0;
        while i < self.picks.len()
            invariant
                i <= self.picks@.len(),
                self@ == v,
                kept@ == without_canceled(v.picks.take(i as int), canceled@),
                forall|m: int| 0 <= m < kept@.len() ==> exists|t: int| 0 <= t < i && #[trigger] kept@[m] == #[trigger] v.picks[t],
                forall|a: int, b: int| 0 <= a < b < kept@.len() ==> #[trigger] kept@[a] != #[trigger] kept@[b],
                picks_wf(v.picks, v.next_pick_id),
            decreases self.picks@.len() - i,
        {
            assert(v.picks.take(i + 1).drop_last() =~= v.picks.take(i as int));
            assert(v.picks.take(i + 1).last() == v.picks[i as int]);
            let pick = self.picks[i];
            let mut gone = false;
            let mut j: usize = 0;
            while j < canceled.len()
                invariant
                    j <= canceled@.len(),
                    gone == canceled@.take(j as int).contains(pick),
                decreases canceled@.len() - j,
            {
                let ghost before = canceled@.take(j as int);
                let ghost after = canceled@.take(j + 1);
                assert(after =~= before.push(canceled@[j as int]));
                if canceled[j] == pick {
                    gone = true;
                    assert(after[j as int] == pick);
                } else {
                    proof {
                        if after.contains(pick) {
                            let k = choose|k: int| 0 <= k < after.len() && after[k] == pick;
                            assert(before[k] == pick);
                        }
                        if before.contains(pick) {
                            let k = choose|k: int| 0 <= k < before.len() && before[k] == pick;
                            assert(after[k] == pick);
                        }
                    }
                }
                j = j + 1;
            }
            assert(canceled@.take(j as int) =~= canceled@);
            if !gone {
                let ghost prior = kept@;
                kept.push(pick);
                proof {
                    assert forall|m: int| 0 <= m < kept@.len() implies exists|t: int| 0 <= t < i + 1 && #[trigger] kept@[m] == #[trigger] v.picks[t] by {
                        if m < prior.len() {
                            assert(kept@[m] == prior[m]);
                        } else {
                            assert(kept@[m] == v.picks[i as int]);
                        }
                    }
                    assert forall|a: int, b: int| 0 <= a < b < kept@.len() implies #[trigger] kept@[a] != #[trigger] kept@[b] by {
                        if b == prior.len() {
                            assert(kept@[a] == prior[a]);
                            let t = choose|t: int| 0 <= t < i && #[trigger] prior[a] == #[trigger] v.picks[t];
                            assert(v.picks[t] != v.picks[i as int]);
                        } else {
                            assert(kept@[a] == prior[a] && kept@[b] == prior[b]);
                        }
                    }
                }
            }
            i = i + 1;
        }
        proof {
            assert(v.picks.take(i as int) =~= v.picks);
        }
        let ghost prior = kept@;
        kept.push(id);
        self.picks = kept;
        self.next_pick_id = id + 1;
        proof {
            let picks = self.picks@;
            assert forall|a: int, b: int| 0 <= a < b < picks.len() implies #[trigger] picks[a] != #[trigger] picks[b] by {
                if b == prior.len() {
                    assert(picks[a] == prior[a]);
                    let t = choose|t: int| 0 <= t < v.picks.len() && #[trigger] prior[a] == #[trigger] v.picks[t];
                    assert(v.picks[t] < id);
                } else {
                    assert(picks[a] == prior[a] && picks[b] == prior[b]);
                }
            }
            assert forall|a: int| 0 <= a < picks.len() implies #[trigger] picks[a] < self@.next_pick_id by {
                if a < prior.len() {
                    assert(picks[a] == prior[a]);
                    let t = choose|t: int| 0 <= t < v.picks.len() && #[trigger] prior[a] == #[trigger] v.picks[t];
                    assert(v.picks[t] < id);
                }
            }
        }
        id
    }


    /// The picker answered: hand the lines to the pick's waiter.
    fn pick_result(&mut self, arg: &str) -> (effects: Vec<Effect>)
        requires
            old(self).wf(),
        ensures
            final(self).wf(),
            final(self)@ == spec_pick_result(old(self)@, arg@),
            effect_views(effects@) == pick_result_effects(old(self)@, arg@),
    {
        let ghost v = self@;
        let (token, rest) = match split_once(arg, '\t') {
            Some((token, rest)) => (token, rest),
            None => (arg.to_owned(), String::new()),
        };
        let id = pick_id_of(token.as_str());
        let mut i: usize = 0;
        while i < self.picks.len() && self.picks[i] != id
            invariant
                i <= self.picks@.len(),
                self@ == v,
                pick_from(v.picks, id, i as int) == pick_from(v.picks, id, 0),
            decreases self.picks@.len() - i,
        {
            i = i + 1;
        }
        let mut effects: Vec<Effect> = Vec::new();
        if i < self.picks.len() {
            assert(pick_from(v.picks, id, 0) == i);
            self.picks.remove(i);
            proof {
                let picks = self.picks@;
                assert(picks =~= v.picks.remove(i as int));
                assert forall|a: int, b: int| 0 <= a < b < picks.len() implies #[trigger] picks[a] != #[trigger] picks[b] by {
                    let a0 = if a < i { a } else { a + 1 };
                    let b0 = if b < i { b } else { b + 1 };
                    assert(picks[a] == v.picks[a0] && picks[b] == v.picks[b0]);
                }
                assert forall|a: int| 0 <= a < picks.len() implies #[trigger] picks[a] < self@.next_pick_id by {
                    let a0 = if a < i { a } else { a + 1 };
                    assert(picks[a] == v.picks[a0]);
                }
            }
            let found = nonempty_lines_of(rest.as_str());
            let effect = Effect::PickAnswer { id, lines: found };
            effects.push(effect);
        } else {
            assert(pick_from(v.picks, id, i as int) == -1);
            effects.push(Effect::PickDropped { id });
        }
        assert(effect_views(effects@) =~= pick_result_effects(v, arg@));
        effects
    }

    /// Handle an event the host pushed: `kind` is one of the `EVENT_`
    /// numbers and `arg` its text; per-window events carry "id\tvalue".
    pub fn handle_host_event(&mut self, kind: i32, arg: &str) -> (effects: Vec<Effect>)
        requires
            old(self).wf(),
        ensures
            final(self).wf(),
            final(self)@ == spec_host_event(old(self)@, kind, arg@),
            effect_views(effects@) == host_event_effects(old(self)@, kind, arg@),
    {
        let ghost v = self@;
        let (id, value) = split_window_event(arg);
        if kind == EVENT_APPEARANCE {
            let zero: [char; 1] = ['0'];
            assert(zero@ =~= seq!['0']);
            let appearance = if is_word(arg, &zero) { Appearance::Dark } else { Appearance::Light };
            assert(appearance == reported_appearance(arg@));
            if self.appearance != appearance {
                self.appearance = appearance;
                self.set_system_appearance(appearance)
            } else {
                let effects: Vec<Effect> = Vec::new();
                assert(effect_views(effects@) =~= Seq::<EffectView>::empty());
                effects
            }
        } else if kind == EVENT_FOCUS {
            let zero: [char; 1] = ['0'];
            assert(zero@ =~= seq!['0']);
            let focused = !is_word(value.as_str(), &zero);
            self.note_focus(id.as_str(), focused);
            self.pending_focus = Some((id, focused));
            let effects: Vec<Effect> = Vec::new();
            assert(effect_views(effects@) =~= Seq::<EffectView>::empty());
            effects
        } else if kind == EVENT_WINDOW_STATUS {
            // 1 full screen, 2 maximize, 3 minimize, 4 floating, 5 split; a
            // screen-filling window counts as full screen.
            let one: [char; 1] = ['1'];
            let two: [char; 1] = ['2'];
            assert(one@ =~= seq!['1'] && two@ =~= seq!['2']);
            let fullscreen = is_word(value.as_str(), &one) || is_word(value.as_str(), &two);
            let any = id.as_str().is_empty();
            let surface = if any { None } else { self.surface_key(&id) };
            proof {
                if any {
                    assert(with_fullscreen(v.windows, any, surface, fullscreen) =~= with_fullscreen(v.windows, any, surface_key_of(v, id@), fullscreen));
                }
            }
            self.set_fullscreen(any, surface, fullscreen);
            let effects: Vec<Effect> = Vec::new();
            assert(effect_views(effects@) =~= Seq::<EffectView>::empty());
            effects
        } else if kind == EVENT_WINDOW_RECT {
            let mut effects: Vec<Effect> = Vec::new();
            effects.push(Effect::WindowRect { id, value });
            assert(effect_views(effects@) =~= host_event_effects(v, kind, arg@));
            effects
        } else if kind == EVENT_BENCHMARK {
            let frames = match parse_u32(arg) {
                Some(n) => n,
                None => 720,
            };
            self.benchmark_frames = frames;
            self.request_frames()
        } else if kind == EVENT_LIFECYCLE {
            let mut effects: Vec<Effect> = Vec::new();
            let background: [char; 10] = ['b', 'a', 'c', 'k', 'g', 'r', 'o', 'u', 'n', 'd'];
            let destroy: [char; 7] = ['d', 'e', 's', 't', 'r', 'o', 'y'];
            let newwant: [char; 7] = ['n', 'e', 'w', 'w', 'a', 'n', 't'];
            let foreground: [char; 10] = ['f', 'o', 'r', 'e', 'g', 'r', 'o', 'u', 'n', 'd'];
            assert(background@ =~= seq!['b', 'a', 'c', 'k', 'g', 'r', 'o', 'u', 'n', 'd']);
            assert(destroy@ =~= seq!['d', 'e', 's', 't', 'r', 'o', 'y']);
            assert(newwant@ =~= seq!['n', 'e', 'w', 'w', 'a', 'n', 't']);
            assert(foreground@ =~= seq!['f', 'o', 'r', 'e', 'g', 'r', 'o', 'u', 'n', 'd']);
            if is_word(arg, &background) || is_word(arg, &destroy) {
                effects.push(Effect::Quit);
            } else if is_word(arg, &newwant) {
                effects.push(Effect::Reopen);
            } else if is_word(arg, &foreground) {
                effects.push(Effect::SystemWake);
            }
            assert(effect_views(effects@) =~= lifecycle_effects(arg@));
            effects
        } else if kind == EVENT_RESTORE_FOLDER && !arg.is_empty() {
            self.restore_folder = Some(arg.to_owned());
            self.deliver_restore_folder()
        } else if kind == EVENT_PICK_RESULT {
            self.pick_result(arg)
        } else {
            let effects: Vec<Effect> = Vec::new();
            assert(effect_views(effects@) =~= Seq::<EffectView>::empty());
            effects
        }
    }


    /// Append `more` to `effects`.
    fn append_effects(effects: &mut Vec<Effect>, more: Vec<Effect>)
        ensures
            effect_views(final(effects)@) == effect_views(old(effects)@) + effect_views(more@),
    {
        let mut more = more;
        let ghost first = effects@;
        let ghost second = more@;
        effects.append(&mut more);
        proof {
            lemma_views_concat(first, second);
        }
    }

    /// Whether some window has drawn a frame.
    fn any_window_rendered(&self) -> (rendered: bool)
        ensures
            rendered == any_rendered(self@.windows),
    {
        let mut i: usize = 0;
        while i < self.windows.len()
            invariant
                i <= self.windows@.len(),
                forall|j: int| 0 <= j < i ==> !(#[trigger] self@.windows[j]).rendered,
            decreases self.windows@.len() - i,
        {
            assert(self@.windows[i as int] == self.windows@[i as int]@);
            if self.windows[i].rendered {
                assert(self@.windows[i as int].rendered);
                return true;
            }
            i = i + 1;
        }
        false
    }

    /// One frame of the host's refresh; see `tick_effects` for what it does.
    pub fn tick(&mut self) -> (effects: Vec<Effect>)
        requires
            old(self).wf(),
        ensures
            final(self).wf(),
            final(self)@ == spec_tick(old(self)@),
            effect_views(effects@) == tick_effects(old(self)@),
    {
        let ghost v = self@;
        // A resize waited for this moment: it blocks on the GPU.
        let mut effects = self.apply_pending_surface_size();
        let ghost v1 = self@;
        assert(v1 == tick_sized(v));
        // Handing the previous folder over while the application is still
        // creating its first window would open it in a second one.
        if !self.restore_delivered && self.any_window_rendered() {
            self.restore_delivered = true;
            let delivered = self.deliver_restore_folder();
            Self::append_effects(&mut effects, delivered);
        } else {
            proof {
                assert(effect_views(effects@) + Seq::<EffectView>::empty() =~= effect_views(effects@));
            }
        }
        let ghost v2 = self@;
        assert(v2 == tick_restored(v));
        let mut tasks: Vec<Effect> = Vec::new();
        tasks.push(Effect::RunForegroundTasks);
        assert(effect_views(tasks@) =~= seq![EffectView::RunForegroundTasks]);
        Self::append_effects(&mut effects, tasks);
        let frames = self.request_frames();
        Self::append_effects(&mut effects, frames);
        // Focus reaches the application through a callback that updates the
        // window, which must not happen while it is still drawing.
        let focus = self.apply_pending_focus();
        Self::append_effects(&mut effects, focus);
        let ghost v3 = self@;
        let ghost before_burst = effect_views(effects@);
        if self.benchmark_frames > 0 {
            let mut burst: usize = 0;
            while burst < BENCHMARK_BURST
                invariant
                    burst <= BENCHMARK_BURST,
                    self@ == v3,
                    effect_views(effects@) == before_burst + repeated(frame_effects(v3.windows), burst as nat),
                decreases BENCHMARK_BURST - burst,
            {
                let frames = self.request_frames();
                Self::append_effects(&mut effects, frames);
                proof {
                    assert(before_burst + repeated(frame_effects(v3.windows), burst as nat) + frame_effects(v3.windows)
                        =~= before_burst + repeated(frame_effects(v3.windows), (burst + 1) as nat));
                }
                burst = burst + 1;
            }
        } else {
            proof {
                assert(effect_views(effects@) + Seq::<EffectView>::empty() =~= effect_views(effects@));
            }
        }
        proof {
            assert(effect_views(effects@) =~= tick_effects(v));
        }
        effects
    }

    /// The application reported which way round its theme is. Every window
    /// is told, and windows opened later are told when they are created.
    pub fn set_window_appearance(&mut self, appearance: Option<Appearance>) -> (effects: Vec<Effect>)
        requires
            old(self).wf(),
        ensures
            final(self).wf(),
            final(self)@ == (PlatformView { theme: theme_of(appearance), ..old(self)@ }),
            effect_views(effects@) == theme_effects(old(self)@.windows, theme_of(appearance)),
    {
        let theme = match appearance {
            Some(Appearance::Dark) | Some(Appearance::VibrantDark) => Theme::Dark,
            Some(Appearance::Light) | Some(Appearance::VibrantLight) => Theme::Light,
            None => Theme::System,
        };
        self.theme = theme;
        let name = Self::theme_text(theme);
        let tab = text_of(&['\t']);
        assert(tab@ =~= seq!['\t']);
        let mut effects: Vec<Effect> = Vec::new();
        let mut i: usize = 0;
        while i < self.windows.len()
            invariant
                i <= self.windows@.len(),
                name@ == theme_name(theme),
                tab@ == seq!['\t'],
                effect_views(effects@) == theme_effects(self@.windows, theme).take(i as int),
            decreases self.windows@.len() - i,
        {
            assert(self@.windows[i as int] == self.windows@[i as int]@);
            let with_tab = concat(self.windows[i].id.as_str(), tab.as_str());
            let arg = concat(with_tab.as_str(), name.as_str());
            let effect = Effect::HostOp { op: OP_SET_APPEARANCE, arg };
            let ghost before = effects@;
            effects.push(effect);
            proof {
                lemma_views_push(before, effect);
                assert(effect_views(effects@) =~= theme_effects(self@.windows, theme).take(i + 1));
            }
            i = i + 1;
        }
        proof {
            assert(theme_effects(self@.windows, theme).take(i as int) =~= theme_effects(self@.windows, theme));
        }
        effects
    }

    /// The window with key `window` drew a frame.
    pub fn mark_rendered(&mut self, window: u64)
        requires
            old(self).wf(),
        ensures
            final(self).wf(),
            final(self)@ == (PlatformView {
                windows: Seq::new(old(self)@.windows.len(), |i: int| if old(self)@.windows[i].key == window {
                    WindowView { rendered: true, ..old(self)@.windows[i] }
                } else {
                    old(self)@.windows[i]
                }),
                ..old(self)@
            }),
    {
        let ghost v = self@;
        let mut i: usize = 0;
        assert(v.windows =~= Seq::new(v.windows.len(), |j: int| if j < 0 && v.windows[j].key == window {
            WindowView { rendered: true, ..v.windows[j] }
        } else {
            v.windows[j]
        }));
        while i < self.windows.len()
            invariant
                i <= self.windows@.len(),
                self.wf(),
                self.windows@.len() == v.windows.len(),
                self@ == (PlatformView {
                    windows: Seq::new(v.windows.len(), |j: int| if j < i && v.windows[j].key == window {
                        WindowView { rendered: true, ..v.windows[j] }
                    } else {
                        v.windows[j]
                    }),
                    ..v
                }),
            decreases self.windows@.len() - i,
        {
            assert(self@.windows[i as int] == self.windows@[i as int]@);
            if self.windows[i].key == window {
                let ghost before = self@.windows;
                let w = &self.windows[i];
                let updated = Window {
                    key: w.key,
                    id: w.id.clone(),
                    surface: w.surface,
                    handle: w.handle,
                    active: w.active,
                    fullscreen: w.fullscreen,
                    appearance: w.appearance,
                    rendered: true,
                    primary: w.primary,
                };
                self.windows.set(i, updated);
                proof {
                    let after = self@.windows;
                    assert(after =~= before.update(i as int, WindowView { rendered: true, ..before[i as int] }));
                    assert forall|a: int, b: int| 0 <= a < b < after.len() implies #[trigger] after[a].key != #[trigger] after[b].key by {
                        assert(after[a].key == before[a].key && after[b].key == before[b].key);
                    }
                    assert forall|a: int| 0 <= a < after.len() implies #[trigger] after[a].key < self@.next_key by {
                        assert(after[a].key == before[a].key);
                    }
                    assert forall|a: int| 0 <= a < after.len() implies has_surface(self@.surfaces, #[trigger] after[a].surface) by {
                        assert(after[a].surface == before[a].surface);
                    }
                }
            }
            proof {
                assert(self@.windows =~= Seq::new(v.windows.len(), |j: int| if j < i + 1 && v.windows[j].key == window {
                    WindowView { rendered: true, ..v.windows[j] }
                } else {
                    v.windows[j]
                }));
            }
            i = i + 1;
        }
        proof {
            assert(self@.windows =~= Seq::new(v.windows.len(), |j: int| if v.windows[j].key == window {
                WindowView { rendered: true, ..v.windows[j] }
            } else {
                v.windows[j]
            }));
        }
    }

    /// Whether the forced-redraw benchmark runs.
    pub fn benchmark_enabled(&self) -> (enabled: bool)
        ensures
            enabled == (self@.benchmark_frames > 0),
    {
        self.benchmark_frames > 0
    }

    /// Consume one benchmark frame: `true` while the benchmark runs.
    pub fn take_benchmark_frame(&mut self) -> (running: bool)
        requires
            old(self).wf(),
        ensures
            final(self).wf(),
            running == (old(self)@.benchmark_frames > 0),
            final(self)@ == (PlatformView {
                benchmark_frames: if running { (old(self)@.benchmark_frames - 1) as u32 } else { 0 },
                ..old(self)@
            }),
    {
        if self.benchmark_frames == 0 {
            return false;
        }
        self.benchmark_frames = self.benchmark_frames - 1;
        true
    }

    /// The host reported the rectangle of the surface `id`, of the given
    /// size in whole pixels. A size the surface does not have yet is handled
    /// as a resize report: otherwise a maximized window kept rendering at its
    /// old size.
    pub fn apply_window_rect(&mut self, id: &str, width: u32, height: u32)
        requires
            old(self).wf(),
        ensures
            final(self).wf(),
            final(self)@ == if surface_size(old(self)@, id@) != Some((width, height)) {
                PlatformView { pending_sizes: with_size(old(self)@.pending_sizes, id@, width, height), ..old(self)@ }
            } else {
                old(self)@
            },
    {
        let owned = id.to_owned();
        let current = match self.surface_index(&owned) {
            Some(i) => {
                assert(self@.surfaces[i as int] == self.surfaces@[i as int]@);
                Some((self.surfaces[i].width, self.surfaces[i].height))
            },
            None => None,
        };
        let same = match current {
            Some((w, h)) => w == width && h == height,
            None => false,
        };
        if !same {
            self.surface_resized(id, width, height);
        }
    }

    /// The window an input method command goes to; see `spec_ime_target`.
    pub fn ime_target(&self, owner: Option<&str>) -> (target: Option<u64>)
        ensures
            target == spec_ime_target(self@, match owner { Some(o) => Some(o@), None => None }),
    {
        let mut i: usize = 0;
        while i < self.windows.len() && !self.windows[i].active
            invariant
                i <= self.windows@.len(),
                active_from(self@.windows, i as int) == active_from(self@.windows, 0),
            decreases self.windows@.len() - i,
        {
            assert(self@.windows[i as int] == self.windows@[i as int]@);
            i = i + 1;
        }
        if i < self.windows.len() {
            assert(self@.windows[i as int] == self.windows@[i as int]@);
            return Some(self.windows[i].key);
        }
        match owner {
            Some(o) => {
                let owned = o.to_owned();
                let mut j: usize = 0;
                while j < self.windows.len() && self.windows[j].id != owned
                    invariant
                        j <= self.windows@.len(),
                        owned@ == o@,
                        window_with_id_from(self@.windows, o@, j as int) == window_with_id_from(self@.windows, o@, 0),
                    decreases self.windows@.len() - j,
                {
                    assert(self@.windows[j as int] == self.windows@[j as int]@);
                    j = j + 1;
                }
                if j < self.windows.len() {
                    assert(self@.windows[j as int] == self.windows@[j as int]@);
                    Some(self.windows[j].key)
                } else {
                    None
                }
            },
            None => None,
        }
    }

    /// The application's handles of the open windows, in the order they were
    /// opened; a window whose handle was forgotten is left out.
    pub fn window_stack(&self) -> (handles: Vec<u64>)
        ensures
            handles@ == handles_of(self@.windows),
    {
        let ghost ws = self@.windows;
        let mut handles: Vec<u64> = Vec::new();
        let mut i: usize = 0;
        while i < self.windows.len()
            invariant
                i <= self.windows@.len(),
                ws == self@.windows,
                handles@ == handles_of(ws.take(i as int)),
            decreases self.windows@.len() - i,
        {
            assert(ws.take(i + 1).drop_last() =~= ws.take(i as int));
            assert(ws.take(i + 1).last() == self.windows@[i as int]@);
            match self.windows[i].handle {
                Some(h) => handles.push(h),
                None => {},
            }
            i = i + 1;
        }
        proof {
            assert(ws.take(i as int) =~= ws);
        }
        handles
    }

    /// The application's handle of the first active window, if it still has
    /// one.
    pub fn active_window(&self) -> (handle: Option<u64>)
        ensures
            handle == if active_from(self@.windows, 0) == -1 { None } else { self@.windows[active_from(self@.windows, 0)].handle },
    {
        let mut i: usize = 0;
        while i < self.windows.len() && !self.windows[i].active
            invariant
                i <= self.windows@.len(),
                active_from(self@.windows, i as int) == active_from(self@.windows, 0),
            decreases self.windows@.len() - i,
        {
            assert(self@.windows[i as int] == self.windows@[i as int]@);
            i = i + 1;
        }
        if i < self.windows.len() {
            assert(self@.windows[i as int] == self.windows@[i as int]@);
            self.windows[i].handle
        } else {
            None
        }
    }


    /// The windows in the order the input method's context is looked for:
    /// the active ones first, then the rest, each in the order they were
    /// opened. The first with an editor is the one mirrored, so with several
    /// windows open the one being typed into wins.
    pub fn ime_context_order(&self) -> (keys: Vec<u64>)
        ensures
            keys@ == keys_by_activity(self@.windows, true) + keys_by_activity(self@.windows, false),
    {
        let mut keys: Vec<u64> = Vec::new();
        let mut i: usize = 0;
        while i < self.windows.len()
            invariant
                i <= self.windows@.len(),
                self@.windows.len() == self.windows@.len(),
                keys@ == keys_by_activity(self@.windows.take(i as int), true),
            decreases self.windows@.len() - i,
        {
            assert(self@.windows[i as int] == self.windows@[i as int]@);
            assert(self@.windows.take(i as int + 1).drop_last() =~= self@.windows.take(i as int));
            if self.windows[i].active {
                keys.push(self.windows[i].key);
            }
            i = i + 1;
        }
        assert(self@.windows.take(i as int) =~= self@.windows);
        let ghost first = keys@;
        let mut j: usize = 0;
        while j < self.windows.len()
            invariant
                j <= self.windows@.len(),
                self@.windows.len() == self.windows@.len(),
                first == keys_by_activity(self@.windows, true),
                keys@ == first + keys_by_activity(self@.windows.take(j as int), false),
            decreases self.windows@.len() - j,
        {
            assert(self@.windows[j as int] == self.windows@[j as int]@);
            assert(self@.windows.take(j as int + 1).drop_last() =~= self@.windows.take(j as int));
            if !self.windows[j].active {
                keys.push(self.windows[j].key);
                assert(keys@ =~= first + keys_by_activity(self@.windows.take(j as int + 1), false));
            }
            j = j + 1;
        }
        assert(self@.windows.take(j as int) =~= self@.windows);
        keys
    }

    /// The platform's counters, for callers that have to check the bounds
    /// the operations that advance them ask for: the next identity, the next
    /// generated surface number, the next pick id, and how many windows have
    /// been bound to a surface.
    pub fn counters(&self) -> (counters: (u64, u64, u64, usize))
        ensures
            counters.0 == self@.next_key,
            counters.1 == self@.next_surface,
            counters.2 == self@.next_pick_id,
            counters.3 == self@.windows_opened,
    {
        (self.next_key, self.next_surface, self.next_pick_id, self.windows_opened)
    }

    /// The id of the surface window `key` draws into, if it is open.
    pub fn window_surface_id(&self, key: u64) -> (id: Option<String>)
        ensures
            match id {
                Some(text) => window_id_of(self@.windows, key) == Some(text@),
                None => window_id_of(self@.windows, key) is None,
            },
    {
        let mut i: usize = 0;
        assert(self@.windows.skip(0) =~= self@.windows);
        while i < self.windows.len()
            invariant
                i <= self.windows@.len(),
                self@.windows.len() == self.windows@.len(),
                window_id_of(self@.windows, key) == window_id_of(self@.windows.skip(i as int), key),
            decreases self.windows@.len() - i,
        {
            assert(self@.windows[i as int] == self.windows@[i as int]@);
            assert(self@.windows.skip(i as int)[0] == self@.windows[i as int]);
            if self.windows[i].key == key {
                return Some(self.windows[i].id.clone());
            }
            assert(self@.windows.skip(i as int).drop_first() =~= self@.windows.skip(i as int + 1));
            i = i + 1;
        }
        None
    }

    /// A pointer went down on surface `id`. The surface must hold ArkUI's
    /// focus or its key events never arrive, so a surface that does not hold
    /// it yet asks for it, naming itself; one that holds it asks nothing.
    pub fn focus_request(&self, id: &str) -> (request: Option<Effect>)
        ensures
            request is Some <==> self@.focused != Some(id@),
            request matches Some(e) ==> e@ == (EffectView::HostOp { op: OP_REQUEST_FOCUS, arg: for_window(id@, id@) }),
    {
        let focused = match &self.focused {
            Some(current) => same_text(current.as_str(), id),
            None => false,
        };
        if focused {
            return None;
        }
        let tab = text_of(&['\t']);
        let with_tab = concat(id, tab.as_str());
        let arg = concat(with_tab.as_str(), id);
        assert(arg@ =~= for_window(id@, id@));
        Some(Effect::HostOp { op: OP_REQUEST_FOCUS, arg })
    }

    /// The display's size in device pixels: the primary surface's, or the
    /// panel's before there is one (the system reports the panel wrongly on
    /// these devices, so the surface is trusted instead).
    pub fn display_size(&self) -> (size: (u32, u32))
        ensures
            size == if self@.surfaces.len() > 0 { (self@.surfaces[0].width, self@.surfaces[0].height) } else { (3120u32, 2080u32) },
    {
        if self.surfaces.len() > 0 {
            assert(self@.surfaces[0] == self.surfaces@[0]@);
            (self.surfaces[0].width, self.surfaces[0].height)
        } else {
            (3120, 2080)
        }
    }

    /// Index of the surface `id` names.
    fn surface_index(&self, id: &String) -> (index: Option<usize>)
        ensures
            match index {
                Some(i) => find_surface(self@.surfaces, id@) == i && i < self.surfaces@.len(),
                None => find_surface(self@.surfaces, id@) == -1,
            },
    {
        let ghost v = self@.surfaces;
        let mut i: usize = 0;
        while i < self.surfaces.len()
            invariant
                i <= self.surfaces@.len(),
                v == surface_views(self.surfaces@),
                surface_from(v, id@, i as int) == find_surface(v, id@),
            decreases self.surfaces@.len() - i,
        {
            assert(v[i as int] == self.surfaces@[i as int]@);
            if self.surfaces[i].id == *id {
                return Some(i);
            }
            i = i + 1;
        }
        None
    }
}

} // verus!

verus! {

/// A second report that a surface was destroyed changes nothing: the
/// registry is as the first report left it, and no window is closed again.
pub proof fn destroying_twice_is_destroying_once(v: PlatformView, id: Seq<char>)
    ensures
        spec_destroyed(spec_destroyed(v, id), id) == spec_destroyed(v, id),
        destroy_effects(spec_destroyed(v, id), id) == Seq::<EffectView>::empty(),
{
    let at = find_surface(v.surfaces, id);
    if at != -1 {
        lemma_find_surface(v.surfaces, id);
        let s = v.surfaces[at];
        let v1 = spec_destroyed(v, id);
        let any = id.len() == 0;
        assert forall|j: int| 0 <= j < v.surfaces.len() implies #[trigger] v.surfaces[j].id == v1.surfaces[j].id by {}
        lemma_find_same_ids(v.surfaces, v1.surfaces, id, 0);
        assert(find_surface(v1.surfaces, id) == at);
        lemma_destroy_twice(v.windows, any, s.key, id);
        assert(v1.surfaces.update(at, SurfaceView { window: 0, valid: false, ..v1.surfaces[at] }) =~= v1.surfaces);
        lemma_destroy_leaves_none(v.windows, any, s.key, id);
        lemma_matching_any(v1.windows, None, Some(s.key));
        assert(route(v1, id) =~= Seq::<u64>::empty());
        assert(destroy_effects(v1, id) =~= Seq::<EffectView>::empty());
    }
}

} // verus!

verus! {

// ---------------------------------------------------------------------------
// Names and payloads the host reads
// ---------------------------------------------------------------------------

/// How the application asks a window to be shown.
#[derive(Clone, Copy, PartialEq, Eq, Structural, Debug)]
pub enum WindowKind {
    Normal,
    Floating,
    PopUp,
    AnchoredPopup,
    Dialog,
}

/// The kind name the host opens a window with. An editor window is a real
/// top-level window; the auxiliary ones belong to the window that opened them.
pub open spec fn spec_window_kind_name(kind: WindowKind) -> Seq<char> {
    match kind {
        WindowKind::Normal => seq!['n', 'o', 'r', 'm', 'a', 'l'],
        WindowKind::Floating => seq!['f', 'l', 'o', 'a', 't', 'i', 'n', 'g'],
        WindowKind::PopUp | WindowKind::AnchoredPopup => seq!['p', 'o', 'p', 'u', 'p'],
        WindowKind::Dialog => seq!['d', 'i', 'a', 'l', 'o', 'g'],
    }
}

/// The kind name the host opens a window with.
pub fn window_kind_name(kind: WindowKind) -> (name: String)
    ensures
        name@ == spec_window_kind_name(kind),
{
    match kind {
        WindowKind::Normal => text_of(&['n', 'o', 'r', 'm', 'a', 'l']),
        WindowKind::Floating => text_of(&['f', 'l', 'o', 'a', 't', 'i', 'n', 'g']),
        WindowKind::PopUp | WindowKind::AnchoredPopup => text_of(&['p', 'o', 'p', 'u', 'p']),
        WindowKind::Dialog => text_of(&['d', 'i', 'a', 'l', 'o', 'g']),
    }
}

/// The payload of `OP_CREATE_WINDOW`:
/// "<id>\t<left>,<top>,<width>,<height>\t<title>\t<resizable>\t<kind>", where
/// an empty size is replaced by the fallback size.
pub open spec fn spec_create_window_payload(
    id: Seq<char>,
    left: i32,
    top: i32,
    width: u32,
    height: u32,
    fallback_width: u32,
    fallback_height: u32,
    title: Seq<char>,
    resizable: bool,
    kind: WindowKind,
) -> Seq<char> {
    let (w, h) = if width == 0 || height == 0 { (fallback_width, fallback_height) } else { (width, height) };
    id + seq!['\t'] + spec_signed_decimal(left as int) + seq![','] + spec_signed_decimal(top as int) + seq![',']
        + spec_decimal(w as nat) + seq![','] + spec_decimal(h as nat) + seq!['\t'] + title + seq!['\t'] + flag_text(resizable)
        + seq!['\t'] + spec_window_kind_name(kind)
}

/// The payload of `OP_CREATE_WINDOW` for a window whose bounds, in device
/// pixels, are `left`, `top`, `width` x `height`.
pub fn create_window_payload(
    id: &str,
    left: i32,
    top: i32,
    width: u32,
    height: u32,
    fallback_width: u32,
    fallback_height: u32,
    title: &str,
    resizable: bool,
    kind: WindowKind,
) -> (payload: String)
    ensures
        payload@ == spec_create_window_payload(id@, left, top, width, height, fallback_width, fallback_height, title@, resizable, kind),
{
    let (w, h) = if width == 0 || height == 0 { (fallback_width, fallback_height) } else { (width, height) };
    let tab = text_of(&['\t']);
    let comma = text_of(&[',']);
    let mut payload = concat(id, tab.as_str());
    payload = concat(payload.as_str(), signed_decimal(left as i64).as_str());
    payload = concat(payload.as_str(), comma.as_str());
    payload = concat(payload.as_str(), signed_decimal(top as i64).as_str());
    payload = concat(payload.as_str(), comma.as_str());
    payload = concat(payload.as_str(), decimal(w as u64).as_str());
    payload = concat(payload.as_str(), comma.as_str());
    payload = concat(payload.as_str(), decimal(h as u64).as_str());
    payload = concat(payload.as_str(), tab.as_str());
    payload = concat(payload.as_str(), title);
    payload = concat(payload.as_str(), tab.as_str());
    payload = concat(payload.as_str(), OhosPlatform::flag(resizable).as_str());
    payload = concat(payload.as_str(), tab.as_str());
    payload = concat(payload.as_str(), window_kind_name(kind).as_str());
    assert(payload@ =~= spec_create_window_payload(id@, left, top, width, height, fallback_width, fallback_height, title@, resizable, kind));
    payload
}

/// The pointer shapes the application asks for.
#[derive(Clone, Copy, PartialEq, Eq, Structural, Debug)]
pub enum CursorStyle {
    Arrow,
    IBeam,
    Crosshair,
    ClosedHand,
    OpenHand,
    PointingHand,
    ResizeLeft,
    ResizeRight,
    ResizeLeftRight,
    ResizeUp,
    ResizeDown,
    ResizeUpDown,
    ResizeUpLeftDownRight,
    ResizeUpRightDownLeft,
    ResizeColumn,
    ResizeRow,
    IBeamCursorForVerticalLayout,
    OperationNotAllowed,
    DragLink,
    DragCopy,
    ContextualMenu,
}

/// The name of the OHOS pointer style for a cursor style.
pub open spec fn spec_cursor_style_name(style: CursorStyle) -> Seq<char> {
    match style {
        CursorStyle::Arrow => seq!['D', 'E', 'F', 'A', 'U', 'L', 'T'],
        CursorStyle::IBeam => seq!['T', 'E', 'X', 'T', '_', 'C', 'U', 'R', 'S', 'O', 'R'],
        CursorStyle::Crosshair => seq!['C', 'R', 'O', 'S', 'S'],
        CursorStyle::ClosedHand => seq!['H', 'A', 'N', 'D', '_', 'G', 'R', 'A', 'B', 'B', 'I', 'N', 'G'],
        CursorStyle::OpenHand => seq!['H', 'A', 'N', 'D', '_', 'O', 'P', 'E', 'N'],
        CursorStyle::PointingHand => seq!['H', 'A', 'N', 'D', '_', 'P', 'O', 'I', 'N', 'T', 'I', 'N', 'G'],
        CursorStyle::ResizeLeft => seq!['W', 'E', 'S', 'T'],
        CursorStyle::ResizeRight => seq!['E', 'A', 'S', 'T'],
        CursorStyle::ResizeLeftRight => seq!['W', 'E', 'S', 'T', '_', 'E', 'A', 'S', 'T'],
        CursorStyle::ResizeUp => seq!['N', 'O', 'R', 'T', 'H'],
        CursorStyle::ResizeDown => seq!['S', 'O', 'U', 'T', 'H'],
        CursorStyle::ResizeUpDown => seq!['N', 'O', 'R', 'T', 'H', '_', 'S', 'O', 'U', 'T', 'H'],
        CursorStyle::ResizeUpLeftDownRight => seq!['N', 'O', 'R', 'T', 'H', '_', 'W', 'E', 'S', 'T', '_', 'S', 'O', 'U', 'T', 'H', '_', 'E', 'A', 'S', 'T'],
        CursorStyle::ResizeUpRightDownLeft => seq!['N', 'O', 'R', 'T', 'H', '_', 'E', 'A', 'S', 'T', '_', 'S', 'O', 'U', 'T', 'H', '_', 'W', 'E', 'S', 'T'],
        CursorStyle::ResizeColumn => seq!['R', 'E', 'S', 'I', 'Z', 'E', '_', 'L', 'E', 'F', 'T', '_', 'R', 'I', 'G', 'H', 'T'],
        CursorStyle::ResizeRow => seq!['R', 'E', 'S', 'I', 'Z', 'E', '_', 'U', 'P', '_', 'D', 'O', 'W', 'N'],
        CursorStyle::IBeamCursorForVerticalLayout => seq!['H', 'O', 'R', 'I', 'Z', 'O', 'N', 'T', 'A', 'L', '_', 'T', 'E', 'X', 'T', '_', 'C', 'U', 'R', 'S', 'O', 'R'],
        CursorStyle::OperationNotAllowed => seq!['C', 'U', 'R', 'S', 'O', 'R', '_', 'F', 'O', 'R', 'B', 'I', 'D'],
        CursorStyle::DragLink => seq!['M', 'O', 'V', 'E'],
        CursorStyle::DragCopy => seq!['C', 'U', 'R', 'S', 'O', 'R', '_', 'C', 'O', 'P', 'Y'],
        CursorStyle::ContextualMenu => seq!['C', 'U', 'R', 'S', 'O', 'R', '_', 'C', 'I', 'R', 'C', 'L', 'E'],
    }
}

/// A resize cursor for two opposite edges is named by the two single-edge
/// names joined by "_": left and right is west and east, up and down is
/// north and south, and the diagonals run from the upper corner to the
/// opposite lower one.
pub proof fn two_way_cursors_join_their_edges()
    ensures
        spec_cursor_style_name(CursorStyle::ResizeLeftRight)
            == spec_cursor_style_name(CursorStyle::ResizeLeft) + "_"@ + spec_cursor_style_name(CursorStyle::ResizeRight),
        spec_cursor_style_name(CursorStyle::ResizeUpDown)
            == spec_cursor_style_name(CursorStyle::ResizeUp) + "_"@ + spec_cursor_style_name(CursorStyle::ResizeDown),
        spec_cursor_style_name(CursorStyle::ResizeUpLeftDownRight)
            == spec_cursor_style_name(CursorStyle::ResizeUp) + "_"@ + spec_cursor_style_name(CursorStyle::ResizeLeft) + "_"@
                + spec_cursor_style_name(CursorStyle::ResizeDown) + "_"@ + spec_cursor_style_name(CursorStyle::ResizeRight),
        spec_cursor_style_name(CursorStyle::ResizeUpRightDownLeft)
            == spec_cursor_style_name(CursorStyle::ResizeUp) + "_"@ + spec_cursor_style_name(CursorStyle::ResizeRight) + "_"@
                + spec_cursor_style_name(CursorStyle::ResizeDown) + "_"@ + spec_cursor_style_name(CursorStyle::ResizeLeft),
        spec_cursor_style_name(CursorStyle::ResizeLeft) == "WEST"@,
        spec_cursor_style_name(CursorStyle::ResizeRight) == "EAST"@,
        spec_cursor_style_name(CursorStyle::ResizeUp) == "NORTH"@,
        spec_cursor_style_name(CursorStyle::ResizeDown) == "SOUTH"@,
{
    reveal_strlit("_");
    reveal_strlit("WEST");
    reveal_strlit("EAST");
    reveal_strlit("NORTH");
    reveal_strlit("SOUTH");
    assert("_"@ =~= seq!['_']);
    assert("WEST"@ =~= seq!['W', 'E', 'S', 'T']);
    assert("EAST"@ =~= seq!['E', 'A', 'S', 'T']);
    assert("NORTH"@ =~= seq!['N', 'O', 'R', 'T', 'H']);
    assert("SOUTH"@ =~= seq!['S', 'O', 'U', 'T', 'H']);
    assert(spec_cursor_style_name(CursorStyle::ResizeLeftRight) =~= seq!['W', 'E', 'S', 'T'] + seq!['_'] + seq!['E', 'A', 'S', 'T']);
    assert(spec_cursor_style_name(CursorStyle::ResizeUpDown) =~= seq!['N', 'O', 'R', 'T', 'H'] + seq!['_'] + seq!['S', 'O', 'U', 'T', 'H']);
    assert(spec_cursor_style_name(CursorStyle::ResizeUpLeftDownRight) =~= seq!['N', 'O', 'R', 'T', 'H'] + seq!['_'] + seq!['W', 'E', 'S', 'T']
        + seq!['_'] + seq!['S', 'O', 'U', 'T', 'H'] + seq!['_'] + seq!['E', 'A', 'S', 'T']);
    assert(spec_cursor_style_name(CursorStyle::ResizeUpRightDownLeft) =~= seq!['N', 'O', 'R', 'T', 'H'] + seq!['_'] + seq!['E', 'A', 'S', 'T']
        + seq!['_'] + seq!['S', 'O', 'U', 'T', 'H'] + seq!['_'] + seq!['W', 'E', 'S', 'T']);
}

/// Each cursor style asks for the OHOS pointer style of the same shape.
pub proof fn cursor_styles_ask_for_their_shape()
    ensures
        spec_cursor_style_name(CursorStyle::Arrow) == "DEFAULT"@,
        spec_cursor_style_name(CursorStyle::IBeam) == "TEXT_CURSOR"@,
        spec_cursor_style_name(CursorStyle::Crosshair) == "CROSS"@,
        spec_cursor_style_name(CursorStyle::ClosedHand) == "HAND_GRABBING"@,
        spec_cursor_style_name(CursorStyle::OpenHand) == "HAND_OPEN"@,
        spec_cursor_style_name(CursorStyle::PointingHand) == "HAND_POINTING"@,
        spec_cursor_style_name(CursorStyle::ResizeLeft) == "WEST"@,
        spec_cursor_style_name(CursorStyle::ResizeRight) == "EAST"@,
        spec_cursor_style_name(CursorStyle::ResizeLeftRight) == "WEST_EAST"@,
        spec_cursor_style_name(CursorStyle::ResizeUp) == "NORTH"@,
        spec_cursor_style_name(CursorStyle::ResizeDown) == "SOUTH"@,
        spec_cursor_style_name(CursorStyle::ResizeUpDown) == "NORTH_SOUTH"@,
        spec_cursor_style_name(CursorStyle::ResizeUpLeftDownRight) == "NORTH_WEST_SOUTH_EAST"@,
        spec_cursor_style_name(CursorStyle::ResizeUpRightDownLeft) == "NORTH_EAST_SOUTH_WEST"@,
        spec_cursor_style_name(CursorStyle::ResizeColumn) == "RESIZE_LEFT_RIGHT"@,
        spec_cursor_style_name(CursorStyle::ResizeRow) == "RESIZE_UP_DOWN"@,
        spec_cursor_style_name(CursorStyle::IBeamCursorForVerticalLayout) == "HORIZONTAL_TEXT_CURSOR"@,
        spec_cursor_style_name(CursorStyle::OperationNotAllowed) == "CURSOR_FORBID"@,
        spec_cursor_style_name(CursorStyle::DragLink) == "MOVE"@,
        spec_cursor_style_name(CursorStyle::DragCopy) == "CURSOR_COPY"@,
        spec_cursor_style_name(CursorStyle::ContextualMenu) == "CURSOR_CIRCLE"@,
{
    reveal_strlit("DEFAULT");
    assert("DEFAULT"@ =~= seq!['D', 'E', 'F', 'A', 'U', 'L', 'T']);
    reveal_strlit("TEXT_CURSOR");
    assert("TEXT_CURSOR"@ =~= seq!['T', 'E', 'X', 'T', '_', 'C', 'U', 'R', 'S', 'O', 'R']);
    reveal_strlit("CROSS");
    assert("CROSS"@ =~= seq!['C', 'R', 'O', 'S', 'S']);
    reveal_strlit("HAND_GRABBING");
    assert("HAND_GRABBING"@ =~= seq!['H', 'A', 'N', 'D', '_', 'G', 'R', 'A', 'B', 'B', 'I', 'N', 'G']);
    reveal_strlit("HAND_OPEN");
    assert("HAND_OPEN"@ =~= seq!['H', 'A', 'N', 'D', '_', 'O', 'P', 'E', 'N']);
    reveal_strlit("HAND_POINTING");
    assert("HAND_POINTING"@ =~= seq!['H', 'A', 'N', 'D', '_', 'P', 'O', 'I', 'N', 'T', 'I', 'N', 'G']);
    reveal_strlit("WEST");
    assert("WEST"@ =~= seq!['W', 'E', 'S', 'T']);
    reveal_strlit("EAST");
    assert("EAST"@ =~= seq!['E', 'A', 'S', 'T']);
    reveal_strlit("WEST_EAST");
    assert("WEST_EAST"@ =~= seq!['W', 'E', 'S', 'T', '_', 'E', 'A', 'S', 'T']);
    reveal_strlit("NORTH");
    assert("NORTH"@ =~= seq!['N', 'O', 'R', 'T', 'H']);
    reveal_strlit("SOUTH");
    assert("SOUTH"@ =~= seq!['S', 'O', 'U', 'T', 'H']);
    reveal_strlit("NORTH_SOUTH");
    assert("NORTH_SOUTH"@ =~= seq!['N', 'O', 'R', 'T', 'H', '_', 'S', 'O', 'U', 'T', 'H']);
    reveal_strlit("NORTH_WEST_SOUTH_EAST");
    assert("NORTH_WEST_SOUTH_EAST"@ =~= seq!['N', 'O', 'R', 'T', 'H', '_', 'W', 'E', 'S', 'T', '_', 'S', 'O', 'U', 'T', 'H', '_', 'E', 'A', 'S', 'T']);
    reveal_strlit("NORTH_EAST_SOUTH_WEST");
    assert("NORTH_EAST_SOUTH_WEST"@ =~= seq!['N', 'O', 'R', 'T', 'H', '_', 'E', 'A', 'S', 'T', '_', 'S', 'O', 'U', 'T', 'H', '_', 'W', 'E', 'S', 'T']);
    reveal_strlit("RESIZE_LEFT_RIGHT");
    assert("RESIZE_LEFT_RIGHT"@ =~= seq!['R', 'E', 'S', 'I', 'Z', 'E', '_', 'L', 'E', 'F', 'T', '_', 'R', 'I', 'G', 'H', 'T']);
    reveal_strlit("RESIZE_UP_DOWN");
    assert("RESIZE_UP_DOWN"@ =~= seq!['R', 'E', 'S', 'I', 'Z', 'E', '_', 'U', 'P', '_', 'D', 'O', 'W', 'N']);
    reveal_strlit("HORIZONTAL_TEXT_CURSOR");
    assert("HORIZONTAL_TEXT_CURSOR"@ =~= seq!['H', 'O', 'R', 'I', 'Z', 'O', 'N', 'T', 'A', 'L', '_', 'T', 'E', 'X', 'T', '_', 'C', 'U', 'R', 'S', 'O', 'R']);
    reveal_strlit("CURSOR_FORBID");
    assert("CURSOR_FORBID"@ =~= seq!['C', 'U', 'R', 'S', 'O', 'R', '_', 'F', 'O', 'R', 'B', 'I', 'D']);
    reveal_strlit("MOVE");
    assert("MOVE"@ =~= seq!['M', 'O', 'V', 'E']);
    reveal_strlit("CURSOR_COPY");
    assert("CURSOR_COPY"@ =~= seq!['C', 'U', 'R', 'S', 'O', 'R', '_', 'C', 'O', 'P', 'Y']);
    reveal_strlit("CURSOR_CIRCLE");
    assert("CURSOR_CIRCLE"@ =~= seq!['C', 'U', 'R', 'S', 'O', 'R', '_', 'C', 'I', 'R', 'C', 'L', 'E']);
}

/// The name of the OHOS pointer style for a cursor style, the argument of
/// `OP_SET_CURSOR`.
pub fn cursor_style_name(style: CursorStyle) -> (name: String)
    ensures
        name@ == spec_cursor_style_name(style),
{
    match style {
        CursorStyle::Arrow => text_of(&['D', 'E', 'F', 'A', 'U', 'L', 'T']),
        CursorStyle::IBeam => text_of(&['T', 'E', 'X', 'T', '_', 'C', 'U', 'R', 'S', 'O', 'R']),
        CursorStyle::Crosshair => text_of(&['C', 'R', 'O', 'S', 'S']),
        CursorStyle::ClosedHand => text_of(&['H', 'A', 'N', 'D', '_', 'G', 'R', 'A', 'B', 'B', 'I', 'N', 'G']),
        CursorStyle::OpenHand => text_of(&['H', 'A', 'N', 'D', '_', 'O', 'P', 'E', 'N']),
        CursorStyle::PointingHand => text_of(&['H', 'A', 'N', 'D', '_', 'P', 'O', 'I', 'N', 'T', 'I', 'N', 'G']),
        CursorStyle::ResizeLeft => text_of(&['W', 'E', 'S', 'T']),
        CursorStyle::ResizeRight => text_of(&['E', 'A', 'S', 'T']),
        CursorStyle::ResizeLeftRight => text_of(&['W', 'E', 'S', 'T', '_', 'E', 'A', 'S', 'T']),
        CursorStyle::ResizeUp => text_of(&['N', 'O', 'R', 'T', 'H']),
        CursorStyle::ResizeDown => text_of(&['S', 'O', 'U', 'T', 'H']),
        CursorStyle::ResizeUpDown => text_of(&['N', 'O', 'R', 'T', 'H', '_', 'S', 'O', 'U', 'T', 'H']),
        CursorStyle::ResizeUpLeftDownRight => text_of(&['N', 'O', 'R', 'T', 'H', '_', 'W', 'E', 'S', 'T', '_', 'S', 'O', 'U', 'T', 'H', '_', 'E', 'A', 'S', 'T']),
        CursorStyle::ResizeUpRightDownLeft => text_of(&['N', 'O', 'R', 'T', 'H', '_', 'E', 'A', 'S', 'T', '_', 'S', 'O', 'U', 'T', 'H', '_', 'W', 'E', 'S', 'T']),
        CursorStyle::ResizeColumn => text_of(&['R', 'E', 'S', 'I', 'Z', 'E', '_', 'L', 'E', 'F', 'T', '_', 'R', 'I', 'G', 'H', 'T']),
        CursorStyle::ResizeRow => text_of(&['R', 'E', 'S', 'I', 'Z', 'E', '_', 'U', 'P', '_', 'D', 'O', 'W', 'N']),
        CursorStyle::IBeamCursorForVerticalLayout => text_of(&['H', 'O', 'R', 'I', 'Z', 'O', 'N', 'T', 'A', 'L', '_', 'T', 'E', 'X', 'T', '_', 'C', 'U', 'R', 'S', 'O', 'R']),
        CursorStyle::OperationNotAllowed => text_of(&['C', 'U', 'R', 'S', 'O', 'R', '_', 'F', 'O', 'R', 'B', 'I', 'D']),
        CursorStyle::DragLink => text_of(&['M', 'O', 'V', 'E']),
        CursorStyle::DragCopy => text_of(&['C', 'U', 'R', 'S', 'O', 'R', '_', 'C', 'O', 'P', 'Y']),
        CursorStyle::ContextualMenu => text_of(&['C', 'U', 'R', 'S', 'O', 'R', '_', 'C', 'I', 'R', 'C', 'L', 'E']),
    }
}

/// The `n`th field of `text` split at '|', if there is one: the text between
/// the `n`th and the next bar.
pub open spec fn bar_field_from(text: Seq<char>, start: int, n: nat) -> Option<Seq<char>>
    decreases n,
{
    if start < 0 || start > text.len() {
        None
    } else {
        let end = next_index_of(text, '|', start);
        if n == 0 {
            Some(text.subrange(start, end))
        } else if end >= text.len() {
            None
        } else {
            bar_field_from(text, end + 1, (n - 1) as nat)
        }
    }
}

/// What a picker answer line stands for, as the path the application is
/// handed: "f|fd|name|path" is the sandbox path when one that starts with '/'
/// was sent, otherwise "fd:<fd>"; "d|path|uri" is the plain path; anything
/// else is taken as it is.
pub open spec fn spec_picked_handle(line: Seq<char>) -> Seq<char> {
    match spec_strip_prefix(line, seq!['f', '|']) {
        Some(rest) => {
            let fd = bar_field_from(rest, 0, 0).unwrap();
            match bar_field_from(rest, 0, 2) {
                Some(path) if path.len() > 0 && path[0] == '/' => path,
                _ => if fd.len() > 0 { seq!['f', 'd', ':'] + fd } else { line },
            }
        },
        None => match spec_strip_prefix(line, seq!['d', '|']) {
            Some(rest) => match spec_split_once(rest, '|') {
                Some((path, _)) => path,
                None => rest,
            },
            None => line,
        },
    }
}

/// The field of `chars` that starts at `start`, and where it ends.
fn bar_field(chars: &[char], start: usize) -> (result: (String, usize))
    requires
        start <= chars@.len(),
    ensures
        result.1 == next_index_of(chars@, '|', start as int),
        result.0@ == chars@.subrange(start as int, result.1 as int),
{
    proof {
        lemma_next_index_of(chars@, '|', start as int);
    }
    let end = find_char(chars, '|', start);
    (text_between(chars, start, end), end)
}

/// The path a picker answer line stands for; see `spec_picked_handle`.
pub fn picked_handle(line: &str) -> (path: String)
    ensures
        path@ == spec_picked_handle(line@),
{
    let file_tag: [char; 2] = ['f', '|'];
    let dir_tag: [char; 2] = ['d', '|'];
    assert(file_tag@ =~= seq!['f', '|'] && dir_tag@ =~= seq!['d', '|']);
    let chars = chars_of(line);
    if has_prefix(chars.as_slice(), &file_tag) {
        let rest = text_between(chars.as_slice(), 2, chars.len());
        let rest_chars = chars_of(rest.as_str());
        assert(spec_strip_prefix(line@, seq!['f', '|']) == Some(rest@));
        proof {
            lemma_next_index_of(rest@, '|', 0);
        }
        let (fd, end0) = bar_field(rest_chars.as_slice(), 0);
        assert(bar_field_from(rest@, 0, 0) == Some(fd@));
        if end0 < rest_chars.len() {
            proof {
                lemma_next_index_of(rest@, '|', end0 + 1);
            }
            let (_name, end1) = bar_field(rest_chars.as_slice(), end0 + 1);
            if end1 < rest_chars.len() {
                let (path, _end2) = bar_field(rest_chars.as_slice(), end1 + 1);
                assert(bar_field_from(rest@, end1 + 1, 0) == Some(path@));
                assert(bar_field_from(rest@, end0 + 1, 1) == Some(path@));
                assert(bar_field_from(rest@, 0, 2) == Some(path@));
                let path_chars = chars_of(path.as_str());
                if path_chars.len() > 0 && path_chars[0] == '/' {
                    return path;
                }
            } else {
                assert(bar_field_from(rest@, end0 + 1, 1) is None);
                assert(bar_field_from(rest@, 0, 2) is None);
            }
        } else {
            assert(bar_field_from(rest@, 0, 2) is None);
        }
        if !fd.as_str().is_empty() {
            proof {
                reveal_strlit("fd:");
            }
            let tagged = concat("fd:", fd.as_str());
            assert(tagged@ =~= seq!['f', 'd', ':'] + fd@);
            return tagged;
        }
        return line.to_owned();
    }
    assert(spec_strip_prefix(line@, seq!['f', '|']) is None);
    if has_prefix(chars.as_slice(), &dir_tag) {
        let rest = text_between(chars.as_slice(), 2, chars.len());
        assert(spec_strip_prefix(line@, seq!['d', '|']) == Some(rest@));
        return match split_once(rest.as_str(), '|') {
            Some((path, _uri)) => path,
            None => rest,
        };
    }
    line.to_owned()
}

/// What a path picker answer stands for: the paths of its lines, or nothing
/// when it has none.
pub fn picked_paths(lines: &[String]) -> (paths: Option<Vec<String>>)
    ensures
        match paths {
            Some(p) => lines@.len() > 0 && texts(p@) == Seq::new(lines@.len(), |i: int| spec_picked_handle(lines@[i]@)),
            None => lines@.len() == 0,
        },
{
    if lines.len() == 0 {
        return None;
    }
    let mut paths: Vec<String> = Vec::new();
    let mut i: usize = 0;
    while i < lines.len()
        invariant
            i <= lines@.len(),
            texts(paths@) == Seq::new(lines@.len(), |k: int| spec_picked_handle(lines@[k]@)).take(i as int),
        decreases lines@.len() - i,
    {
        let ghost before = paths@;
        let path = picked_handle(lines[i].as_str());
        paths.push(path);
        proof {
            lemma_texts_push(before, path);
            assert(texts(paths@) =~= Seq::new(lines@.len(), |k: int| spec_picked_handle(lines@[k]@)).take(i + 1));
        }
        i = i + 1;
    }
    proof {
        assert(Seq::new(lines@.len(), |k: int| spec_picked_handle(lines@[k]@)).take(i as int)
            =~= Seq::new(lines@.len(), |k: int| spec_picked_handle(lines@[k]@)));
    }
    Some(paths)
}

} // verus!
