//! The input method bridge's own state and decisions.
//!
//! The input method drives the editor from a thread of its own, so its
//! callbacks only queue commands, which the frame loop drains and hands to
//! the window being typed into. The editor's text and caret are mirrored
//! back to the input method, which needs them to start composing and only
//! ever sees a window of the text around the caret.

use vstd::prelude::*;
use crate::text::{chars_of, text_of};

verus! {

/// A command the input method queued.
pub enum ImeCommand {
    /// Insert this text and end any composition.
    Commit(String),
    /// Delete this many UTF-16 units before the caret.
    Backspace(usize),
    /// Delete this many UTF-16 units after the caret.
    DeleteForward(usize),
    /// Show this composition; -1/-1 replaces the whole composition.
    Preview { text: String, start: i32, end: i32 },
    /// End the composition, keeping its text.
    ClearPreview,
    /// Move the caret: 1 up, 2 down, 3 left, 4 right.
    MoveCursor(i32),
}

pub enum ImeCommandView {
    Commit(Seq<char>),
    Backspace(usize),
    DeleteForward(usize),
    Preview { text: Seq<char>, start: i32, end: i32 },
    ClearPreview,
    MoveCursor(i32),
}

impl View for ImeCommand {
    type V = ImeCommandView;

    open spec fn view(&self) -> ImeCommandView {
        match self {
            ImeCommand::Commit(t) => ImeCommandView::Commit(t@),
            ImeCommand::Backspace(n) => ImeCommandView::Backspace(*n),
            ImeCommand::DeleteForward(n) => ImeCommandView::DeleteForward(*n),
            ImeCommand::Preview { text, start, end } => ImeCommandView::Preview { text: text@, start: *start, end: *end },
            ImeCommand::ClearPreview => ImeCommandView::ClearPreview,
            ImeCommand::MoveCursor(d) => ImeCommandView::MoveCursor(*d),
        }
    }
}

pub open spec fn command_views(commands: Seq<ImeCommand>) -> Seq<ImeCommandView> {
    Seq::new(commands.len(), |i: int| commands[i]@)
}

/// The caret rectangle last sent to the input method, as the bit patterns of
/// its four coordinates.
pub type CursorBits = (u64, u64, u64, u64);

/// What the input method was last told about the editor.
pub struct ImeContext {
    pub text: String,
    /// The caret, in UTF-16 units.
    pub caret: usize,
    pub cursor: CursorBits,
}

/// The state the input method's callbacks share with the frame loop.
pub struct InputMethod {
    queue: Vec<ImeCommand>,
    /// The text being composed right now.
    preview: String,
    context: ImeContext,
}

pub struct InputMethodView {
    pub queue: Seq<ImeCommandView>,
    pub preview: Seq<char>,
    pub text: Seq<char>,
    pub caret: usize,
    pub cursor: CursorBits,
}

impl View for InputMethod {
    type V = InputMethodView;

    closed spec fn view(&self) -> InputMethodView {
        InputMethodView {
            queue: command_views(self.queue@),
            preview: self.preview@,
            text: self.context.text@,
            caret: self.context.caret,
            cursor: self.context.cursor,
        }
    }
}

/// The caret rectangle the input method starts with: a thin caret at the
/// origin, 2 by 20 pixels.
pub open spec fn default_cursor() -> CursorBits {
    (0, 0, 0x4000000000000000, 0x4034000000000000)
}

/// Appending a command appends its view.
pub proof fn lemma_commands_push(commands: Seq<ImeCommand>, c: ImeCommand)
    ensures
        command_views(commands.push(c)) == command_views(commands).push(c@),
{
    assert forall|j: int| 0 <= j < commands.len() + 1 implies #[trigger] command_views(commands.push(c))[j]
        == command_views(commands).push(c@)[j] by {
        if j < commands.len() {
            assert(commands.push(c)[j] == commands[j]);
        }
    }
    assert(command_views(commands.push(c)) =~= command_views(commands).push(c@));
}

impl InputMethod {
    /// Nothing queued, nothing composed, and an empty editor mirrored.
    pub fn new() -> (ime: Self)
        ensures
            ime@ == (InputMethodView { queue: Seq::empty(), preview: Seq::empty(), text: Seq::empty(), caret: 0, cursor: default_cursor() }),
    {
        let ime = InputMethod {
            queue: Vec::new(),
            preview: String::new(),
            context: ImeContext { text: String::new(), caret: 0, cursor: (0, 0, 0x4000000000000000, 0x4034000000000000) },
        };
        assert(command_views(ime.queue@) =~= Seq::empty());
        ime
    }

    /// Queue a command.
    fn push(&mut self, command: ImeCommand)
        ensures
            final(self)@ == (InputMethodView { queue: old(self)@.queue.push(command@), ..old(self)@ }),
    {
        let ghost before = self.queue@;
        self.queue.push(command);
        proof {
            lemma_commands_push(before, command);
        }
    }

    /// Take every queued command, oldest first.
    pub fn drain(&mut self) -> (commands: Vec<ImeCommand>)
        ensures
            command_views(commands@) == old(self)@.queue,
            final(self)@ == (InputMethodView { queue: Seq::empty(), ..old(self)@ }),
    {
        let mut commands: Vec<ImeCommand> = Vec::new();
        std::mem::swap(&mut commands, &mut self.queue);
        assert(command_views(self.queue@) =~= Seq::empty());
        commands
    }

    /// The input method inserted text. Nothing is queued for empty text.
    pub fn on_insert(&mut self, text: String)
        ensures
            final(self)@ == if text@.len() == 0 { old(self)@ } else {
                InputMethodView { queue: old(self)@.queue.push(ImeCommandView::Commit(text@)), ..old(self)@ }
            },
    {
        if !text.as_str().is_empty() {
            self.push(ImeCommand::Commit(text));
        }
    }

    /// The input method deleted `length` units before the caret; at least
    /// one is deleted.
    pub fn on_delete_backward(&mut self, length: i32)
        ensures
            final(self)@ == (InputMethodView {
                queue: old(self)@.queue.push(ImeCommandView::Backspace(if length < 1 { 1 } else { length as usize })),
                ..old(self)@
            }),
    {
        let count: usize = if length < 1 { 1 } else { length as usize };
        self.push(ImeCommand::Backspace(count));
    }

    /// The input method deleted `length` units after the caret; at least one
    /// is deleted.
    pub fn on_delete_forward(&mut self, length: i32)
        ensures
            final(self)@ == (InputMethodView {
                queue: old(self)@.queue.push(ImeCommandView::DeleteForward(if length < 1 { 1 } else { length as usize })),
                ..old(self)@
            }),
    {
        let count: usize = if length < 1 { 1 } else { length as usize };
        self.push(ImeCommand::DeleteForward(count));
    }

    /// The input method shows a composition over `start`..`end`.
    pub fn on_preview(&mut self, text: String, start: i32, end: i32)
        ensures
            final(self)@ == (InputMethodView {
                queue: old(self)@.queue.push(ImeCommandView::Preview { text: text@, start, end }),
                preview: text@,
                ..old(self)@
            }),
    {
        self.preview = text.clone();
        self.push(ImeCommand::Preview { text, start, end });
    }

    /// The input method ended the composition.
    pub fn on_finish_preview(&mut self)
        ensures
            final(self)@ == (InputMethodView {
                queue: old(self)@.queue.push(ImeCommandView::ClearPreview),
                preview: Seq::empty(),
                ..old(self)@
            }),
    {
        self.preview = String::new();
        self.push(ImeCommand::ClearPreview);
    }

    /// Enter was pressed in the input method. It confirms the composition,
    /// whose text only the preview callbacks reported: that text is
    /// committed. Without a composition this is an ordinary enter, which the
    /// application gets through the key path, and nothing is queued.
    pub fn on_enter_key(&mut self)
        ensures
            final(self)@ == if old(self)@.preview.len() == 0 {
                old(self)@
            } else {
                InputMethodView {
                    queue: old(self)@.queue.push(ImeCommandView::Commit(old(self)@.preview)),
                    preview: Seq::empty(),
                    ..old(self)@
                }
            },
    {
        let mut composing = String::new();
        std::mem::swap(&mut composing, &mut self.preview);
        if composing.as_str().is_empty() {
            assert(self.preview@ =~= old(self).preview@);
            return;
        }
        self.push(ImeCommand::Commit(composing));
    }

    /// The input method moved the caret.
    pub fn on_move_cursor(&mut self, direction: i32)
        ensures
            final(self)@ == (InputMethodView { queue: old(self)@.queue.push(ImeCommandView::MoveCursor(direction)), ..old(self)@ }),
    {
        self.push(ImeCommand::MoveCursor(direction));
    }

    /// The caret the input method asks for, in UTF-16 units.
    pub fn text_index_at_cursor(&self) -> (caret: usize)
        ensures
            caret == self@.caret,
    {
        self.context.caret
    }
}

/// Queue text to be inserted.
pub fn commit_text(ime: &mut InputMethod, text: &str)
    ensures
        final(ime)@ == (InputMethodView { queue: old(ime)@.queue.push(ImeCommandView::Commit(text@)), ..old(ime)@ }),
{
    ime.push(ImeCommand::Commit(text.to_owned()));
}

/// Queue deleting `length` units before the caret; at least one is deleted.
pub fn delete_backward(ime: &mut InputMethod, length: usize)
    ensures
        final(ime)@ == (InputMethodView {
            queue: old(ime)@.queue.push(ImeCommandView::Backspace(if length < 1 { 1 } else { length })),
            ..old(ime)@
        }),
{
    ime.push(ImeCommand::Backspace(if length < 1 { 1 } else { length }));
}

/// Queue deleting `length` units after the caret; at least one is deleted.
pub fn delete_forward(ime: &mut InputMethod, length: usize)
    ensures
        final(ime)@ == (InputMethodView {
            queue: old(ime)@.queue.push(ImeCommandView::DeleteForward(if length < 1 { 1 } else { length })),
            ..old(ime)@
        }),
{
    ime.push(ImeCommand::DeleteForward(if length < 1 { 1 } else { length }));
}

/// Queue showing `text` as the whole composition.
pub fn preview_text(ime: &mut InputMethod, text: &str)
    ensures
        final(ime)@ == (InputMethodView {
            queue: old(ime)@.queue.push(ImeCommandView::Preview { text: text@, start: -1i32, end: -1i32 }),
            ..old(ime)@
        }),
{
    ime.push(ImeCommand::Preview { text: text.to_owned(), start: -1, end: -1 });
}

/// Queue ending the composition.
pub fn finish_preview(ime: &mut InputMethod)
    ensures
        final(ime)@ == (InputMethodView { queue: old(ime)@.queue.push(ImeCommandView::ClearPreview), ..old(ime)@ }),
{
    ime.push(ImeCommand::ClearPreview);
}

/// The input method was asked to show its keyboard and answered `code`. A
/// refusal means the system detached the client when the window lost
/// focus: the mirrored editor state is forgotten and the answer is `true`,
/// asking for the client to be attached again and shown once more.
pub fn show(ime: &mut InputMethod, code: i32) -> (reattach: bool)
    ensures
        reattach == (code != 0),
        final(ime)@ == if code == 0 { old(ime)@ } else {
            InputMethodView { text: Seq::empty(), caret: 0, cursor: default_cursor(), ..old(ime)@ }
        },
{
    if code == 0 {
        return false;
    }
    ime.context = ImeContext { text: String::new(), caret: 0, cursor: (0, 0, 0x4000000000000000, 0x4034000000000000) };
    true
}

} // verus!

verus! {

// ---------------------------------------------------------------------------
// The editor's text as the input method counts it
// ---------------------------------------------------------------------------

/// The UTF-16 units of one character.
pub open spec fn utf16_char(c: char) -> Seq<u16> {
    let v = c as u32;
    if v < 0x10000 {
        seq![v as u16]
    } else {
        seq![(0xD800 + (v - 0x10000) / 0x400) as u16, (0xDC00 + (v - 0x10000) % 0x400) as u16]
    }
}

/// The UTF-16 units of a text, as `str::encode_utf16` yields them.
pub open spec fn utf16_of(text: Seq<char>) -> Seq<u16>
    decreases text.len(),
{
    if text.len() == 0 {
        Seq::empty()
    } else {
        utf16_of(text.drop_last()) + utf16_char(text.last())
    }
}

/// The UTF-16 units of `text`.
pub fn encode_utf16(text: &str) -> (units: Vec<u16>)
    ensures
        units@ == utf16_of(text@),
{
    let chars = chars_of(text);
    let mut units: Vec<u16> = Vec::new();
    let mut i: usize = 0;
    while i < chars.len()
        invariant
            i <= chars@.len(),
            chars@ == text@,
            units@ == utf16_of(text@.take(i as int)),
        decreases chars@.len() - i,
    {
        assert(text@.take(i + 1).drop_last() =~= text@.take(i as int));
        assert(text@.take(i + 1).last() == chars@[i as int]);
        let v = chars[i] as u32;
        if v < 0x10000 {
            units.push(v as u16);
            proof {
                assert(units@ =~= utf16_of(text@.take(i as int)) + utf16_char(chars@[i as int]));
            }
        } else {
            let u = v - 0x10000;
            proof {
                vstd::utf8::char_is_scalar(chars@[i as int]);
            }
            assert(u < 0x100000);
            units.push((0xD800 + u / 0x400) as u16);
            units.push((0xDC00 + u % 0x400) as u16);
            proof {
                assert(units@ =~= utf16_of(text@.take(i as int)) + utf16_char(chars@[i as int]));
            }
        }
        i = i + 1;
    }
    proof {
        assert(text@.take(i as int) =~= text@);
    }
    units
}

/// Most UTF-16 units one notification may carry: the input method rejects
/// anything longer, so only a window of the text around the caret is sent.
pub const IME_TEXT_LIMIT: usize = 8192;

/// The window of a text of `len` units around `caret` that is sent: at most
/// `IME_TEXT_LIMIT` units, with the caret as central as the text allows.
pub open spec fn spec_context_window(len: int, caret: int) -> (int, int) {
    let at = if caret < len { caret } else { len };
    let half = IME_TEXT_LIMIT / 2;
    let back = if at > half { at - half } else { 0 };
    let last_start = if len > IME_TEXT_LIMIT { len - IME_TEXT_LIMIT } else { 0 };
    let start = if back < last_start { back } else { last_start };
    let end = if start + IME_TEXT_LIMIT < len { start + IME_TEXT_LIMIT } else { len };
    (start, end)
}

/// The window sent for a text of `len` units with the caret at `caret`,
/// as (start, end).
pub fn context_window(len: usize, caret: usize) -> (window: (usize, usize))
    ensures
        (window.0 as int, window.1 as int) == spec_context_window(len as int, caret as int),
{
    let at = if caret < len { caret } else { len };
    let half = IME_TEXT_LIMIT / 2;
    let back = if at > half { at - half } else { 0 };
    let last_start = if len > IME_TEXT_LIMIT { len - IME_TEXT_LIMIT } else { 0 };
    let start = if back < last_start { back } else { last_start };
    let end = if len - start > IME_TEXT_LIMIT { start + IME_TEXT_LIMIT } else { len };
    (start, end)
}

/// The window never exceeds the limit, holds the caret, and is as long as
/// the limit allows.
pub proof fn context_window_holds_caret(len: int, caret: int)
    requires
        0 <= len,
        0 <= caret,
    ensures
        ({
            let (start, end) = spec_context_window(len, caret);
            let at = if caret < len { caret } else { len };
            &&& 0 <= start <= at <= end <= len
            &&& end - start == if len < IME_TEXT_LIMIT { len } else { IME_TEXT_LIMIT as int }
        }),
{
}

} // verus!

verus! {

/// The units the input method asks for next to the caret: up to `number`
/// units before it (`left`) or after it, the caret counted at most at the
/// end of the text, cut to the `capacity` of the caller's buffer.
pub open spec fn spec_text_slice(units: Seq<u16>, caret: int, number: i32, left: bool, capacity: int) -> Seq<u16> {
    let at = if caret < units.len() { caret } else { units.len() as int };
    let count = if number < 0 { 0 } else { number as int };
    let slice = if left {
        units.subrange(if count < at { at - count } else { 0 }, at)
    } else {
        units.subrange(at, if at + count < units.len() { at + count } else { units.len() as int })
    };
    if slice.len() <= capacity { slice } else { slice.take(capacity) }
}

/// The copy of `units` from `start` to `end`.
fn units_between(units: &[u16], start: usize, end: usize) -> (part: Vec<u16>)
    requires
        start <= end <= units@.len(),
    ensures
        part@ == units@.subrange(start as int, end as int),
{
    let mut part: Vec<u16> = Vec::new();
    let mut i = start;
    while i < end
        invariant
            start <= i <= end <= units@.len(),
            part@ == units@.subrange(start as int, i as int),
        decreases end - i,
    {
        part.push(units[i]);
        proof {
            assert(part@ =~= units@.subrange(start as int, i + 1));
        }
        i = i + 1;
    }
    part
}

impl InputMethod {
    /// The text next to the caret the input method asks for; see
    /// `spec_text_slice`.
    pub fn text_slice(&self, number: i32, left: bool, capacity: usize) -> (part: Vec<u16>)
        ensures
            part@ == spec_text_slice(utf16_of(self@.text), self@.caret as int, number, left, capacity as int),
    {
        let units = encode_utf16(self.context.text.as_str());
        let len = units.len();
        let at = if self.context.caret < len { self.context.caret } else { len };
        let count: usize = if number < 0 { 0 } else { number as usize };
        let (start, end) = if left {
            (if count < at { at - count } else { 0 }, at)
        } else {
            (at, if count < len - at { at + count } else { len })
        };
        let copied = if end - start <= capacity { end } else { start + capacity };
        let part = units_between(units.as_slice(), start, copied);
        assert(part@ =~= spec_text_slice(utf16_of(self@.text), self@.caret as int, number, left, capacity as int));
        part
    }
}

/// What telling the input method about the editor sends: the window of the
/// text around the caret, the caret within it, and where it starts.
pub struct ContextNotice {
    pub units: Vec<u16>,
    pub caret: usize,
    pub start: usize,
}

/// What the input method knows after a notice of `length` units about the
/// editor state was sent and `accepted` or not: the new state when it took
/// the notice (an empty one needs no taking), the old one otherwise.
pub open spec fn after_delivery(v: InputMethodView, text: Seq<char>, caret: usize, cursor: CursorBits, length: usize, accepted: bool) -> InputMethodView {
    if length == 0 || accepted {
        InputMethodView { text, caret, cursor, ..v }
    } else {
        v
    }
}

/// Whether the editor state differs from what the input method was told.
pub open spec fn context_changed(v: InputMethodView, text: Seq<char>, caret: usize, cursor: CursorBits) -> bool {
    !(v.text == text && v.caret == caret && v.cursor == cursor)
}

impl InputMethod {
    /// What to tell the input method about the editor's `text`, `caret` (in
    /// UTF-16 units) and caret rectangle: nothing when that is what it was
    /// told last or when no input method is attached, otherwise the window
    /// of the text around the caret.
    pub fn plan_context_update(&self, text: &str, caret: usize, cursor: CursorBits, attached: bool) -> (notice: Option<ContextNotice>)
        ensures
            notice is Some <==> (attached && context_changed(self@, text@, caret, cursor)),
            notice matches Some(n) ==> ({
                let units = utf16_of(text@);
                let at = if caret < units.len() { caret as int } else { units.len() as int };
                let (start, end) = spec_context_window(units.len() as int, caret as int);
                &&& n.start == start
                &&& n.units@ == units.subrange(start, end)
                &&& n.caret == at - start
            }),
    {
        let same = crate::text::same_text(self.context.text.as_str(), text) && self.context.caret == caret
            && self.context.cursor.0 == cursor.0 && self.context.cursor.1 == cursor.1 && self.context.cursor.2 == cursor.2
            && self.context.cursor.3 == cursor.3;
        if same || !attached {
            return None;
        }
        let units = encode_utf16(text);
        let len = units.len();
        let at = if caret < len { caret } else { len };
        let (start, end) = context_window(len, caret);
        proof {
            context_window_holds_caret(len as int, caret as int);
        }
        let window = units_between(units.as_slice(), start, end);
        Some(ContextNotice { units: window, caret: at - start, start })
    }

    /// The input method was sent a context notice of `length` units and
    /// `accepted` it or not. What it now knows is recorded only when it took
    /// the notice (an empty one needs no taking): a refusal is retried on the
    /// next frame.
    pub fn context_delivered(&mut self, text: &str, caret: usize, cursor: CursorBits, length: usize, accepted: bool)
        ensures
            final(self)@ == after_delivery(old(self)@, text@, caret, cursor, length, accepted),
    {
        if length == 0 || accepted {
            self.context = ImeContext { text: text.to_owned(), caret, cursor };
        }
    }
}

/// A context notice the input method took is not sent again for the same
/// editor state; one it refused leaves what it knows unchanged, so the same
/// notice is planned again on the next frame.
pub proof fn refused_context_is_sent_again(
    v: InputMethodView,
    text: Seq<char>,
    caret: usize,
    cursor: CursorBits,
    length: usize,
    accepted: bool,
)
    ensures
        (accepted || length == 0) ==> !context_changed(after_delivery(v, text, caret, cursor, length, accepted), text, caret, cursor),
        (!accepted && length > 0) ==> context_changed(after_delivery(v, text, caret, cursor, length, accepted), text, caret, cursor)
            == context_changed(v, text, caret, cursor),
{
}

// ---------------------------------------------------------------------------
// What a command does to the editor
// ---------------------------------------------------------------------------

/// An edit of the focused editor, or a key for the window.
pub enum ImeEdit {
    /// Press the key with this name.
    Key(String),
    /// Replace the selection with the text and end the composition.
    Commit(String),
    /// Replace the range with nothing.
    Delete { start: usize, end: usize },
    /// Replace the range (the composition when there is none) with the text
    /// and mark it as composing.
    Mark { range: Option<(usize, usize)>, text: String },
    /// End the composition.
    Unmark,
    /// Nothing to do.
    Nothing,
}

pub enum ImeEditView {
    Key(Seq<char>),
    Commit(Seq<char>),
    Delete { start: usize, end: usize },
    Mark { range: Option<(usize, usize)>, text: Seq<char> },
    Unmark,
    Nothing,
}

impl View for ImeEdit {
    type V = ImeEditView;

    open spec fn view(&self) -> ImeEditView {
        match self {
            ImeEdit::Key(k) => ImeEditView::Key(k@),
            ImeEdit::Commit(t) => ImeEditView::Commit(t@),
            ImeEdit::Delete { start, end } => ImeEditView::Delete { start: *start, end: *end },
            ImeEdit::Mark { range, text } => ImeEditView::Mark { range: *range, text: text@ },
            ImeEdit::Unmark => ImeEditView::Unmark,
            ImeEdit::Nothing => ImeEditView::Nothing,
        }
    }
}

/// The key a caret move stands for: 1 up, 2 down, 3 left, 4 right.
pub open spec fn move_key(direction: i32) -> Option<Seq<char>> {
    if direction == 1 {
        Some(seq!['u', 'p'])
    } else if direction == 2 {
        Some(seq!['d', 'o', 'w', 'n'])
    } else if direction == 3 {
        Some(seq!['l', 'e', 'f', 't'])
    } else if direction == 4 {
        Some(seq!['r', 'i', 'g', 'h', 't'])
    } else {
        None
    }
}

/// What a command does to a window: a caret move is a key press whether or
/// not the window has an editor; the rest needs the window's editor, whose
/// selection ends at `selection_end` and whose composition is `marked`.
/// Deleting works from the end of the selection and needs one.
pub open spec fn spec_ime_edit(command: ImeCommandView, has_editor: bool, selection_end: Option<usize>, marked: Option<(usize, usize)>) -> ImeEditView {
    match command {
        ImeCommandView::MoveCursor(d) => match move_key(d) {
            Some(k) => ImeEditView::Key(k),
            None => ImeEditView::Nothing,
        },
        _ => if !has_editor {
            ImeEditView::Nothing
        } else {
            match command {
                ImeCommandView::Commit(t) => ImeEditView::Commit(t),
                ImeCommandView::Backspace(n) => match selection_end {
                    Some(e) => ImeEditView::Delete { start: if n < e { (e - n) as usize } else { 0 }, end: e },
                    None => ImeEditView::Nothing,
                },
                ImeCommandView::DeleteForward(n) => match selection_end {
                    Some(s) => ImeEditView::Delete { start: s, end: (s + n) as usize },
                    None => ImeEditView::Nothing,
                },
                ImeCommandView::Preview { text, start, end } => ImeEditView::Mark {
                    range: if start < 0 || end < 0 { marked } else { Some((start as usize, end as usize)) },
                    text,
                },
                ImeCommandView::ClearPreview => ImeEditView::Unmark,
                _ => ImeEditView::Nothing,
            }
        },
    }
}

/// Decide what a command does to a window; see `spec_ime_edit`.
pub fn ime_edit(command: &ImeCommand, has_editor: bool, selection_end: Option<usize>, marked: Option<(usize, usize)>) -> (edit: ImeEdit)
    requires
        match command@ {
            ImeCommandView::DeleteForward(n) => match selection_end {
                Some(s) => s + n <= usize::MAX,
                None => true,
            },
            _ => true,
        },
    ensures
        edit@ == spec_ime_edit(command@, has_editor, selection_end, marked),
{
    if let ImeCommand::MoveCursor(direction) = command {
        return match *direction {
            1 => ImeEdit::Key(text_of(&['u', 'p'])),
            2 => ImeEdit::Key(text_of(&['d', 'o', 'w', 'n'])),
            3 => ImeEdit::Key(text_of(&['l', 'e', 'f', 't'])),
            4 => ImeEdit::Key(text_of(&['r', 'i', 'g', 'h', 't'])),
            _ => ImeEdit::Nothing,
        };
    }
    if !has_editor {
        return ImeEdit::Nothing;
    }
    match command {
        ImeCommand::Commit(text) => ImeEdit::Commit(text.clone()),
        ImeCommand::Backspace(count) => match selection_end {
            Some(end) => ImeEdit::Delete { start: if *count < end { end - *count } else { 0 }, end },
            None => ImeEdit::Nothing,
        },
        ImeCommand::DeleteForward(count) => match selection_end {
            Some(start) => ImeEdit::Delete { start, end: start + *count },
            None => ImeEdit::Nothing,
        },
        ImeCommand::Preview { text, start, end } => {
            let range = if *start < 0 || *end < 0 { marked } else { Some((*start as usize, *end as usize)) };
            ImeEdit::Mark { range, text: text.clone() }
        },
        ImeCommand::ClearPreview => ImeEdit::Unmark,
        ImeCommand::MoveCursor(_) => ImeEdit::Nothing,
    }
}

/// With an editor, committing text inserts exactly that text, whatever the
/// selection and the composition are.
pub proof fn a_commit_inserts_its_text(text: Seq<char>, selection_end: Option<usize>, marked: Option<(usize, usize)>)
    ensures
        spec_ime_edit(ImeCommandView::Commit(text), true, selection_end, marked) == ImeEditView::Commit(text),
{
}

/// A window without an editor takes nothing from the input method but
/// caret moves.
pub proof fn without_an_editor_only_caret_moves_act(command: ImeCommandView, selection_end: Option<usize>, marked: Option<(usize, usize)>)
    requires
        !(command is MoveCursor),
    ensures
        spec_ime_edit(command, false, selection_end, marked) == ImeEditView::Nothing,
{
}

/// Deleting removes a run that ends (backwards) or starts (forwards) at the
/// end of the selection: backwards `n` units, or as many as there are before
/// it; forwards `n` units. Without a selection nothing is deleted.
pub proof fn deletions_span_their_count(n: usize, selection_end: Option<usize>, marked: Option<(usize, usize)>)
    ensures
        match (spec_ime_edit(ImeCommandView::Backspace(n), true, selection_end, marked), selection_end) {
            (ImeEditView::Delete { start, end }, Some(e)) => end == e && start <= end
                && end - start == (if n < e { n as int } else { e as int }),
            (ImeEditView::Nothing, None) => true,
            _ => false,
        },
        match (spec_ime_edit(ImeCommandView::DeleteForward(n), true, selection_end, marked), selection_end) {
            (ImeEditView::Delete { start, end }, Some(e)) => e + n <= usize::MAX ==> start == e && end - start == n,
            (ImeEditView::Nothing, None) => true,
            _ => false,
        },
{
}

/// A preview marks exactly its text: over the range the input method gives,
/// or over the current composition when it gives none (a negative bound).
pub proof fn a_preview_marks_its_text(text: Seq<char>, start: i32, end: i32, selection_end: Option<usize>, marked: Option<(usize, usize)>)
    ensures
        match spec_ime_edit(ImeCommandView::Preview { text, start, end }, true, selection_end, marked) {
            ImeEditView::Mark { range, text: t } => t == text
                && (start >= 0 && end >= 0 ==> range == Some((start as usize, end as usize)))
                && (start < 0 || end < 0 ==> range == marked),
            _ => false,
        },
        spec_ime_edit(ImeCommandView::ClearPreview, true, selection_end, marked) == ImeEditView::Unmark,
{
}

/// A caret move is the press of the arrow key pointing the same way - 1 up,
/// 2 down, 3 left, 4 right - with or without an editor; any other direction
/// does nothing.
pub proof fn caret_moves_are_arrow_presses(d: i32, has_editor: bool, selection_end: Option<usize>, marked: Option<(usize, usize)>)
    ensures
        spec_ime_edit(ImeCommandView::MoveCursor(d), has_editor, selection_end, marked) == if d == 1 {
            ImeEditView::Key("up"@)
        } else if d == 2 {
            ImeEditView::Key("down"@)
        } else if d == 3 {
            ImeEditView::Key("left"@)
        } else if d == 4 {
            ImeEditView::Key("right"@)
        } else {
            ImeEditView::Nothing
        },
{
    reveal_strlit("up");
    reveal_strlit("down");
    reveal_strlit("left");
    reveal_strlit("right");
    assert("up"@ =~= seq!['u', 'p']);
    assert("down"@ =~= seq!['d', 'o', 'w', 'n']);
    assert("left"@ =~= seq!['l', 'e', 'f', 't']);
    assert("right"@ =~= seq!['r', 'i', 'g', 'h', 't']);
}

} // verus!
