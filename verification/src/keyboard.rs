//! Keys and pointer buttons as the NDK reports them, and what the platform
//! makes of them.
//!
//! Key events arrive twice: once before the input method sees them, where the
//! platform takes the shortcuts it must see first, and once after, for
//! whatever the input method did not consume. The modifier state is tracked
//! from the key codes themselves.

use vstd::prelude::*;
use crate::text::{concat, decimal, spec_decimal, text_of};

verus! {

/// The modifier keys held down.
#[derive(Clone, Copy, PartialEq, Eq, Structural, Debug)]
pub struct Modifiers {
    pub control: bool,
    pub alt: bool,
    pub shift: bool,
    pub platform: bool,
    pub function: bool,
}

impl Modifiers {
    /// No modifier held.
    pub fn none() -> (m: Modifiers)
        ensures
            m == (Modifiers { control: false, alt: false, shift: false, platform: false, function: false }),
    {
        Modifiers { control: false, alt: false, shift: false, platform: false, function: false }
    }
}

/// The NDK codes of the modifier keys: left and right control, shift, alt and
/// meta.
pub open spec fn spec_is_modifier_key(code: i32) -> bool {
    code == 2072 || code == 2073 || code == 2047 || code == 2048 || code == 2045 || code == 2046 || code == 2076
        || code == 2077
}

/// Whether `code` is one of the modifier keys.
pub fn is_modifier_key(code: i32) -> (modifier: bool)
    ensures
        modifier == spec_is_modifier_key(code),
{
    code == 2072 || code == 2073 || code == 2047 || code == 2048 || code == 2045 || code == 2046 || code == 2076
        || code == 2077
}

/// The modifiers after key `code` went down or up.
pub open spec fn spec_update_modifiers(m: Modifiers, code: i32, down: bool) -> Modifiers {
    if code == 2072 || code == 2073 {
        Modifiers { control: down, ..m }
    } else if code == 2047 || code == 2048 {
        Modifiers { shift: down, ..m }
    } else if code == 2045 || code == 2046 {
        Modifiers { alt: down, ..m }
    } else if code == 2076 || code == 2077 {
        Modifiers { platform: down, ..m }
    } else {
        m
    }
}

/// Track key `code` going down or up; the answer is the new state.
pub fn update_modifiers(modifiers: &mut Modifiers, code: i32, down: bool) -> (now: Modifiers)
    ensures
        *final(modifiers) == spec_update_modifiers(*old(modifiers), code, down),
        now == *final(modifiers),
{
    if code == 2072 || code == 2073 {
        modifiers.control = down;
    } else if code == 2047 || code == 2048 {
        modifiers.shift = down;
    } else if code == 2045 || code == 2046 {
        modifiers.alt = down;
    } else if code == 2076 || code == 2077 {
        modifiers.platform = down;
    }
    *modifiers
}

/// Keys the application must see before the input method: the modifiers,
/// any shortcut combination and the function keys. Everything else is text
/// or editing, which the input method needs while it composes, and comes
/// back afterwards if it does not consume it.
pub open spec fn spec_is_gpui_key(code: i32, m: Modifiers) -> bool {
    spec_is_modifier_key(code) || m.control || m.alt || m.platform || (2090 <= code <= 2101)
}

/// Whether the application takes key `code` before the input method.
pub fn is_gpui_key(code: i32, modifiers: Modifiers) -> (taken: bool)
    ensures
        taken == spec_is_gpui_key(code, modifiers),
{
    is_modifier_key(code) || modifiers.control || modifiers.alt || modifiers.platform || (2090 <= code && code <= 2101)
}

/// One character as text.
pub open spec fn one(c: char) -> Seq<char> {
    seq![c]
}

/// The key name and typed character of a named key without a character.
pub open spec fn named(name: Seq<char>) -> Option<(Seq<char>, Option<char>)> {
    Some((name, None))
}

/// The key name and typed character of a key that types `c`.
pub open spec fn typed(c: char) -> Option<(Seq<char>, Option<char>)> {
    Some((seq![c], Some(c)))
}

/// The GPUI key name of an NDK key code, and the character it types.
pub open spec fn spec_ohos_key(code: i32) -> Option<(Seq<char>, Option<char>)> {
    if 2000 <= code <= 2009 {
        typed((('0' as u32) + (code - 2000)) as char)
    } else if 2017 <= code <= 2042 {
        typed((('a' as u32) + (code - 2017)) as char)
    } else if 2090 <= code <= 2101 {
        named(seq!['f'] + spec_decimal((code - 2089) as nat))
    } else if code == 2012 {
        named(seq!['u', 'p'])
    } else if code == 2013 {
        named(seq!['d', 'o', 'w', 'n'])
    } else if code == 2014 {
        named(seq!['l', 'e', 'f', 't'])
    } else if code == 2015 {
        named(seq!['r', 'i', 'g', 'h', 't'])
    } else if code == 2043 {
        typed(',')
    } else if code == 2044 {
        typed('.')
    } else if code == 2049 {
        named(seq!['t', 'a', 'b'])
    } else if code == 2050 {
        Some((seq!['s', 'p', 'a', 'c', 'e'], Some(' ')))
    } else if code == 2054 {
        named(seq!['e', 'n', 't', 'e', 'r'])
    } else if code == 2055 {
        named(seq!['b', 'a', 'c', 'k', 's', 'p', 'a', 'c', 'e'])
    } else if code == 2056 {
        typed('`')
    } else if code == 2057 {
        typed('-')
    } else if code == 2058 {
        typed('=')
    } else if code == 2059 {
        typed('[')
    } else if code == 2060 {
        typed(']')
    } else if code == 2061 {
        typed('\\')
    } else if code == 2062 {
        typed(';')
    } else if code == 2063 {
        typed('\'')
    } else if code == 2064 {
        typed('/')
    } else if code == 2065 {
        typed('@')
    } else if code == 2066 {
        typed('+')
    } else if code == 2068 {
        named(seq!['p', 'a', 'g', 'e', 'u', 'p'])
    } else if code == 2069 {
        named(seq!['p', 'a', 'g', 'e', 'd', 'o', 'w', 'n'])
    } else if code == 2070 {
        named(seq!['e', 's', 'c', 'a', 'p', 'e'])
    } else if code == 2071 {
        named(seq!['d', 'e', 'l', 'e', 't', 'e'])
    } else if code == 2081 {
        named(seq!['h', 'o', 'm', 'e'])
    } else if code == 2082 {
        named(seq!['e', 'n', 'd'])
    } else if code == 2083 {
        named(seq!['i', 'n', 's', 'e', 'r', 't'])
    } else {
        None
    }
}

/// A key that types `c`.
fn typed_key(c: char) -> (key: Option<(String, Option<char>)>)
    ensures
        match key {
            Some((name, ch)) => Some((name@, ch)) == typed(c),
            None => false,
        },
{
    let name = text_of(&[c]);
    Some((name, Some(c)))
}

/// A named key without a character.
fn named_key(name: &[char]) -> (key: Option<(String, Option<char>)>)
    ensures
        match key {
            Some((text, ch)) => text@ == name@ && ch is None,
            None => false,
        },
{
    Some((text_of(name), None))
}

/// Map an NDK key code to its GPUI key name and the character it types.
pub fn ohos_key(code: i32) -> (key: Option<(String, Option<char>)>)
    ensures
        match key {
            Some((name, ch)) => spec_ohos_key(code) == Some((name@, ch)),
            None => spec_ohos_key(code) is None,
        },
{
    if 2000 <= code && code <= 2009 {
        let c = ((code - 2000) as u8 + 48u8) as char;
        assert(c == (('0' as u32) + (code - 2000)) as char);
        return typed_key(c);
    }
    if 2017 <= code && code <= 2042 {
        let c = ((code - 2017) as u8 + 97u8) as char;
        assert(c == (('a' as u32) + (code - 2017)) as char);
        return typed_key(c);
    }
    if 2090 <= code && code <= 2101 {
        let number = decimal((code - 2089) as u64);
        let f = text_of(&['f']);
        let name = concat(f.as_str(), number.as_str());
        assert(name@ =~= seq!['f'] + spec_decimal((code - 2089) as nat));
        return Some((name, None));
    }
    if code == 2012 {
        let w: [char; 2] = ['u', 'p'];
        assert(w@ =~= seq!['u', 'p']);
        named_key(&w)
    } else if code == 2013 {
        let w: [char; 4] = ['d', 'o', 'w', 'n'];
        assert(w@ =~= seq!['d', 'o', 'w', 'n']);
        named_key(&w)
    } else if code == 2014 {
        let w: [char; 4] = ['l', 'e', 'f', 't'];
        assert(w@ =~= seq!['l', 'e', 'f', 't']);
        named_key(&w)
    } else if code == 2015 {
        let w: [char; 5] = ['r', 'i', 'g', 'h', 't'];
        assert(w@ =~= seq!['r', 'i', 'g', 'h', 't']);
        named_key(&w)
    } else if code == 2043 {
        typed_key(',')
    } else if code == 2044 {
        typed_key('.')
    } else if code == 2049 {
        let w: [char; 3] = ['t', 'a', 'b'];
        assert(w@ =~= seq!['t', 'a', 'b']);
        named_key(&w)
    } else if code == 2050 {
        let w: [char; 5] = ['s', 'p', 'a', 'c', 'e'];
        assert(w@ =~= seq!['s', 'p', 'a', 'c', 'e']);
        Some((text_of(&w), Some(' ')))
    } else if code == 2054 {
        let w: [char; 5] = ['e', 'n', 't', 'e', 'r'];
        assert(w@ =~= seq!['e', 'n', 't', 'e', 'r']);
        named_key(&w)
    } else if code == 2055 {
        let w: [char; 9] = ['b', 'a', 'c', 'k', 's', 'p', 'a', 'c', 'e'];
        assert(w@ =~= seq!['b', 'a', 'c', 'k', 's', 'p', 'a', 'c', 'e']);
        named_key(&w)
    } else if code == 2056 {
        typed_key('`')
    } else if code == 2057 {
        typed_key('-')
    } else if code == 2058 {
        typed_key('=')
    } else if code == 2059 {
        typed_key('[')
    } else if code == 2060 {
        typed_key(']')
    } else if code == 2061 {
        typed_key('\\')
    } else if code == 2062 {
        typed_key(';')
    } else if code == 2063 {
        typed_key('\'')
    } else if code == 2064 {
        typed_key('/')
    } else if code == 2065 {
        typed_key('@')
    } else if code == 2066 {
        typed_key('+')
    } else if code == 2068 {
        let w: [char; 6] = ['p', 'a', 'g', 'e', 'u', 'p'];
        assert(w@ =~= seq!['p', 'a', 'g', 'e', 'u', 'p']);
        named_key(&w)
    } else if code == 2069 {
        let w: [char; 8] = ['p', 'a', 'g', 'e', 'd', 'o', 'w', 'n'];
        assert(w@ =~= seq!['p', 'a', 'g', 'e', 'd', 'o', 'w', 'n']);
        named_key(&w)
    } else if code == 2070 {
        let w: [char; 6] = ['e', 's', 'c', 'a', 'p', 'e'];
        assert(w@ =~= seq!['e', 's', 'c', 'a', 'p', 'e']);
        named_key(&w)
    } else if code == 2071 {
        let w: [char; 6] = ['d', 'e', 'l', 'e', 't', 'e'];
        assert(w@ =~= seq!['d', 'e', 'l', 'e', 't', 'e']);
        named_key(&w)
    } else if code == 2081 {
        let w: [char; 4] = ['h', 'o', 'm', 'e'];
        assert(w@ =~= seq!['h', 'o', 'm', 'e']);
        named_key(&w)
    } else if code == 2082 {
        let w: [char; 3] = ['e', 'n', 'd'];
        assert(w@ =~= seq!['e', 'n', 'd']);
        named_key(&w)
    } else if code == 2083 {
        let w: [char; 6] = ['i', 'n', 's', 'e', 'r', 't'];
        assert(w@ =~= seq!['i', 'n', 's', 'e', 'r', 't']);
        named_key(&w)
    } else {
        None
    }
}

} // verus!

verus! {

// ---------------------------------------------------------------------------
// Keystrokes
// ---------------------------------------------------------------------------

/// What `char::to_uppercase` makes of a character: one or more characters,
/// from Unicode's case tables.
pub uninterp spec fn uppercase(c: char) -> Seq<char>;

/// `char::to_uppercase`, collected into a `String`. Its result is the name
/// `uppercase`; of ASCII the documentation states the mapping outright: a
/// lowercase letter becomes its capital, any other ASCII character stays as
/// it is. Beyond ASCII nothing is stated here but that the result is what
/// Unicode's tables give.
#[verifier::external_body]
fn to_uppercase(c: char) -> (upper: String)
    ensures
        upper@ == uppercase(c),
        'a' <= c <= 'z' ==> upper@ == seq![((c as u32) - 32) as char],
        (c as u32) < 128 && !('a' <= c <= 'z') ==> upper@ == seq![c],
{
    c.to_uppercase().collect()
}

/// Whether `v` is a Unicode scalar value, the values a `char` can hold.
pub open spec fn is_scalar(v: u32) -> bool {
    v < 0xD800 || (0xE000 <= v && v <= 0x10FFFF)
}

/// `char::from_u32`: the character with that value, when the value is a
/// Unicode scalar value.
#[verifier::external_body]
fn char_from_u32(v: u32) -> (c: Option<char>)
    ensures
        c is Some <==> is_scalar(v),
        c matches Some(ch) ==> ch as u32 == v && ch == v as char,
{
    char::from_u32(v)
}

/// A key press or release as the application receives it.
pub struct Keystroke {
    pub modifiers: Modifiers,
    /// The key's name.
    pub key: String,
    /// The text the key types, if any.
    pub key_char: Option<String>,
}

pub struct KeystrokeView {
    pub modifiers: Modifiers,
    pub key: Seq<char>,
    pub key_char: Option<Seq<char>>,
}

impl View for Keystroke {
    type V = KeystrokeView;

    open spec fn view(&self) -> KeystrokeView {
        KeystrokeView {
            modifiers: self.modifiers,
            key: self.key@,
            key_char: match self.key_char {
                Some(t) => Some(t@),
                None => None,
            },
        }
    }
}

/// The character a key event types: the one the NDK reported, when it is a
/// character, otherwise the one the key stands for.
pub open spec fn typed_char(unicode: Option<u32>, character: Option<char>) -> Option<char> {
    match unicode {
        Some(v) if is_scalar(v) => Some(v as char),
        _ => character,
    }
}

/// The text a key event types: nothing while control or the platform key is
/// held (the key is a shortcut then), otherwise the typed character,
/// upper-cased while shift is held.
pub open spec fn spec_key_char(m: Modifiers, unicode: Option<u32>, character: Option<char>) -> Option<Seq<char>> {
    if m.control || m.platform {
        None
    } else {
        match typed_char(unicode, character) {
            Some(c) => Some(if m.shift { uppercase(c) } else { seq![c] }),
            None => None,
        }
    }
}

/// What a key event asks the platform to hand on.
pub enum KeyAction {
    /// The modifier state changed.
    Modifiers(Modifiers),
    /// A key went down or up.
    Key { down: bool, keystroke: Keystroke },
    /// A key code with no GPUI name; it is dropped.
    Unmapped(i32),
}

pub enum KeyActionView {
    Modifiers(Modifiers),
    Key { down: bool, keystroke: KeystrokeView },
    Unmapped(i32),
}

impl View for KeyAction {
    type V = KeyActionView;

    open spec fn view(&self) -> KeyActionView {
        match self {
            KeyAction::Modifiers(m) => KeyActionView::Modifiers(*m),
            KeyAction::Key { down, keystroke } => KeyActionView::Key { down: *down, keystroke: keystroke@ },
            KeyAction::Unmapped(code) => KeyActionView::Unmapped(*code),
        }
    }
}

/// The key event for `code` with the given modifiers and reported
/// character.
pub open spec fn spec_dispatch_key(down: bool, code: i32, m: Modifiers, unicode: Option<u32>) -> KeyActionView {
    match spec_ohos_key(code) {
        Some((key, character)) => KeyActionView::Key {
            down,
            keystroke: KeystrokeView { modifiers: m, key, key_char: spec_key_char(m, unicode, character) },
        },
        None => KeyActionView::Unmapped(code),
    }
}

/// Build the key event for `code`; see `spec_dispatch_key`.
pub fn dispatch_key(down: bool, code: i32, modifiers: Modifiers, unicode: Option<u32>) -> (action: KeyAction)
    ensures
        action@ == spec_dispatch_key(down, code, modifiers, unicode),
{
    let (key, character) = match ohos_key(code) {
        Some(found) => found,
        None => return KeyAction::Unmapped(code),
    };
    let key_char = if modifiers.control || modifiers.platform {
        None
    } else {
        let reported = match unicode {
            Some(v) => char_from_u32(v),
            None => None,
        };
        let typed = match reported {
            Some(c) => Some(c),
            None => character,
        };
        assert(typed == typed_char(unicode, character));
        match typed {
            Some(c) => Some(if modifiers.shift { to_uppercase(c) } else { text_of(&[c]) }),
            None => None,
        }
    };
    let keystroke = Keystroke { modifiers, key, key_char };
    assert(keystroke@.key_char == spec_key_char(modifiers, unicode, character));
    KeyAction::Key { down, keystroke }
}

/// What a key event before the input method decides: whether the input
/// method must not see the key, and what to hand the application.
pub struct KeyRoute {
    /// The input method never sees a consumed key.
    pub consumed: bool,
    /// The surface the key event came from.
    pub id: String,
    pub action: Option<KeyAction>,
}

/// Whether shift or the platform key with space, and neither control nor
/// alt, was pressed: that switches input methods, so it stays theirs.
pub open spec fn is_switch_combo(code: i32, m: Modifiers) -> bool {
    code == 2050 && (m.shift || m.platform) && !m.control && !m.alt
}

/// What a key event before the input method hands on, over its modifiers
/// after the event, and whether it is consumed.
pub open spec fn spec_pre_ime(code: i32, m: Modifiers, down: bool) -> (bool, Option<KeyActionView>) {
    if spec_is_modifier_key(code) || is_switch_combo(code, m) {
        (false, Some(KeyActionView::Modifiers(m)))
    } else if !spec_is_gpui_key(code, m) {
        (false, None)
    } else {
        (true, Some(spec_dispatch_key(down, code, m, None)))
    }
}

/// A key event before the input method (`action` 0 is a press). Modifier
/// keys and the input method's own switch shortcut are handed on as modifier
/// changes and left to the input method too; shortcuts and function keys
/// are taken; everything else is the input method's.
pub fn key_pre_ime(modifiers: &mut Modifiers, id: &str, action: i32, code: i32, unicode: i32) -> (route: KeyRoute)
    ensures
        *final(modifiers) == spec_update_modifiers(*old(modifiers), code, action == 0),
        route.id@ == id@,
        (route.consumed, match route.action { Some(a) => Some(a@), None => None })
            == spec_pre_ime(code, *final(modifiers), action == 0),
{
    let down = action == 0;
    let now = update_modifiers(modifiers, code, down);
    let id = id.to_owned();
    if is_modifier_key(code) {
        return KeyRoute { consumed: false, id, action: Some(KeyAction::Modifiers(now)) };
    }
    let switch_combo = code == 2050 && (now.shift || now.platform) && !now.control && !now.alt;
    if switch_combo {
        return KeyRoute { consumed: false, id, action: Some(KeyAction::Modifiers(now)) };
    }
    if !is_gpui_key(code, now) {
        return KeyRoute { consumed: false, id, action: None };
    }
    KeyRoute { consumed: true, id, action: Some(dispatch_key(down, code, now, None)) }
}

/// What a key event after the input method hands on.
pub open spec fn spec_key_event(code: i32, m: Modifiers, down: bool, unicode: i32) -> KeyActionView {
    if spec_is_modifier_key(code) {
        KeyActionView::Modifiers(m)
    } else {
        spec_dispatch_key(down, code, m, if unicode > 0 { Some(unicode as u32) } else { None })
    }
}

/// A key event after the input method (`action` 0 is a press, 1 a
/// release); `unicode` is the character the NDK reports for printable keys.
pub fn key_event(modifiers: &mut Modifiers, action: i32, code: i32, unicode: i32) -> (event: KeyAction)
    ensures
        *final(modifiers) == spec_update_modifiers(*old(modifiers), code, action == 0),
        event@ == spec_key_event(code, *final(modifiers), action == 0, unicode),
{
    let down = action == 0;
    let now = update_modifiers(modifiers, code, down);
    if is_modifier_key(code) {
        return KeyAction::Modifiers(now);
    }
    let reported = if unicode > 0 { Some(unicode as u32) } else { None };
    dispatch_key(down, code, now, reported)
}

/// Pressing a modifier key and letting it go again leaves the modifiers as
/// they were, when it was not held before.
pub proof fn press_then_release_restores(m: Modifiers, code: i32)
    requires
        spec_update_modifiers(m, code, false) == m,
    ensures
        spec_update_modifiers(spec_update_modifiers(m, code, true), code, false) == m,
{
}

/// The input method sees every modifier key and every plain key: before it,
/// only shortcuts and function keys are taken, and a modifier key is
/// reported to the window as the new modifier state without being taken.
pub proof fn input_method_keeps_plain_keys(code: i32, m: Modifiers, down: bool)
    ensures
        spec_is_modifier_key(code) ==> spec_pre_ime(code, m, down) == (false, Some(KeyActionView::Modifiers(m))),
        !spec_is_gpui_key(code, m) && !is_switch_combo(code, m) ==> spec_pre_ime(code, m, down) == (false, None::<KeyActionView>),
        spec_pre_ime(code, m, down).0 ==> !spec_is_modifier_key(code) && (m.control || m.alt || m.platform || (2090 <= code <= 2101)),
{
}

// ---------------------------------------------------------------------------
// Pointer buttons and scroll phases
// ---------------------------------------------------------------------------

/// A mouse button.
#[derive(Clone, Copy, PartialEq, Eq, Structural, Debug)]
pub enum MouseButton {
    Left,
    Right,
    Middle,
    Back,
    Forward,
}

/// The NDK's button numbers: left 1, right 2, middle 3, back 4, forward 5;
/// anything else counts as the left button.
pub open spec fn spec_map_button(button: u32) -> MouseButton {
    if button == 2 {
        MouseButton::Right
    } else if button == 3 {
        MouseButton::Middle
    } else if button == 4 {
        MouseButton::Back
    } else if button == 5 {
        MouseButton::Forward
    } else {
        MouseButton::Left
    }
}

/// The mouse button an NDK button number stands for.
pub fn map_button(button: u32) -> (mapped: MouseButton)
    ensures
        mapped == spec_map_button(button),
{
    match button {
        2 => MouseButton::Right,
        3 => MouseButton::Middle,
        4 => MouseButton::Back,
        5 => MouseButton::Forward,
        _ => MouseButton::Left,
    }
}

/// Where a scroll gesture is.
#[derive(Clone, Copy, PartialEq, Eq, Structural, Debug)]
pub enum TouchPhase {
    Started,
    Moved,
    Ended,
}

/// The phase of an ArkUI axis event: 0 starts, 2 ends, anything else moves.
pub fn touch_phase(phase: i32) -> (mapped: TouchPhase)
    ensures
        mapped == (if phase == 0 { TouchPhase::Started } else if phase == 2 { TouchPhase::Ended } else { TouchPhase::Moved }),
{
    match phase {
        0 => TouchPhase::Started,
        2 => TouchPhase::Ended,
        _ => TouchPhase::Moved,
    }
}

/// The arrow keys are named for the way they point: up, down, left and
/// right, in the order of their NDK codes, and type nothing.
pub proof fn arrow_keys_name_their_direction()
    ensures
        spec_ohos_key(2012) == Some(("up"@, None::<char>)),
        spec_ohos_key(2013) == Some(("down"@, None::<char>)),
        spec_ohos_key(2014) == Some(("left"@, None::<char>)),
        spec_ohos_key(2015) == Some(("right"@, None::<char>)),
{
    reveal_strlit("up");
    reveal_strlit("down");
    reveal_strlit("left");
    reveal_strlit("right");
    assert("up"@ =~= seq!['u', 'p']);
    assert("down"@ =~= seq!['d', 'o', 'w', 'n']);
    assert("left"@ =~= seq!['l', 'e', 'f', 't']);
    assert("right"@ =~= seq!['r', 'i', 'g', 'h', 't']);
}

/// The editing and paging keys carry their own names: page up and page
/// down, home and end, escape, delete, insert, tab, enter and backspace;
/// space is named "space" and types a space.
pub proof fn editing_keys_are_named_for_what_they_do()
    ensures
        spec_ohos_key(2068) == Some(("pageup"@, None::<char>)),
        spec_ohos_key(2069) == Some(("pagedown"@, None::<char>)),
        spec_ohos_key(2081) == Some(("home"@, None::<char>)),
        spec_ohos_key(2082) == Some(("end"@, None::<char>)),
        spec_ohos_key(2070) == Some(("escape"@, None::<char>)),
        spec_ohos_key(2071) == Some(("delete"@, None::<char>)),
        spec_ohos_key(2083) == Some(("insert"@, None::<char>)),
        spec_ohos_key(2049) == Some(("tab"@, None::<char>)),
        spec_ohos_key(2054) == Some(("enter"@, None::<char>)),
        spec_ohos_key(2055) == Some(("backspace"@, None::<char>)),
        spec_ohos_key(2050) == Some(("space"@, Some(' '))),
{
    reveal_strlit("pageup");
    reveal_strlit("pagedown");
    reveal_strlit("home");
    reveal_strlit("end");
    reveal_strlit("escape");
    reveal_strlit("delete");
    reveal_strlit("insert");
    reveal_strlit("tab");
    reveal_strlit("enter");
    reveal_strlit("backspace");
    reveal_strlit("space");
    assert("pageup"@ =~= seq!['p', 'a', 'g', 'e', 'u', 'p']);
    assert("pagedown"@ =~= seq!['p', 'a', 'g', 'e', 'd', 'o', 'w', 'n']);
    assert("home"@ =~= seq!['h', 'o', 'm', 'e']);
    assert("end"@ =~= seq!['e', 'n', 'd']);
    assert("escape"@ =~= seq!['e', 's', 'c', 'a', 'p', 'e']);
    assert("delete"@ =~= seq!['d', 'e', 'l', 'e', 't', 'e']);
    assert("insert"@ =~= seq!['i', 'n', 's', 'e', 'r', 't']);
    assert("tab"@ =~= seq!['t', 'a', 'b']);
    assert("enter"@ =~= seq!['e', 'n', 't', 'e', 'r']);
    assert("backspace"@ =~= seq!['b', 'a', 'c', 'k', 's', 'p', 'a', 'c', 'e']);
    assert("space"@ =~= seq!['s', 'p', 'a', 'c', 'e']);
}

/// A key that types a character other than the space is named by that very
/// character; the digit keys type their digit and the letter keys their
/// letter, in order.
pub proof fn typing_keys_are_named_by_what_they_type(code: i32)
    ensures
        match spec_ohos_key(code) {
            Some((name, Some(c))) => c != ' ' ==> name == seq![c],
            _ => true,
        },
        2000 <= code <= 2009 ==> (match spec_ohos_key(code) {
            Some((_, Some(c))) => '0' <= c <= '9' && (c as int) - ('0' as int) == code - 2000,
            _ => false,
        }),
        2017 <= code <= 2042 ==> (match spec_ohos_key(code) {
            Some((_, Some(c))) => 'a' <= c <= 'z' && (c as int) - ('a' as int) == code - 2017,
            _ => false,
        }),
{
}

/// The NDK's button numbers: 2 is the right button, 3 the middle one, 4
/// and 5 step back and forward, and every other number is the primary
/// (left) button.
pub proof fn buttons_are_numbered_as_the_ndk_numbers_them(button: u32)
    ensures
        spec_map_button(button) == if button == 2 {
            MouseButton::Right
        } else if button == 3 {
            MouseButton::Middle
        } else if button == 4 {
            MouseButton::Back
        } else if button == 5 {
            MouseButton::Forward
        } else {
            MouseButton::Left
        },
{
}

} // verus!
